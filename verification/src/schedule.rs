use vstd::prelude::*;

verus! {

/// A latch that lets one frame through: the one that comes after a given
/// number of others. It is asked once per frame.
#[derive(Clone, Copy, Debug, PartialEq, Eq, Structural)]
pub enum RunOnce {
    /// So many frames are still to pass before the one that runs.
    Pending(u32),
    /// The frame that runs has been.
    Done,
}

impl RunOnce {
    /// Whether the frame that is asked for now is the one that runs.
    pub open spec fn fires(self) -> bool {
        self == RunOnce::Pending(0)
    }

    /// The latch after it has been asked once more.
    pub open spec fn next(self) -> RunOnce {
        match self {
            RunOnce::Pending(left) => if left == 0 {
                RunOnce::Done
            } else {
                RunOnce::Pending((left - 1) as u32)
            },
            RunOnce::Done => RunOnce::Done,
        }
    }

    /// The latch after it has been asked `frames` times.
    pub open spec fn after(self, frames: nat) -> RunOnce
        decreases frames,
    {
        if frames == 0 {
            self
        } else {
            self.after((frames - 1) as nat).next()
        }
    }

    /// The latch that lets frame `n` through, counted from zero.
    pub fn at(n: u32) -> (latch: RunOnce)
        ensures
            latch == RunOnce::Pending(n),
    {
        RunOnce::Pending(n)
    }

    /// Asks the latch for one frame: whether it is the one that runs.
    pub fn tick(&mut self) -> (fired: bool)
        ensures
            fired == old(self).fires(),
            *final(self) == old(self).next(),
    {
        match *self {
            RunOnce::Pending(left) => {
                if left == 0 {
                    *self = RunOnce::Done;
                    true
                } else {
                    *self = RunOnce::Pending(left - 1);
                    false
                }
            },
            RunOnce::Done => false,
        }
    }
}

/// A latch made for frame `n` counts down to it and is done from then on.
pub proof fn lemma_latch_counts_down(n: u32, frames: nat)
    ensures
        RunOnce::Pending(n).after(frames) == if frames <= n {
            RunOnce::Pending((n - frames) as u32)
        } else {
            RunOnce::Done
        },
    decreases frames,
{
    if frames > 0 {
        lemma_latch_counts_down(n, (frames - 1) as nat);
    }
}

/// A latch made for frame `n` lets that frame through and no other.
pub proof fn lemma_runs_once(n: u32, frames: nat)
    ensures
        RunOnce::Pending(n).after(frames).fires() == (frames == n),
{
    lemma_latch_counts_down(n, frames);
}

/// A command that is carried out every frame until its time is up.
#[derive(Clone, Copy, Debug, PartialEq, Eq, Structural)]
pub struct TimedCommand {
    /// The number under which the owner of the queue keeps what is to be
    /// done.
    pub id: u64,
    /// The time that the command has left.
    pub remaining: u64,
}

/// Whether the command has time left when `delta` has passed.
pub open spec fn outlasts(command: TimedCommand, delta: u64) -> bool {
    command.remaining > delta
}

/// The command when `delta` of its time has passed.
pub open spec fn aged(command: TimedCommand, delta: u64) -> TimedCommand {
    TimedCommand { id: command.id, remaining: (command.remaining - delta) as u64 }
}

/// The commands that have time left when `delta` has passed, with what is
/// left of it, in their order.
pub open spec fn surviving(commands: Seq<TimedCommand>, delta: u64) -> Seq<TimedCommand> {
    commands.filter(|c: TimedCommand| outlasts(c, delta)).map_values(
        |c: TimedCommand| aged(c, delta),
    )
}

/// The numbers of the commands, in their order.
pub open spec fn ids_of(commands: Seq<TimedCommand>) -> Seq<u64> {
    commands.map_values(|c: TimedCommand| c.id)
}

/// One more command joins the surviving ones if it has time left.
pub proof fn lemma_surviving_push(commands: Seq<TimedCommand>, command: TimedCommand, delta: u64)
    ensures
        surviving(commands.push(command), delta) == if outlasts(command, delta) {
            surviving(commands, delta).push(aged(command, delta))
        } else {
            surviving(commands, delta)
        },
{
    let lasting = |c: TimedCommand| outlasts(c, delta);
    commands.lemma_filter_push(command, lasting);
    if outlasts(command, delta) {
        assert(commands.filter(lasting).push(command).map_values(|c: TimedCommand| aged(c, delta))
            =~= commands.filter(lasting).map_values(|c: TimedCommand| aged(c, delta)).push(
            aged(command, delta),
        ));
    }
}

/// Commands that are carried out frame by frame, each until its time is up.
#[derive(Debug)]
pub struct TimedQueue {
    pub commands: Vec<TimedCommand>,
}

impl View for TimedQueue {
    type V = Seq<TimedCommand>;

    open spec fn view(&self) -> Seq<TimedCommand> {
        self.commands@
    }
}

impl TimedQueue {
    /// A queue without commands.
    pub fn new() -> (queue: TimedQueue)
        ensures
            queue@ == Seq::<TimedCommand>::empty(),
    {
        TimedQueue { commands: Vec::new() }
    }

    /// Adds a command that is carried out while `timeout` has not passed.
    pub fn push(&mut self, id: u64, timeout: u64)
        ensures
            final(self)@ == old(self)@.push(TimedCommand { id, remaining: timeout }),
    {
        self.commands.push(TimedCommand { id, remaining: timeout });
    }

    /// Lets `delta` pass: the commands whose time is up leave the queue, and
    /// the numbers of the others, which are to be carried out this frame,
    /// are returned in their order.
    pub fn tick(&mut self, delta: u64) -> (due: Vec<u64>)
        ensures
            final(self)@ == surviving(old(self)@, delta),
            due@ == ids_of(final(self)@),
    {
        let ghost before = self@;
        let mut kept: Vec<TimedCommand> = Vec::new();
        let mut due: Vec<u64> = Vec::new();
        let mut i: usize = 0;
        while i < self.commands.len()
            invariant
                0 <= i <= self.commands@.len(),
                self@ == before,
                kept@ == surviving(before.take(i as int), delta),
                due@ == ids_of(kept@),
            decreases self.commands@.len() - i,
        {
            let command: TimedCommand = self.commands[i];
            proof {
                assert(before.take(i + 1) =~= before.take(i as int).push(command));
                lemma_surviving_push(before.take(i as int), command, delta);
            }
            if command.remaining > delta {
                let left = TimedCommand { id: command.id, remaining: command.remaining - delta };
                kept.push(left);
                due.push(left.id);
                proof {
                    assert(due@ =~= ids_of(kept@));
                }
            }
            i += 1;
        }
        proof {
            assert(before.take(before.len() as int) =~= before);
        }
        self.commands = kept;
        due
    }
}

} // verus!
