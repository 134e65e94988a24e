use canvas_geometry::schedule::{RunOnce, TimedCommand, TimedQueue};

#[test]
fn latch_lets_one_frame_through() {
    let mut latch = RunOnce::at(2);
    let fired: Vec<bool> = (0..6).map(|_| latch.tick()).collect();
    assert_eq!(fired, vec![false, false, true, false, false, false]);
    assert_eq!(latch, RunOnce::Done);
}

#[test]
fn latch_for_the_first_frame() {
    let mut latch = RunOnce::at(0);
    assert!(latch.tick());
    assert!(!latch.tick());
}

#[test]
fn latch_for_the_last_frame_that_can_be_counted() {
    let mut latch = RunOnce::at(u32::MAX);
    assert!(!latch.tick());
    assert_eq!(latch, RunOnce::Pending(u32::MAX - 1));
}

#[test]
fn queue_carries_commands_out_until_their_time_is_up() {
    let mut queue = TimedQueue::new();
    queue.push(7, 30);
    queue.push(8, 10);
    queue.push(9, 20);
    assert_eq!(queue.tick(10), vec![7, 9]);
    assert_eq!(
        queue.commands,
        vec![TimedCommand { id: 7, remaining: 20 }, TimedCommand { id: 9, remaining: 10 }]
    );
    assert_eq!(queue.tick(0), vec![7, 9]);
    assert_eq!(queue.tick(15), vec![7]);
    assert_eq!(queue.tick(5), Vec::<u64>::new());
    assert_eq!(queue.tick(5), Vec::<u64>::new());
    assert!(queue.commands.is_empty());
}

#[test]
fn queue_drops_a_command_without_time_at_once() {
    let mut queue = TimedQueue::new();
    queue.push(1, 0);
    queue.push(2, u64::MAX);
    assert_eq!(queue.tick(0), vec![2]);
    assert_eq!(queue.tick(u64::MAX - 1), vec![2]);
    assert_eq!(queue.tick(1), Vec::<u64>::new());
}
