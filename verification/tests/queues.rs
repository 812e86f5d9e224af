use voxel_world::positions::ChunkPosition;
use voxel_world::queue::ModificationQueue;
use voxel_world::queue::PositionQueue;
use voxel_world::structures::Modification;

fn chunk(x: i32, y: i32, z: i32) -> ChunkPosition {
    ChunkPosition { x, y, z }
}

fn edit(id: u16, position: usize) -> Modification {
    Modification { id, force: false, position }
}

#[test]
fn modification_queue_starts_empty() {
    let mut queue = ModificationQueue::new();
    assert_eq!(queue.len(), 0);
    assert!(!queue.contains_key(5, chunk(0, 0, 0)));
    assert!(queue.pop_back().is_none());
}

#[test]
fn modification_queue_pops_newest_first() {
    let mut queue = ModificationQueue::new();
    queue.insert(chunk(0, 0, 0), edit(1, 10));
    queue.insert(chunk(0, 0, 0), edit(2, 20));
    queue.insert(chunk(1, 0, 0), edit(3, 10));
    assert_eq!(queue.len(), 3);
    assert!(queue.contains_key(10, chunk(0, 0, 0)));
    assert!(queue.contains_key(10, chunk(1, 0, 0)));
    assert!(!queue.contains_key(20, chunk(1, 0, 0)));
    assert_eq!(queue.pop_back(), Some((chunk(1, 0, 0), edit(3, 10))));
    assert_eq!(queue.pop_back(), Some((chunk(0, 0, 0), edit(2, 20))));
    assert_eq!(queue.pop_back(), Some((chunk(0, 0, 0), edit(1, 10))));
    assert_eq!(queue.pop_back(), None);
}

#[test]
fn modification_queue_rewrite_moves_to_the_back() {
    let mut queue = ModificationQueue::new();
    queue.insert(chunk(0, 0, 0), edit(1, 10));
    queue.insert(chunk(0, 0, 0), edit(2, 20));
    queue.insert(chunk(0, 0, 0), edit(3, 10));
    assert_eq!(queue.len(), 2);
    assert_eq!(queue.pop_back(), Some((chunk(0, 0, 0), edit(3, 10))));
    assert_eq!(queue.pop_back(), Some((chunk(0, 0, 0), edit(2, 20))));
    assert_eq!(queue.len(), 0);
}

#[test]
fn position_queue_is_first_in_first_out() {
    let mut queue = PositionQueue::new();
    assert_eq!(queue.len(), 0);
    assert!(queue.insert_if_absent(chunk(1, 2, 3)));
    assert!(queue.insert_if_absent(chunk(4, 5, 6)));
    assert!(!queue.insert_if_absent(chunk(1, 2, 3)));
    assert_eq!(queue.len(), 2);
    assert_eq!(queue.pop_front(), Some(chunk(1, 2, 3)));
    assert_eq!(queue.pop_front(), Some(chunk(4, 5, 6)));
    assert_eq!(queue.pop_front(), None);
}

#[test]
fn position_queue_insert_gives_up_the_place() {
    let mut queue = PositionQueue::new();
    assert!(queue.insert(chunk(1, 0, 0)));
    assert!(queue.insert(chunk(2, 0, 0)));
    assert!(!queue.insert(chunk(1, 0, 0)));
    assert_eq!(queue.len(), 2);
    assert_eq!(queue.pop_front(), Some(chunk(2, 0, 0)));
    assert_eq!(queue.pop_front(), Some(chunk(1, 0, 0)));
}

#[test]
fn position_queue_insert_if_absent_keeps_the_place() {
    let mut queue = PositionQueue::new();
    queue.insert_if_absent(chunk(1, 0, 0));
    queue.insert_if_absent(chunk(2, 0, 0));
    queue.insert_if_absent(chunk(1, 0, 0));
    assert_eq!(queue.pop_front(), Some(chunk(1, 0, 0)));
    assert_eq!(queue.pop_front(), Some(chunk(2, 0, 0)));
}
