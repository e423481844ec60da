use blockwheel::block::{Bytes, BytesMut};
use blockwheel::defrag::TasksQueue;
use blockwheel::lru::Cache;
use blockwheel::schema::SpaceKey;
use blockwheel::task::Queue;

#[test]
fn bytes_duplicate_keeps_contents() {
    let b = Bytes::from_vec(vec![1, 2, 3, 4]);
    let d = b.duplicate();
    assert_eq!(d.as_slice(), &[1, 2, 3, 4]);
    assert_eq!(b.as_slice(), d.as_slice());
}

#[test]
fn bytes_mut_freeze_keeps_contents() {
    let mut m = BytesMut::new();
    m.push(9);
    m.push(8);
    assert_eq!(m.len(), 2);
    let b = m.freeze();
    assert_eq!(b.as_slice(), &[9, 8]);
}

#[test]
fn cache_insert_get_invalidate() {
    let mut cache = Cache::new();
    assert!(cache.get(5).is_none());
    cache.insert(5, Bytes::from_vec(vec![1, 2]));
    assert_eq!(cache.get(5).unwrap().as_slice(), &[1, 2]);
    cache.insert(5, Bytes::from_vec(vec![3]));
    assert_eq!(cache.get(5).unwrap().as_slice(), &[3]);
    cache.invalidate(5);
    assert!(cache.get(5).is_none());
}

#[test]
fn ready_queue_prefers_closest_forward() {
    let mut q = Queue::new();
    q.push(1000, 1);
    q.push(10, 2);
    q.push(500, 3);
    // head at 0: the lowest offset ahead wins
    let item = q.pop_block_id(0).unwrap();
    assert_eq!((item.offset, item.serial), (10, 2));
    // head at 600: 1000 is the only offset ahead
    let item = q.pop_block_id(600).unwrap();
    assert_eq!((item.offset, item.serial), (1000, 1));
    // nothing ahead of 600: fall back to the lowest offset behind
    let item = q.pop_block_id(600).unwrap();
    assert_eq!((item.offset, item.serial), (500, 3));
    assert!(q.pop_block_id(0).is_none());
}

#[test]
fn defrag_queue_pops_lowest_offset() {
    let mut q = TasksQueue::new();
    q.push(700, SpaceKey { serial: 1 });
    q.push(100, SpaceKey { serial: 2 });
    q.push(300, SpaceKey { serial: 3 });
    assert_eq!(q.pop().unwrap().offset, 100);
    assert_eq!(q.pop().unwrap().offset, 300);
    assert_eq!(q.pop().unwrap().offset, 700);
    assert!(q.pop().is_none());
}
