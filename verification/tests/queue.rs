use pinned_queue::PinnedQueue;
use std::ptr;

#[test]
fn test() {
    let mut queue = PinnedQueue::new();
    queue.push_back(1);
    let p = queue.get(0).unwrap();
    assert_eq!(1, *p);
    let p1 = ptr::from_ref(p);

    queue.push_back(2);
    let p = queue.get(0).unwrap();
    assert_eq!(1, *p);
    assert!(ptr::eq(p1, ptr::from_ref(p)));

    queue.push_back(3);

    let p1 = ptr::from_ref(queue.get_mut(2).unwrap());
    queue.push_back(4);
    queue.push_back(5);

    queue.pop_front();
    queue.pop_front();

    let p = queue.get_mut(0).unwrap();
    assert_eq!(3, *p);
    assert!(ptr::eq(p1, ptr::from_ref(p)));
}

#[test]
fn fifo_order() {
    let mut queue = PinnedQueue::new();
    for v in 1..=10 {
        queue.push_back(v);
    }
    for i in 0..10 {
        assert_eq!(i as i32 + 1, *queue.get(i).unwrap());
    }
    assert!(queue.pop_front());
    for i in 0..9 {
        assert_eq!(i as i32 + 2, *queue.get(i).unwrap());
    }
}

#[test]
fn length_invariant() {
    let mut queue = PinnedQueue::new();
    let mut pushes = 0usize;
    let mut pops = 0usize;
    for round in 0..50usize {
        for v in 0..(round % 5) {
            queue.push_back(v);
            pushes += 1;
            assert_eq!(pushes - pops, queue.len());
        }
        if queue.pop_front() {
            pops += 1;
        }
        assert_eq!(pushes - pops, queue.len());
        assert_eq!(queue.len() == 0, queue.is_empty());
    }
}

#[test]
fn boundary() {
    let mut queue: PinnedQueue<u8> = PinnedQueue::new();
    assert!(!queue.pop_front());
    assert_eq!(0, queue.len());
    assert!(queue.get(0).is_none());
    assert!(queue.get_mut(0).is_none());
    assert!(queue.last_mut().is_none());

    queue.push_back(9);
    // index == len and beyond is absent
    assert!(queue.get(1).is_none());
    assert!(queue.get(2).is_none());
    assert!(queue.get_mut(1).is_none());
    assert!(queue.get(usize::MAX - 2).is_none());
}

#[test]
fn growth_never_fails() {
    let mut queue = PinnedQueue::new();
    for v in 0..10_000u32 {
        queue.push_back(v);
    }
    assert_eq!(10_000, queue.len());
    for i in 0..10_000usize {
        assert_eq!(i as u32, *queue.get(i).unwrap());
    }
}

#[test]
fn reads_across_levels_after_removals() {
    // spans the blocks of levels 0 through 5, then removes enough from the
    // front to leave the head partway into the level-3 block, and reads and
    // writes across the later level boundaries
    let mut queue = PinnedQueue::new();
    for v in 0..40i64 {
        queue.push_back(v);
    }
    for _ in 0..10 {
        assert!(queue.pop_front());
    }
    assert_eq!(30, queue.len());
    for i in 0..30usize {
        assert_eq!(i as i64 + 10, *queue.get(i).unwrap());
    }
    for i in 0..30usize {
        queue.replace(i, -(i as i64));
    }
    for i in 0..30usize {
        assert_eq!(-(i as i64), *queue.get(i).unwrap());
    }
    *queue.get_mut(29).unwrap() = 1000;
    assert_eq!(1000, *queue.get(29).unwrap());
    assert_eq!(-28, *queue.get(28).unwrap());
}

#[test]
fn addresses_stable_until_popped() {
    let mut queue = PinnedQueue::new();
    for v in 0..20u64 {
        queue.push_back(v);
    }
    let addrs: Vec<_> = (0..20).map(|i| ptr::from_ref(queue.get(i).unwrap())).collect();
    // later appends move nothing
    for v in 20..100u64 {
        queue.push_back(v);
    }
    for (i, a) in addrs.iter().enumerate() {
        assert!(ptr::eq(*a, ptr::from_ref(queue.get(i).unwrap())));
    }
    // removals from the front move no surviving element, and replacing one
    // element reuses its slot and touches no other
    for _ in 0..7 {
        assert!(queue.pop_front());
    }
    for i in 7..20usize {
        assert!(ptr::eq(addrs[i], ptr::from_ref(queue.get(i - 7).unwrap())));
    }
    queue.replace(5, 999);
    assert_eq!(999, *queue.get(5).unwrap());
    assert!(ptr::eq(addrs[12], ptr::from_ref(queue.get(5).unwrap())));
}

#[test]
fn drain_and_reuse() {
    let mut queue = PinnedQueue::new();
    for v in 0..25u16 {
        queue.push_back(v);
    }
    for _ in 0..25 {
        assert!(queue.pop_front());
    }
    assert!(!queue.pop_front());
    assert_eq!(0, queue.len());
    assert!(queue.is_empty());
    assert!(queue.get(0).is_none());
    // the head now sits partway into a level it never stored; filling again
    // lays new blocks out from that point
    for v in 100..140u16 {
        queue.push_back(v);
    }
    assert_eq!(40, queue.len());
    for i in 0..40usize {
        assert_eq!(100 + i as u16, *queue.get(i).unwrap());
    }
}

#[test]
fn last_mut_reads_and_writes_the_back() {
    let mut queue = PinnedQueue::new();
    queue.push_back(String::from("a"));
    queue.push_back(String::from("b"));
    assert_eq!("b", queue.last_mut().unwrap().as_str());
    *queue.last_mut().unwrap() = String::from("c");
    assert_eq!("c", queue.get(1).unwrap().as_str());
    assert_eq!("a", queue.get(0).unwrap().as_str());
    assert!(queue.pop_front());
    assert_eq!("c", queue.last_mut().unwrap().as_str());
}
