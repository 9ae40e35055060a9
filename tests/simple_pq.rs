use mpmc_pq::{PQError, PriorityQueue, SimplePQ};

#[test]
fn it_works() {
    assert_eq!(2 + 2, 4);
}

#[test]
fn single_thread_t1() {
    let mut q = SimplePQ::default();
    q.enqueue(1).unwrap();
    q.enqueue(3).unwrap();
    q.enqueue(2).unwrap();
    assert_eq!(q.dequeue().unwrap(), 3);
    assert_eq!(q.dequeue().unwrap(), 2);
    assert_eq!(q.dequeue().unwrap(), 1);
}

#[test]
fn single_thread_t2() {
    let mut q = SimplePQ::default();
    q.enqueue(1).unwrap();
    q.enqueue(3).unwrap();
    assert_eq!(q.dequeue().unwrap(), 3);
    q.enqueue(2).unwrap();
    assert_eq!(q.dequeue().unwrap(), 2);
    assert_eq!(q.dequeue().unwrap(), 1);
}

#[test]
fn pop_max_on_empty_gives_nothing_and_changes_nothing() {
    let mut q = SimplePQ::new();
    assert_eq!(q.pop_max(), None);
    assert!(q.is_empty());
    q.enqueue(7).unwrap();
    assert_eq!(q.len(), 1);
    assert_eq!(q.dequeue(), Ok(7));
    assert_eq!(q.pop_max(), None);
    assert_eq!(q.len(), 0);
}

#[test]
fn equal_items_each_come_out_once() {
    let mut q = SimplePQ::new();
    for v in [5usize, 5, 2, 5, 9, 2] {
        q.enqueue(v).unwrap();
    }
    assert_eq!(q.len(), 6);
    let mut out = Vec::new();
    while !q.is_empty() {
        out.push(q.dequeue().unwrap());
    }
    assert_eq!(out, vec![9, 5, 5, 5, 2, 2]);
    assert_eq!(q.len(), 0);
}

#[test]
fn drain_is_descending_sort() {
    let items: Vec<usize> = vec![4, 17, 0, 3, 17, 8, 1, 12, 6, 6];
    let mut q = SimplePQ::new();
    for v in items.iter() {
        q.enqueue(*v).unwrap();
    }
    let mut out = Vec::new();
    for _ in 0..items.len() {
        out.push(q.dequeue().unwrap());
    }
    let mut expected = items.clone();
    expected.sort();
    expected.reverse();
    assert_eq!(out, expected);
    assert!(q.is_empty());
}

#[test]
fn interleaved_calls_lose_and_duplicate_nothing() {
    let mut q = SimplePQ::new();
    let mut taken = Vec::new();
    q.enqueue(10).unwrap();
    q.enqueue(20).unwrap();
    taken.push(q.dequeue().unwrap());
    q.enqueue(15).unwrap();
    q.enqueue(10).unwrap();
    taken.push(q.dequeue().unwrap());
    taken.push(q.dequeue().unwrap());
    assert_eq!(taken, vec![20, 15, 10]);
    assert_eq!(q.len(), 1);
    assert_eq!(q.pop_max(), Some(10));
    assert_eq!(q.pop_max(), None);
}

#[test]
fn extreme_values() {
    let mut q = SimplePQ::new();
    q.push(0);
    q.push(usize::MAX);
    q.push(1);
    assert_eq!(q.pop_max(), Some(usize::MAX));
    assert_eq!(q.pop_max(), Some(1));
    assert_eq!(q.pop_max(), Some(0));
}

#[test]
fn poisoning_signal_becomes_lock_error() {
    let poison = std::sync::PoisonError::new(vec![1u8, 2]);
    assert_eq!(PQError::from(poison), PQError::LockError);
    let poison_unit = std::sync::PoisonError::new(());
    let e: PQError = poison_unit.into();
    assert_eq!(e, PQError::LockError);
}

#[test]
fn drain_takes_everything_greatest_first() {
    let mut q = SimplePQ::new();
    for v in [3usize, 11, 3, 0, 7] {
        q.enqueue(v).unwrap();
    }
    assert_eq!(q.drain(), vec![11, 7, 3, 3, 0]);
    assert!(q.is_empty());
    assert_eq!(q.drain(), Vec::<usize>::new());
}
