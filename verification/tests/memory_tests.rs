use mqtt_storage::Key;
use mqtt_storage::Storage;
use mqtt_storage::memory::Memory;
use mqtt_storage::memory::Queue;
use mqtt_storage::memory::VecQueue;
use mqtt_storage::memory::BTreeQueue;

#[test]
fn vec_queue_works() {
    let mut queue = VecQueue::default();
    let key = queue.push(vec![1, 2, 3]);
    queue.remove(key);

    assert!(queue.is_empty());
}

#[test]
fn vec_queue_batch_works() {
    let mut queue = VecQueue::default();
    let key = queue.push(vec![1, 2, 3]);
    queue.remove(key);

    assert!(queue.is_empty());
}

#[test]
fn tree_scenario_three_records() {
    let mut store = Memory::tree("q", 1);
    assert_eq!(store.names(), vec!["q0".to_string()]);

    let k1 = store.push("q0", b"a".to_vec());
    let k2 = store.push("q0", b"b".to_vec());
    let k3 = store.push("q0", b"c".to_vec());
    assert_eq!((k1, k2, k3), (Key(0, 0), Key(0, 1), Key(0, 2)));

    let batch = store.batch("q0", 2);
    let got: Vec<(Key, Vec<u8>)> = batch.into_iter().collect();
    assert_eq!(got, vec![(Key(0, 0), b"a".to_vec()), (Key(0, 1), b"b".to_vec())]);

    store.remove("q0", Key(0, 0));
    let batch = store.batch("q0", 2);
    let got: Vec<(Key, Vec<u8>)> = batch.into_iter().collect();
    assert_eq!(got, vec![(Key(0, 1), b"b".to_vec()), (Key(0, 2), b"c".to_vec())]);
}

#[test]
fn offsets_are_monotonic_without_gaps() {
    let mut queue = BTreeQueue::default();
    let mut previous: Option<Key> = None;
    for i in 0..20u64 {
        let key = queue.push(vec![i as u8]);
        assert_eq!(key, Key(0, i));
        if let Some(p) = previous {
            assert_eq!(key.1, p.1 + 1);
        }
        previous = Some(key);
    }
}

#[test]
fn batch_is_a_peek() {
    let mut store = Memory::vec("q", 2);
    store.push("q1", b"x".to_vec());
    store.push("q1", b"y".to_vec());
    store.push("q1", b"z".to_vec());

    let first: Vec<(Key, Vec<u8>)> = store.batch("q1", 2).into_iter().collect();
    let second: Vec<(Key, Vec<u8>)> = store.batch("q1", 2).into_iter().collect();
    assert_eq!(first, second);
    assert_eq!(first.len(), 2);
}

#[test]
fn remove_is_idempotent() {
    let mut store = Memory::tree("q", 1);
    store.push("q0", b"a".to_vec());
    store.push("q0", b"b".to_vec());

    store.remove("q0", Key(0, 0));
    let once: Vec<(Key, Vec<u8>)> = store.batch("q0", 10).into_iter().collect();
    store.remove("q0", Key(0, 0));
    let twice: Vec<(Key, Vec<u8>)> = store.batch("q0", 10).into_iter().collect();
    assert_eq!(once, twice);
    assert_eq!(once, vec![(Key(0, 1), b"b".to_vec())]);
}

#[test]
fn remove_of_absent_key_is_noop() {
    let mut queue = VecQueue::default();
    queue.push(b"a".to_vec());
    queue.remove(Key(0, 7));
    assert_eq!(queue.len(), 1);
}

#[test]
fn names_carry_multi_digit_numbers() {
    let store = Memory::vec("q", 12);
    let mut names = store.names();
    names.sort();
    assert_eq!(names.len(), 12);
    assert!(names.contains(&"q0".to_string()));
    assert!(names.contains(&"q10".to_string()));
    assert!(names.contains(&"q11".to_string()));
}

#[test]
fn queues_are_independent() {
    let mut store = Memory::vec("q", 3);
    store.push("q0", b"a".to_vec());
    store.push("q2", b"c".to_vec());
    assert_eq!(store.batch("q0", 10).len(), 1);
    assert_eq!(store.batch("q1", 10).len(), 0);
    assert_eq!(store.batch("q2", 10).len(), 1);
    store.remove("q0", Key(0, 0));
    assert_eq!(store.batch("q0", 10).len(), 0);
    assert_eq!(store.batch("q2", 10).len(), 1);
}
