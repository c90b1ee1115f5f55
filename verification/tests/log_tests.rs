use mqtt_storage::Key;
use mqtt_storage::Storage;
use mqtt_storage::memory::Queue;
use mqtt_storage::log::LogStore;

fn open_log(dir: &tempfile::TempDir, name: &str) -> queue_file::QueueFile {
    queue_file::QueueFile::open(dir.path().join(name)).unwrap()
}

#[test]
fn append_only_hole_scenario() {
    let dir = tempfile::TempDir::new().unwrap();
    let mut q = mqtt_storage::log::Queue::new(open_log(&dir, "a.qf"));

    assert_eq!(q.push(b"a".to_vec()), Key(0, 0));
    assert_eq!(q.push(b"b".to_vec()), Key(0, 1));
    assert_eq!(q.push(b"c".to_vec()), Key(0, 2));

    q.remove(Key(0, 1));
    assert_eq!(q.oldest_offset(), 0, "a hole must not free the head");
    assert_eq!(q.batch(10).len(), 3, "records behind a hole stay visible");

    q.remove(Key(0, 0));
    assert_eq!(q.oldest_offset(), 2, "closing the hole frees the whole run");
    let rest: Vec<(Key, Vec<u8>)> = q.batch(10).into_iter().collect();
    assert_eq!(rest, vec![(Key(0, 2), b"c".to_vec())]);
}

#[test]
fn out_of_order_ack_frees_head_only_when_contiguous() {
    let dir = tempfile::TempDir::new().unwrap();
    let mut q = mqtt_storage::log::Queue::new(open_log(&dir, "b.qf"));
    for i in 0..10u8 {
        q.push(vec![i]);
    }

    q.remove(Key(0, 2));
    assert_eq!(q.oldest_offset(), 0);
    q.remove(Key(0, 1));
    assert_eq!(q.oldest_offset(), 0);
    q.remove(Key(0, 0));
    assert_eq!(q.oldest_offset(), 3, "the head frees only once 0, 1 and 2 are all acked");
    assert_eq!(q.batch(100).len(), 7);
}

#[test]
fn ack_far_ahead_does_not_advance_head() {
    let dir = tempfile::TempDir::new().unwrap();
    let mut q = mqtt_storage::log::Queue::new(open_log(&dir, "c.qf"));
    for i in 0..10u8 {
        q.push(vec![i]);
    }

    q.remove(Key(0, 5));
    assert_eq!(q.oldest_offset(), 0);
    let batch: Vec<(Key, Vec<u8>)> = q.batch(100).into_iter().collect();
    assert_eq!(batch.len(), 10, "batches still start at offset 0");
    assert_eq!(batch[0], (Key(0, 0), vec![0u8]));
}

#[test]
fn log_remove_is_idempotent() {
    let dir = tempfile::TempDir::new().unwrap();
    let mut q = mqtt_storage::log::Queue::new(open_log(&dir, "d.qf"));
    for i in 0..4u8 {
        q.push(vec![i]);
    }
    q.remove(Key(0, 2));
    q.remove(Key(0, 2));
    assert_eq!(q.oldest_offset(), 0);
    assert_eq!(q.batch(10).len(), 4);
    q.remove(Key(0, 0));
    q.remove(Key(0, 0));
    assert_eq!(q.oldest_offset(), 1);
    q.remove(Key(0, 1));
    assert_eq!(q.oldest_offset(), 3, "the duplicate acks poison nothing");
}

#[test]
fn it_iters_without_delete() {
    let path = tempfile::TempDir::new().unwrap();

    let mut file = queue_file::QueueFile::open(path.as_ref().join("foo.qf")).unwrap();
    file.add(b"1").unwrap();
    file.add(b"2").unwrap();

    assert!(matches!(file.iter().next(), Some(p) if p.to_vec() == b"1"));
    assert!(matches!(file.iter().next(), Some(p) if p.to_vec() == b"1"));

    file.remove().unwrap();
    assert!(matches!(file.iter().next(), Some(p) if p.to_vec() == b"2"));

    file.remove().unwrap();
    assert!(matches!(file.iter().next(), None));
}

#[test]
fn log_store_by_name() {
    let dir = tempfile::TempDir::new().unwrap();
    let files = vec![open_log(&dir, "q0.qf"), open_log(&dir, "q1.qf")];
    let mut store = LogStore::new("q", 2, files);

    let mut names = store.names();
    names.sort();
    assert_eq!(names, vec!["q0".to_string(), "q1".to_string()]);

    assert_eq!(store.push("q0", b"a".to_vec()), Key(0, 0));
    assert_eq!(store.push("q1", b"b".to_vec()), Key(0, 0));
    assert_eq!(store.push("q1", b"c".to_vec()), Key(0, 1));

    let got: Vec<(Key, Vec<u8>)> = store.batch("q1", 10).into_iter().collect();
    assert_eq!(got, vec![(Key(0, 0), b"b".to_vec()), (Key(0, 1), b"c".to_vec())]);

    store.remove("q1", Key(0, 0));
    let got: Vec<(Key, Vec<u8>)> = store.batch("q1", 10).into_iter().collect();
    assert_eq!(got, vec![(Key(0, 1), b"c".to_vec())]);
    assert_eq!(store.batch("q0", 10).len(), 1);
}
