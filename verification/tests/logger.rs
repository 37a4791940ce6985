use ddb::encoding::KVOperation;
use ddb::error::Error;
use ddb::logger::Logger;

#[test]
fn test_commit_get() {
    let mut l = Logger::new(Vec::new());
    l.append(vec![0x00]);
    l.append(vec![0x01]);
    l.append(vec![0x02]);
    l.commit(3).unwrap();

    let entry = l.get(1).unwrap();

    assert_eq!(entry, vec![0x01]);
}

#[test]
fn logger_test_commit_read() {
    let mut l = Logger::new(Vec::new());
    l.append(vec![0x00]);
    l.append(vec![0x01]);
    l.append(vec![0x02]);
    l.append(vec![0x03]);
    l.commit(3).unwrap();

    assert_eq!(l.committed(), 3);
    assert_eq!(l.uncommitted(), 1);
    assert_eq!(l.read_all(), vec![vec![0], vec![1], vec![2]]);
}

#[test]
fn test_commit_read_exact() {
    let mut l = Logger::new(Vec::new());
    l.append(vec![0x00]);
    l.append(vec![0x01]);
    l.append(vec![0x02]);
    l.append(vec![0x03]);
    l.commit(4).unwrap();

    assert_eq!(l.read_exact(1, 2).unwrap(), vec![vec![1], vec![2]]);
}

#[test]
fn test_index() {
    let mut l = Logger::new(Vec::new());
    l.append(vec![0x00]);
    l.append(vec![0x01]);
    let delta = l.commit(2).unwrap();

    let entry0 = l.index_entry(0).unwrap();
    assert_eq!(entry0.position, 4);
    assert_eq!(entry0.length, 1);
    let entry1 = l.index_entry(1).unwrap();
    assert_eq!(entry1.position, (4 + 1) + 4);
    assert_eq!(entry1.length, 1);

    // Reopening over the same bytes rebuilds the same index.
    let l2 = Logger::new(delta);
    let entry0 = l2.index_entry(0).unwrap();
    assert_eq!(entry0.position, 4);
    assert_eq!(entry0.length, 1);
    let entry1 = l2.index_entry(1).unwrap();
    assert_eq!(entry1.position, (4 + 1) + 4);
    assert_eq!(entry1.length, 1);
}

#[test]
fn commit_writes_length_prefixed_records() {
    let mut l = Logger::new(Vec::new());
    l.append(KVOperation::set(b"a", b"1").encode());
    let delta = l.commit(1).unwrap();
    let frame = vec![0x02, 0, 0, 0, 1, 0x61, 0, 0, 0, 1, 0x31];
    let mut record = vec![0, 0, 0, 11];
    record.extend_from_slice(&frame);
    assert_eq!(delta, record);
    assert_eq!(l.read_all(), vec![frame]);
}

#[test]
fn commit_too_many_is_internal_error_and_writes_nothing() {
    let mut l = Logger::new(Vec::new());
    l.append(vec![0x00]);
    assert!(matches!(l.commit(2), Err(Error::Internal(_))));
    assert_eq!(l.committed(), 0);
    assert_eq!(l.uncommitted(), 1);
    assert_eq!(l.read_all(), Vec::<Vec<u8>>::new());
}

#[test]
fn get_out_of_bounds_is_internal_error() {
    let mut l = Logger::new(Vec::new());
    l.append(vec![0x2a]);
    l.commit(1).unwrap();
    assert!(l.get(0).is_ok());
    assert!(matches!(l.get(1), Err(Error::Internal(_))));
}

#[test]
fn empty_log_has_nothing_to_stream() {
    let l = Logger::new(Vec::new());
    assert!(matches!(l.get(0), Err(Error::Internal(_))));
    assert_eq!(l.read_all(), Vec::<Vec<u8>>::new());
    assert_eq!(l.committed(), 0);
}

#[test]
fn partial_tail_is_dropped_from_view() {
    // A record announcing five bytes but carrying one ends the scan.
    let l = Logger::new(vec![0, 0, 0, 5, 0x01]);
    assert_eq!(l.committed(), 0);
    assert_eq!(l.read_all(), Vec::<Vec<u8>>::new());
}

#[test]
fn read_all_concatenates_commit_batches() {
    let mut l = Logger::new(Vec::new());
    l.append(vec![0x0a]);
    l.append(vec![0x0b]);
    l.commit(2).unwrap();
    l.append(vec![0x0c]);
    l.commit(1).unwrap();
    assert_eq!(l.read_all(), vec![vec![0x0a], vec![0x0b], vec![0x0c]]);
    assert_eq!(l.get(2).unwrap(), vec![0x0c]);
}

#[test]
fn restart_over_accumulated_deltas_preserves_entries() {
    let mut l = Logger::new(Vec::new());
    l.append(vec![0x10, 0x11]);
    l.append(vec![0x12]);
    let mut file = l.commit(2).unwrap();
    l.append(vec![0x13, 0x14, 0x15]);
    file.extend_from_slice(&l.commit(1).unwrap());

    let l2 = Logger::new(file);
    assert_eq!(l2.committed(), 3);
    assert_eq!(l2.read_all(), l.read_all());
    assert_eq!(l2.index_entry(2).unwrap(), l.index_entry(2).unwrap());
}

#[test]
fn committed_frame_decodes_back() {
    let mut l = Logger::new(Vec::new());
    l.append(KVOperation::set(b"a", b"1").encode());
    l.commit(1).unwrap();
    let payload = l.get(0).unwrap();
    assert_eq!(KVOperation::decode(payload).unwrap(), KVOperation::set(b"a", b"1"));
}
