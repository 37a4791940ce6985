use ddb::log::Log;

#[test]
fn log_test_commit_read() {
    let mut log = Log::new(Vec::new());
    log.append(vec![0x00]);
    log.append(vec![0x01]);
    log.append(vec![0x02]);
    log.append(vec![0x03]);
    log.commit(3).unwrap();

    assert_eq!(log.uncommited.len(), 1);
    assert_eq!(vec![vec![0], vec![1], vec![2]], log.read());
}

#[test]
fn commit_appends_after_existing_records() {
    let mut log = Log::new(Vec::new());
    log.append(vec![0x01, 0x02]);
    let first = log.commit(1).unwrap();

    let mut log2 = Log::new(first);
    log2.append(vec![0x03]);
    log2.commit(1).unwrap();
    assert_eq!(log2.read(), vec![vec![0x01, 0x02], vec![0x03]]);
}
