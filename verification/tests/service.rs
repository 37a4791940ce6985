use ddb::service::commit_batch_size;

#[test]
fn committer_drains_in_bounded_batches() {
    assert_eq!(commit_batch_size(0), 0);
    assert_eq!(commit_batch_size(1), 1);
    assert_eq!(commit_batch_size(5), 5);
    assert_eq!(commit_batch_size(9), 5);
}
