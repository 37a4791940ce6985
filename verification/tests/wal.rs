use ddb::wal::{delete_line, insert_line, ParseWalError, WalOperation, WalOperationLog};

#[test]
fn parse_operation_verbs() {
    assert_eq!(WalOperation::from_str("insert").unwrap(), WalOperation::Insert);
    assert_eq!(WalOperation::from_str("DELETE").unwrap(), WalOperation::Delete);
    assert_eq!(WalOperation::from_str("  DeLeTe \n").unwrap(), WalOperation::Delete);
    match WalOperation::from_str("upsert") {
        Err(ParseWalError::InvalidOperation(w)) => assert_eq!(w, "upsert"),
        other => panic!("expected an invalid-operation error, got {:?}", other),
    }
}

#[test]
fn parse_insert_line() {
    let log = WalOperationLog::from_str("INSERT key value").unwrap();
    assert_eq!(log.operation, WalOperation::Insert);
    assert_eq!(log.key, "key");
    assert_eq!(log.value.as_deref(), Some("value"));
}

#[test]
fn parse_delete_line() {
    let log = WalOperationLog::from_str("delete key").unwrap();
    assert_eq!(log.operation, WalOperation::Delete);
    assert_eq!(log.key, "key");
    assert!(log.value.is_none());
}

#[test]
fn parse_missing_key() {
    assert!(matches!(
        WalOperationLog::from_str("INSERT"),
        Err(ParseWalError::MissingKey)
    ));
}

#[test]
fn parse_missing_value() {
    assert!(matches!(
        WalOperationLog::from_str("insert key"),
        Err(ParseWalError::MissingValue)
    ));
}

#[test]
fn parse_invalid_operation_line() {
    match WalOperationLog::from_str("Upsert key value") {
        Err(ParseWalError::InvalidOperation(w)) => assert_eq!(w, "upsert"),
        other => panic!("expected an invalid-operation error, got {:?}", other),
    }
}

#[test]
fn written_lines_parse_back() {
    let line = insert_line("k", "v");
    assert_eq!(line, "INSERT k v\n");
    let log = WalOperationLog::from_str(&line).unwrap();
    assert_eq!(log.operation, WalOperation::Insert);
    assert_eq!(log.key, "k");
    assert_eq!(log.value.as_deref(), Some("v"));

    let line = delete_line("k");
    assert_eq!(line, "DELETE k\n");
    let log = WalOperationLog::from_str(&line).unwrap();
    assert_eq!(log.operation, WalOperation::Delete);
    assert_eq!(log.key, "k");
    assert!(log.value.is_none());
}
