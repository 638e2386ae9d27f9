use commitments::codec::{encode_record, parse_record};
use commitments::status::CommitmentStatus;
use commitments::table::Table;
use commitments::Salt;

const A: Salt = [0x00, 0x11, 0x22, 0x33, 0x44, 0x55, 0x66, 0x77];
const B: Salt = [0xde, 0xad, 0xbe, 0xef, 0x01, 0x23, 0x45, 0x67];

#[test]
fn encode_empty_record() {
    let record: Table<CommitmentStatus> = Table::new();
    assert_eq!(encode_record(&record), b"{}".to_vec());
}

#[test]
fn encode_one_entry_exactly() {
    let mut record: Table<CommitmentStatus> = Table::new();
    record.set(&A, CommitmentStatus::InProgress);
    assert_eq!(
        encode_record(&record),
        b"{\"0011223344556677\":\"InProgress\"}".to_vec()
    );
}

#[test]
fn encode_two_entries_exactly() {
    let mut record: Table<CommitmentStatus> = Table::new();
    record.set(&A, CommitmentStatus::Created);
    record.set(&B, CommitmentStatus::InProgress);
    assert_eq!(
        encode_record(&record),
        b"{\"0011223344556677\":\"Created\",\"deadbeef01234567\":\"InProgress\"}".to_vec()
    );
}

#[test]
fn parse_handwritten_record() {
    let bytes = b"{\"deadbeef01234567\":\"Created\"}".to_vec();
    let record = parse_record(&bytes).expect("well-formed record");
    assert_eq!(record.len(), 1);
    assert_eq!(record.get(&B), Some(CommitmentStatus::Created));
    assert_eq!(record.get(&A), None);
}

#[test]
fn record_round_trips() {
    let mut record: Table<CommitmentStatus> = Table::new();
    record.set(&A, CommitmentStatus::InProgress);
    record.set(&B, CommitmentStatus::Created);
    let bytes = encode_record(&record);
    let reread = parse_record(&bytes).expect("own write must parse");
    assert_eq!(reread.len(), 2);
    assert_eq!(reread.get(&A), Some(CommitmentStatus::InProgress));
    assert_eq!(reread.get(&B), Some(CommitmentStatus::Created));
}

#[test]
fn updated_record_round_trips() {
    let mut record: Table<CommitmentStatus> = Table::new();
    record.set(&A, CommitmentStatus::InProgress);
    record.set(&A, CommitmentStatus::Created);
    let bytes = encode_record(&record);
    let reread = parse_record(&bytes).expect("own write must parse");
    assert_eq!(reread.len(), 1);
    assert_eq!(reread.get(&A), Some(CommitmentStatus::Created));
}

#[test]
fn parse_rejects_malformed_input() {
    assert!(parse_record(&b"".to_vec()).is_none());
    assert!(parse_record(&b"{".to_vec()).is_none());
    assert!(parse_record(&b"[]".to_vec()).is_none());
    assert!(parse_record(&b"not a record".to_vec()).is_none());
    assert!(parse_record(&b"{\"0011\":\"Created\"}".to_vec()).is_none());
    assert!(parse_record(&b"{\"0011223344556677\":\"Done\"}".to_vec()).is_none());
    assert!(parse_record(&b"{\"0011223344556677\":\"Created\"".to_vec()).is_none());
    assert!(parse_record(&b"{\"0011223344556677\":\"Created\"} ".to_vec()).is_none());
}

#[test]
fn parse_rejects_whitespace() {
    // the reader is strict: it accepts only what the writer produces
    assert!(parse_record(&b"{ }".to_vec()).is_none());
    assert!(parse_record(&b"{ \"0011223344556677\": \"Created\" }".to_vec()).is_none());
}

#[test]
fn parse_rejects_uppercase_hex() {
    assert!(parse_record(&b"{\"DEADBEEF01234567\":\"Created\"}".to_vec()).is_none());
}

#[test]
fn parse_rejects_duplicate_salts() {
    let bytes =
        b"{\"0011223344556677\":\"Created\",\"0011223344556677\":\"InProgress\"}".to_vec();
    assert!(parse_record(&bytes).is_none());
}
