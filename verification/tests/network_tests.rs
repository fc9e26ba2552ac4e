use log_replication_system::log_entry::{Command, LogEntry};
use log_replication_system::network::{decode_frame_length, encode_frame, Client, ClientError, Message};

#[test]
fn frame_has_big_endian_length_prefix() {
    let payload: Vec<u8> = (0..300u32).map(|i| (i % 256) as u8).collect();
    let frame = encode_frame(&payload);
    assert_eq!(frame.len(), 304);
    assert_eq!(&frame[..4], &[0, 0, 1, 44]);
    assert_eq!(&frame[4..], &payload[..]);
    assert_eq!(decode_frame_length(&frame), 300);
}

#[test]
fn empty_frame() {
    let frame = encode_frame(&Vec::new());
    assert_eq!(frame, vec![0, 0, 0, 0]);
    assert_eq!(decode_frame_length(&frame), 0);
}

#[test]
fn decode_reads_all_four_bytes() {
    assert_eq!(decode_frame_length(&[0x12, 0x34, 0x56, 0x78, 0xff]), 0x1234_5678);
    assert_eq!(decode_frame_length(&[0xff, 0xff, 0xff, 0xff]), u32::MAX);
}

#[test]
fn append_outcome_reads_success() {
    let ok = Client::append_outcome(Message::ClientAppendResponse { success: true, leader_id: None });
    assert_eq!(ok, Ok(true));
    let refused = Client::append_outcome(Message::ClientAppendResponse {
        success: false,
        leader_id: Some("n1".to_string()),
    });
    assert_eq!(refused, Ok(false));
    let wrong = Client::append_outcome(Message::ClientQuery);
    assert_eq!(wrong, Err(ClientError::UnexpectedResponse));
}

#[test]
fn query_outcome_returns_entries() {
    let e = LogEntry::with_timestamp(1, 1, 5, Command::operation("a".to_string()));
    let r = Client::query_outcome(Message::ClientQueryResponse {
        entries: vec![e.clone()],
        leader_id: "n1".to_string(),
    });
    assert_eq!(r.unwrap(), vec![e]);
    let wrong = Client::query_outcome(Message::Heartbeat { term: 1, leader_id: "x".to_string() });
    assert_eq!(wrong.unwrap_err(), ClientError::UnexpectedResponse);
}

#[test]
fn duplicate_keeps_fields() {
    let m = Message::AppendEntries {
        term: 5,
        leader_id: "test-leader".to_string(),
        prev_log_index: 10,
        prev_log_term: 4,
        entries: vec![
            LogEntry::new(11, 5, Command::operation("test1".to_string())),
            LogEntry::new(12, 5, Command::operation("test2".to_string())),
        ],
        leader_commit: 10,
    };
    match m.duplicate() {
        Message::AppendEntries { term, leader_id, prev_log_index, prev_log_term, entries, leader_commit } => {
            assert_eq!(term, 5);
            assert_eq!(leader_id, "test-leader");
            assert_eq!(prev_log_index, 10);
            assert_eq!(prev_log_term, 4);
            assert_eq!(entries.len(), 2);
            assert_eq!(entries[0].id, 11);
            assert_eq!(entries[1].id, 12);
            assert_eq!(leader_commit, 10);
        },
        _ => panic!("Expected AppendEntries message"),
    }
}
