use mx_codec::codec::DecodeError;
use mx_codec::protocol::{
    encode_awareness_as_message, encode_update_as_message, read_awareness, read_doc_message, write_awareness,
    write_doc_message, AwarenessState, AwarenessStates, DocMessage,
};

#[test]
fn test_doc_message_encoding() {
    let mut buf = Vec::new();
    write_doc_message(&mut buf, &DocMessage::Step1(vec![1, 2]));
    assert_eq!(buf, vec![0, 2, 1, 2]);
    let mut buf = Vec::new();
    write_doc_message(&mut buf, &DocMessage::Step2(vec![]));
    assert_eq!(buf, vec![1, 0]);
    let mut buf = Vec::new();
    write_doc_message(&mut buf, &DocMessage::Update(vec![9]));
    assert_eq!(buf, vec![2, 1, 9]);
}

#[test]
fn test_doc_message_roundtrip() {
    for msg in [DocMessage::Step1(vec![1, 2, 3]), DocMessage::Step2(vec![4]), DocMessage::Update(vec![])] {
        let mut buf = Vec::new();
        write_doc_message(&mut buf, &msg);
        buf.push(42);
        let (tail, got) = read_doc_message(&buf).unwrap();
        assert_eq!(got, msg);
        assert_eq!(tail, &[42]);
    }
}

#[test]
fn test_doc_message_errors() {
    assert_eq!(read_doc_message(&[3, 0]), Err(DecodeError::UnknownTag));
    assert_eq!(read_doc_message(&[2, 4, 1]), Err(DecodeError::Eof));
    assert_eq!(read_doc_message(&[]), Err(DecodeError::Incomplete));
}

#[test]
fn test_awareness_state() {
    let mut s = AwarenessState::new(3, "{}".to_string());
    assert_eq!(s.clock(), 3);
    assert_eq!(s.content(), "{}");
    assert!(!s.is_deleted());
    s.set_content("{\"a\":1}".to_string());
    assert_eq!(s.clock(), 4);
    assert_eq!(s.content(), "{\"a\":1}");
    s.delete();
    assert_eq!(s.clock(), 5);
    assert!(s.is_deleted());
    let d = AwarenessState::default();
    assert_eq!(d.clock(), 0);
    assert!(d.is_deleted());
}

#[test]
fn test_awareness_single_encoding() {
    let mut states = AwarenessStates::new();
    states.insert(7, AwarenessState::new(2, "ab".to_string()));
    let mut buf = Vec::new();
    write_awareness(&mut buf, &states);
    assert_eq!(buf, vec![1, 7, 2, 2, b'a', b'b']);
}

#[test]
fn test_awareness_roundtrip() {
    let mut states = AwarenessStates::new();
    states.insert(1, AwarenessState::new(10, "x".to_string()));
    states.insert(300, AwarenessState::new(0, "null".to_string()));
    states.insert(u64::MAX, AwarenessState::new(5, "{\"name\":\"é\"}".to_string()));
    let mut buf = Vec::new();
    write_awareness(&mut buf, &states);
    buf.extend_from_slice(&[1, 2]);
    let (tail, got) = read_awareness(&buf).unwrap();
    assert_eq!(got, states);
    assert_eq!(tail, &[1, 2]);
}

#[test]
fn test_read_awareness_later_state_wins() {
    // two states for client 4: the second one is kept
    let bytes = [2, 4, 1, 1, b'a', 4, 2, 1, b'b'];
    let (tail, got) = read_awareness(&bytes).unwrap();
    assert!(tail.is_empty());
    assert_eq!(got.len(), 1);
    assert_eq!(got[&4].clock(), 2);
    assert_eq!(got[&4].content(), "b");
}

#[test]
fn test_read_awareness_errors() {
    assert_eq!(read_awareness(&[1, 4]), Err(DecodeError::Incomplete));
    assert_eq!(read_awareness(&[1, 4, 1, 3, b'a']), Err(DecodeError::Eof));
}

#[test]
fn test_encode_update_as_message() {
    assert_eq!(encode_update_as_message(vec![5, 6]), vec![0, 2, 2, 5, 6]);
}

#[test]
fn test_encode_awareness_as_message() {
    let mut states = AwarenessStates::new();
    states.insert(7, AwarenessState::new(2, "ab".to_string()));
    assert_eq!(encode_awareness_as_message(states), vec![1, 6, 1, 7, 2, 2, b'a', b'b']);
    assert_eq!(encode_awareness_as_message(AwarenessStates::new()), vec![1, 1, 0]);
}
