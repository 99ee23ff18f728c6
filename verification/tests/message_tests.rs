use seglog::message::Message;

#[test]
fn message_new_message() {
    let message = Message::new(1, 3, &[0, 1, 2, 3]);
    assert_eq!(message.offset, 1);
    assert_eq!(message.position, 3);
    assert_eq!(message.payload, vec![0, 1, 2, 3]);
}

#[test]
fn commitlog_new_message() {
    let message = Message::new(1, 3, &[0, 1, 2, 3]);
    assert_eq!(message.offset, 1);
    assert_eq!(message.position, 3);
    assert_eq!(message.payload, vec![0, 1, 2, 3]);
}

#[test]
fn message_message_from_vec() {
    let mut raw = vec![0u8, 0, 0, 0, 0, 0, 0, 1, 0, 0, 0, 3, 0, 1, 2, 3];
    let message = Message::from_vec(&mut raw);
    assert_eq!(message.offset, 1);
    assert_eq!(message.position, 3);
    assert_eq!(message.payload, vec![0, 1, 2, 3]);
}

#[test]
fn commitlog_message_from_vec() {
    let mut raw = vec![0u8, 0, 0, 0, 0, 0, 0, 1, 0, 0, 0, 3, 0, 1, 2, 3];
    let message = Message::from_vec(&mut raw);
    assert_eq!(message.offset, 1);
    assert_eq!(message.position, 3);
    assert_eq!(message.payload, vec![0, 1, 2, 3]);
}

#[test]
fn message_message_to_vec() {
    let message = Message::new(1, 3, &[0, 1, 2, 3]);
    let res = message.to_vec().unwrap();

    assert_eq!(res, vec![0, 0, 0, 0, 0, 0, 0, 1, 0, 0, 0, 3, 0, 1, 2, 3]);
}

#[test]
fn commitlog_message_to_vec() {
    let message = Message::new(1, 3, &[0, 1, 2, 3]);
    let res = message.to_vec().unwrap();

    assert_eq!(res, vec![0, 0, 0, 0, 0, 0, 0, 1, 0, 0, 0, 3, 0, 1, 2, 3]);
}

#[test]
fn message_size_counts_header_and_payload() {
    let message = Message::new(1, 3, &[0, 1, 2, 3]);
    assert_eq!(message.size(), 16);
    let empty = Message::new(0, 0, &[]);
    assert_eq!(empty.size(), 12);
}

#[test]
fn message_frame_round_trip() {
    let message = Message::new(7, 700, &[9, 8, 7, 6, 5]);
    let mut framed = message.to_vec().unwrap();
    let back = Message::from_vec(&mut framed);
    assert_eq!(back.offset, 7);
    assert_eq!(back.position, 700);
    assert_eq!(back.payload, vec![9, 8, 7, 6, 5]);
    assert_eq!(framed, vec![9, 8, 7, 6, 5]);
}
