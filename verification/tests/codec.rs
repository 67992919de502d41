use chatroom::message::{Message, ProtocolError};

fn round_trips(m: Message) {
    assert!(m.is_well_formed());
    let bytes = m.into_bytes();
    let back = Message::from_bytes(&bytes).unwrap();
    assert_eq!(back, m);
}

#[test]
fn round_trip_every_variant() {
    round_trips(Message::InitUser("alice".to_string()));
    round_trips(Message::Login("alice".to_string(), "Chat1".to_string()));
    round_trips(Message::Joined("Chat1".to_string()));
    round_trips(Message::Failure("No such chat".to_string()));
    round_trips(Message::ListGroups("alice".to_string()));
    round_trips(Message::ListUsers("alice".to_string(), "Chat1".to_string()));
    round_trips(Message::ChatMessage(
        "alice".to_string(),
        "Chat1".to_string(),
        "hello there".to_string(),
    ));
    round_trips(Message::PrivateMessage(
        "alice".to_string(),
        "bob".to_string(),
        "psst".to_string(),
    ));
    round_trips(Message::Logout("alice".to_string(), "Chat1".to_string()));
    round_trips(Message::NewChat("alice".to_string(), "Room2".to_string()));
    round_trips(Message::KickUser(
        "alice".to_string(),
        "Chat1".to_string(),
        "bob".to_string(),
    ));
    round_trips(Message::ConnectionTermination("alice".to_string()));
    round_trips(Message::TerminateProgram);
}

#[test]
fn round_trip_empty_fields() {
    round_trips(Message::Logout("".to_string(), "".to_string()));
    round_trips(Message::ChatMessage(
        "".to_string(),
        "".to_string(),
        "".to_string(),
    ));
    round_trips(Message::InitUser("".to_string()));
}

#[test]
fn round_trip_longest_field() {
    let long = "x".repeat(255);
    round_trips(Message::Failure(long.clone()));
    round_trips(Message::ChatMessage("a".repeat(255), long.clone(), "".to_string()));
}

#[test]
fn round_trip_multibyte_text() {
    round_trips(Message::ChatMessage(
        "ålice".to_string(),
        "Chät1".to_string(),
        "héllo \u{1F600}".to_string(),
    ));
}

#[test]
fn oversize_field_is_not_well_formed() {
    let too_long = "x".repeat(256);
    assert!(!Message::Failure(too_long).is_well_formed());
    let multibyte = "é".repeat(128);
    assert_eq!(multibyte.len(), 256);
    assert!(!Message::Failure(multibyte).is_well_formed());
}

#[test]
fn exact_frame_layout() {
    let bytes = Message::Login("ab".to_string(), "c".to_string()).into_bytes();
    assert_eq!(bytes, vec![0x01, 2, b'a', b'b', 1, b'c', b'\n']);
    let bytes = Message::TerminateProgram.into_bytes();
    assert_eq!(bytes, vec![0x0D, b'\n']);
    let bytes = Message::InitUser("hi".to_string()).into_bytes();
    assert_eq!(bytes, vec![0x00, 2, b'h', b'i', b'\n']);
}

#[test]
fn decode_empty_input() {
    assert_eq!(Message::from_bytes(&[]).unwrap_err(), ProtocolError::Empty);
}

#[test]
fn decode_unknown_tag() {
    assert_eq!(
        Message::from_bytes(&[0x0A, b'\n']).unwrap_err(),
        ProtocolError::UnknownTag
    );
    assert_eq!(
        Message::from_bytes(&[0xFF]).unwrap_err(),
        ProtocolError::UnknownTag
    );
    assert_eq!(
        Message::from_bytes(&[0x0E, 1, b'a', b'\n']).unwrap_err(),
        ProtocolError::UnknownTag
    );
}

#[test]
fn decode_truncated_field() {
    // Declared length runs past the end of the buffer.
    assert_eq!(
        Message::from_bytes(&[0x00, 5, b'a']).unwrap_err(),
        ProtocolError::Truncated
    );
    // Second field's length byte is missing entirely.
    assert_eq!(
        Message::from_bytes(&[0x01, 1, b'a']).unwrap_err(),
        ProtocolError::Truncated
    );
    // No length byte at all after the tag.
    assert_eq!(
        Message::from_bytes(&[0x06]).unwrap_err(),
        ProtocolError::Truncated
    );
}

#[test]
fn decode_invalid_utf8_field() {
    assert_eq!(
        Message::from_bytes(&[0x00, 1, 0xFF, b'\n']).unwrap_err(),
        ProtocolError::InvalidUtf8
    );
}

#[test]
fn decode_without_terminator() {
    // The newline is a read boundary, not part of the logical frame.
    let back = Message::from_bytes(&[0x02, 2, b'h', b'i']).unwrap();
    assert_eq!(back, Message::Joined("hi".to_string()));
}

#[test]
fn constructors_build_their_variants() {
    assert_eq!(
        Message::init_user("alice".to_string()),
        Message::InitUser("alice".to_string())
    );
    assert_eq!(
        Message::login("a".to_string(), "g".to_string()),
        Message::Login("a".to_string(), "g".to_string())
    );
    assert_eq!(
        Message::chat_message("a".to_string(), "g".to_string(), "t".to_string()),
        Message::ChatMessage("a".to_string(), "g".to_string(), "t".to_string())
    );
    assert_eq!(
        Message::private_message("a".to_string(), "b".to_string(), "t".to_string()),
        Message::PrivateMessage("a".to_string(), "b".to_string(), "t".to_string())
    );
    assert_eq!(
        Message::logout("a".to_string(), "g".to_string()),
        Message::Logout("a".to_string(), "g".to_string())
    );
    assert_eq!(
        Message::new_chat("a".to_string(), "g".to_string()),
        Message::NewChat("a".to_string(), "g".to_string())
    );
    assert_eq!(
        Message::kick_user("a".to_string(), "g".to_string(), "b".to_string()),
        Message::KickUser("a".to_string(), "g".to_string(), "b".to_string())
    );
    assert_eq!(
        Message::termination("a".to_string()),
        Message::ConnectionTermination("a".to_string())
    );
    assert_eq!(
        Message::failure("oops".to_string()),
        Message::Failure("oops".to_string())
    );
}
