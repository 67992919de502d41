use chatroom::chatclient::ClientState;
use chatroom::message::Message;

fn fresh() -> ClientState {
    ClientState::new("alice".to_string())
}

#[test]
fn starts_outside_any_group() {
    let client = fresh();
    assert_eq!(client.username, "alice");
    assert_eq!(client.chat_name, "");
}

#[test]
fn private_message_names_the_leading_token() {
    let client = fresh();
    let m = client.send_private_message("@bob hello there".to_string());
    assert_eq!(
        m,
        Message::PrivateMessage(
            "alice".to_string(),
            "bob".to_string(),
            "@bob hello there".to_string()
        )
    );
}

#[test]
fn private_message_without_text_still_names_the_recipient() {
    let client = fresh();
    let m = client.send_private_message("@bob".to_string());
    assert_eq!(
        m,
        Message::PrivateMessage("alice".to_string(), "bob".to_string(), "@bob".to_string())
    );
}

#[test]
fn public_message_needs_a_group() {
    let mut client = fresh();
    assert!(client.send_public_message("hi".to_string()).is_none());
    client.handle_server_message(&Message::Joined("Chat1".to_string()));
    let m = client.send_public_message("hi".to_string()).unwrap();
    assert_eq!(
        m,
        Message::ChatMessage("alice".to_string(), "Chat1".to_string(), "hi".to_string())
    );
}

#[test]
fn member_listing_needs_a_group() {
    let mut client = fresh();
    assert!(client.request_clients().is_none());
    client.handle_server_message(&Message::Joined("Chat1".to_string()));
    assert_eq!(
        client.request_clients().unwrap(),
        Message::ListUsers("alice".to_string(), "Chat1".to_string())
    );
}

#[test]
fn group_listing_request() {
    let client = fresh();
    assert_eq!(
        client.request_groups(),
        Message::ListGroups("alice".to_string())
    );
}

#[test]
fn create_request() {
    let client = fresh();
    assert_eq!(
        client.create_chat("Room2".to_string()),
        Message::NewChat("alice".to_string(), "Room2".to_string())
    );
}

#[test]
fn joining_leaves_the_current_group_first() {
    let mut client = fresh();
    let only_join = client.join_chat("Chat1".to_string());
    assert_eq!(
        only_join,
        vec![Message::Login("alice".to_string(), "Chat1".to_string())]
    );
    client.handle_server_message(&Message::Joined("Chat1".to_string()));
    let leave_then_join = client.join_chat("Room2".to_string());
    assert_eq!(
        leave_then_join,
        vec![
            Message::Logout("alice".to_string(), "Chat1".to_string()),
            Message::Login("alice".to_string(), "Room2".to_string()),
        ]
    );
}

#[test]
fn leaving_needs_a_group() {
    let mut client = fresh();
    assert!(client.leave_chat().is_none());
    client.handle_server_message(&Message::Joined("Chat1".to_string()));
    assert_eq!(
        client.leave_chat().unwrap(),
        Message::Logout("alice".to_string(), "Chat1".to_string())
    );
}

#[test]
fn kick_request_names_the_current_group() {
    let mut client = fresh();
    client.handle_server_message(&Message::Joined("Chat1".to_string()));
    assert_eq!(
        client.kick("bob".to_string()),
        Message::KickUser("alice".to_string(), "Chat1".to_string(), "bob".to_string())
    );
}

#[test]
fn server_messages_drive_the_local_state() {
    let mut client = fresh();
    assert!(!client.handle_server_message(&Message::Joined("Chat1".to_string())));
    assert_eq!(client.chat_name, "Chat1");
    assert!(!client.handle_server_message(&Message::Logout("".to_string(), "".to_string())));
    assert_eq!(client.chat_name, "");
    assert!(!client.handle_server_message(&Message::Failure("oops".to_string())));
    assert!(client.handle_server_message(&Message::ConnectionTermination(
        "alice".to_string()
    )));
}
