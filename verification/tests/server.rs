use chatroom::chatserver::{
    failure_message, handshake, send_chat_message_to_user, Outbound, ServerState,
};
use chatroom::message::Message;

/// A server with the given groups seeded empty and the given users
/// connected (their greeting replies are dropped).
fn server_with(groups: &[&str], users: &[&str]) -> ServerState {
    let mut state = ServerState::new();
    for g in groups {
        assert!(state.add_group(g.to_string()));
    }
    for u in users {
        let greetings = state.new_client(u.to_string());
        assert_eq!(greetings.len(), 2);
    }
    state
}

fn join(state: &mut ServerState, user: &str, group: &str) -> Vec<Outbound> {
    state.dispatch(Message::Login(user.to_string(), group.to_string()))
}

fn members_of(state: &ServerState, group: &str) -> Vec<String> {
    for g in &state.groups {
        if g.name == group {
            return g.members.clone();
        }
    }
    panic!("no group of that name");
}

#[test]
fn login_twice_is_already_in_chat() {
    let mut state = server_with(&["Chat1"], &["alice"]);
    let first = join(&mut state, "alice", "Chat1");
    assert_eq!(first.len(), 1);
    assert_eq!(first[0].to, "alice");
    assert_eq!(first[0].message, Message::Joined("Chat1".to_string()));
    let second = join(&mut state, "alice", "Chat1");
    assert_eq!(second.len(), 1);
    assert_eq!(second[0].to, "alice");
    assert_eq!(
        second[0].message,
        Message::Failure("Already in this chat".to_string())
    );
    assert_eq!(members_of(&state, "Chat1"), vec!["alice".to_string()]);
}

#[test]
fn login_unknown_group_fails() {
    let mut state = server_with(&["Chat1"], &["alice"]);
    let out = join(&mut state, "alice", "Nowhere");
    assert_eq!(out.len(), 1);
    assert_eq!(out[0].message, Message::Failure("No such chat".to_string()));
}

#[test]
fn broadcast_reaches_everyone_but_the_sender() {
    let mut state = server_with(&["Chat1"], &["alice", "bob", "carol"]);
    join(&mut state, "alice", "Chat1");
    join(&mut state, "bob", "Chat1");
    join(&mut state, "carol", "Chat1");
    let sent = Message::ChatMessage("alice".to_string(), "Chat1".to_string(), "hi".to_string());
    let out = state.dispatch(sent.clone());
    assert_eq!(out.len(), 2);
    assert_eq!(out[0].to, "bob");
    assert_eq!(out[0].message, sent);
    assert_eq!(out[1].to, "carol");
    assert_eq!(out[1].message, sent);
}

#[test]
fn broadcast_to_unknown_group_fails() {
    let mut state = server_with(&[], &["alice"]);
    let out = state.dispatch(Message::ChatMessage(
        "alice".to_string(),
        "Chat1".to_string(),
        "hi".to_string(),
    ));
    assert_eq!(out.len(), 1);
    assert_eq!(out[0].to, "alice");
    assert_eq!(out[0].message, Message::Failure("Must join a chat".to_string()));
}

#[test]
fn new_chat_moves_the_creator() {
    let mut state = server_with(&["Chat1"], &["alice", "bob"]);
    join(&mut state, "alice", "Chat1");
    join(&mut state, "bob", "Chat1");
    let out = state.dispatch(Message::NewChat("alice".to_string(), "Room2".to_string()));
    assert_eq!(members_of(&state, "Chat1"), vec!["bob".to_string()]);
    assert_eq!(members_of(&state, "Room2"), vec!["alice".to_string()]);
    assert_eq!(out.len(), 3);
    assert_eq!(out[0].to, "alice");
    assert_eq!(out[0].message, Message::Logout("".to_string(), "".to_string()));
    assert_eq!(out[1].to, "alice");
    assert_eq!(out[1].message, Message::Joined("Room2".to_string()));
    assert_eq!(out[2].to, "alice");
    assert_eq!(
        out[2].message,
        Message::ChatMessage(
            "Server".to_string(),
            "(SERVER)".to_string(),
            "Created new group and moved to it!".to_string()
        )
    );
}

#[test]
fn new_chat_taken_name_fails() {
    let mut state = server_with(&["Chat1"], &["alice"]);
    let out = state.dispatch(Message::NewChat("alice".to_string(), "Chat1".to_string()));
    assert_eq!(out.len(), 1);
    assert_eq!(
        out[0].message,
        Message::Failure("Chat already exists".to_string())
    );
}

#[test]
fn kick_by_non_admin_fails_and_changes_nothing() {
    let mut state = server_with(&["Chat1"], &["alice", "bob", "carol"]);
    join(&mut state, "alice", "Chat1");
    join(&mut state, "bob", "Chat1");
    join(&mut state, "carol", "Chat1");
    let out = state.dispatch(Message::KickUser(
        "bob".to_string(),
        "Chat1".to_string(),
        "carol".to_string(),
    ));
    assert_eq!(out.len(), 1);
    assert_eq!(out[0].to, "bob");
    assert_eq!(
        out[0].message,
        Message::Failure("Not admin in this chat".to_string())
    );
    assert_eq!(
        members_of(&state, "Chat1"),
        vec!["alice".to_string(), "bob".to_string(), "carol".to_string()]
    );
}

#[test]
fn kick_by_admin_removes_the_target() {
    let mut state = server_with(&["Chat1"], &["alice", "bob"]);
    join(&mut state, "alice", "Chat1");
    join(&mut state, "bob", "Chat1");
    let out = state.dispatch(Message::KickUser(
        "alice".to_string(),
        "Chat1".to_string(),
        "bob".to_string(),
    ));
    assert_eq!(members_of(&state, "Chat1"), vec!["alice".to_string()]);
    assert_eq!(out.len(), 2);
    assert_eq!(out[0].to, "bob");
    assert_eq!(out[0].message, Message::Logout("".to_string(), "".to_string()));
    assert_eq!(out[1].to, "bob");
    assert_eq!(
        out[1].message,
        Message::ChatMessage(
            "Server".to_string(),
            "(SERVER)".to_string(),
            "Kicked from chat!".to_string()
        )
    );
}

#[test]
fn kick_of_unconnected_target_fails() {
    let mut state = server_with(&["Chat1"], &["alice"]);
    join(&mut state, "alice", "Chat1");
    let out = state.dispatch(Message::KickUser(
        "alice".to_string(),
        "Chat1".to_string(),
        "ghost".to_string(),
    ));
    assert_eq!(out.len(), 1);
    assert_eq!(
        out[0].message,
        Message::Failure("No such user in this chat".to_string())
    );
}

#[test]
fn private_message_to_offline_user_fails() {
    let mut state = server_with(&["Chat1"], &["alice"]);
    let out = state.dispatch(Message::PrivateMessage(
        "alice".to_string(),
        "dave".to_string(),
        "hey".to_string(),
    ));
    assert_eq!(out.len(), 1);
    assert_eq!(out[0].to, "alice");
    assert_eq!(out[0].message, Message::Failure("No such user".to_string()));
}

#[test]
fn private_message_is_forwarded_verbatim() {
    let mut state = server_with(&[], &["alice", "dave"]);
    let sent = Message::PrivateMessage("alice".to_string(), "dave".to_string(), "hey".to_string());
    let out = state.dispatch(sent.clone());
    assert_eq!(out.len(), 1);
    assert_eq!(out[0].to, "dave");
    assert_eq!(out[0].message, sent);
}

#[test]
fn logout_leaves_the_group() {
    let mut state = server_with(&["Chat1"], &["alice", "bob"]);
    join(&mut state, "alice", "Chat1");
    join(&mut state, "bob", "Chat1");
    let out = state.dispatch(Message::Logout("alice".to_string(), "Chat1".to_string()));
    assert_eq!(members_of(&state, "Chat1"), vec!["bob".to_string()]);
    assert_eq!(out.len(), 1);
    assert_eq!(out[0].to, "alice");
    assert_eq!(
        out[0].message,
        Message::Logout("alice".to_string(), "Chat1".to_string())
    );
}

#[test]
fn termination_clears_every_registry() {
    let mut state = server_with(&["Chat1"], &["alice", "bob"]);
    join(&mut state, "alice", "Chat1");
    join(&mut state, "bob", "Chat1");
    let out = state.dispatch(Message::ConnectionTermination("alice".to_string()));
    assert_eq!(members_of(&state, "Chat1"), vec!["bob".to_string()]);
    assert_eq!(state.connections, vec!["bob".to_string()]);
    assert_eq!(out.len(), 1);
    assert_eq!(out[0].to, "alice");
    assert_eq!(
        out[0].message,
        Message::ConnectionTermination("alice".to_string())
    );
}

#[test]
fn group_listing_joins_names_newest_first() {
    let state = server_with(&["Chat1", "Room2"], &[]);
    assert_eq!(state.groups_list(), "Room2 | Chat1 | ");
    let empty = ServerState::new();
    assert_eq!(empty.groups_list(), "");
}

#[test]
fn member_listing_names_everyone() {
    let mut state = server_with(&["Chat1"], &["alice", "bob"]);
    join(&mut state, "alice", "Chat1");
    join(&mut state, "bob", "Chat1");
    assert_eq!(
        state.users_in_group("Chat1".to_string()).unwrap(),
        "Online:  alice, bob,"
    );
    assert!(state.users_in_group("Nowhere".to_string()).is_none());
}

#[test]
fn list_users_request_replies_with_the_listing() {
    let mut state = server_with(&["Chat1"], &["alice"]);
    join(&mut state, "alice", "Chat1");
    let out = state.dispatch(Message::ListUsers("alice".to_string(), "Chat1".to_string()));
    assert_eq!(out.len(), 1);
    assert_eq!(
        out[0].message,
        Message::ChatMessage(
            "Server".to_string(),
            "(SERVER)".to_string(),
            "Online:  alice,".to_string()
        )
    );
    let out = state.dispatch(Message::ListUsers("alice".to_string(), "Nowhere".to_string()));
    assert_eq!(out[0].message, Message::Failure("No such chat".to_string()));
}

#[test]
fn list_groups_request_replies_with_the_listing() {
    let mut state = server_with(&["Chat1"], &["alice"]);
    let out = state.dispatch(Message::ListGroups("alice".to_string()));
    assert_eq!(out.len(), 1);
    assert_eq!(out[0].to, "alice");
    assert_eq!(
        out[0].message,
        Message::ChatMessage(
            "Server".to_string(),
            "(SERVER)".to_string(),
            "Chat1 | ".to_string()
        )
    );
}

#[test]
fn greeting_on_new_client() {
    let mut state = server_with(&["Chat1"], &[]);
    let out = state.new_client("alice".to_string());
    assert_eq!(state.connections, vec!["alice".to_string()]);
    assert_eq!(out.len(), 2);
    assert_eq!(out[0].to, "alice");
    assert_eq!(
        out[0].message,
        Message::ChatMessage(
            "Server".to_string(),
            "(SERVER)".to_string(),
            "Following groups available, type /join [GROUP] to join".to_string()
        )
    );
    assert_eq!(
        out[1].message,
        Message::ChatMessage(
            "Server".to_string(),
            "(SERVER)".to_string(),
            "Chat1 | ".to_string()
        )
    );
}

#[test]
fn ignored_variants_do_nothing() {
    let mut state = server_with(&["Chat1"], &["alice"]);
    assert!(state.dispatch(Message::Joined("Chat1".to_string())).is_empty());
    assert!(state.dispatch(Message::Failure("x".to_string())).is_empty());
    assert!(state.dispatch(Message::InitUser("bob".to_string())).is_empty());
    assert!(state.dispatch(Message::TerminateProgram).is_empty());
}

#[test]
fn handshake_accepts_only_identify() {
    assert_eq!(
        handshake(Message::InitUser("alice".to_string())),
        Some("alice".to_string())
    );
    assert_eq!(handshake(Message::InitUser("Server".to_string())), None);
    assert_eq!(
        handshake(Message::Login("alice".to_string(), "Chat1".to_string())),
        None
    );
}

#[test]
fn reply_builders_address_the_user() {
    let out = failure_message("alice".to_string(), "oops".to_string());
    assert_eq!(out.to, "alice");
    assert_eq!(out.message, Message::Failure("oops".to_string()));
    let out = send_chat_message_to_user("bob".to_string(), "welcome".to_string());
    assert_eq!(out.to, "bob");
    assert_eq!(
        out.message,
        Message::ChatMessage(
            "Server".to_string(),
            "(SERVER)".to_string(),
            "welcome".to_string()
        )
    );
}

#[test]
fn creator_of_a_fresh_group_is_its_admin() {
    let mut state = server_with(&["Chat1"], &["alice", "bob"]);
    join(&mut state, "bob", "Chat1");
    state.dispatch(Message::NewChat("alice".to_string(), "Room2".to_string()));
    join(&mut state, "bob", "Room2");
    // The creator, member at index 0, may kick.
    let out = state.dispatch(Message::KickUser(
        "alice".to_string(),
        "Room2".to_string(),
        "bob".to_string(),
    ));
    assert_eq!(out[0].message, Message::Logout("".to_string(), "".to_string()));
    assert_eq!(members_of(&state, "Room2"), vec!["alice".to_string()]);
    // A later joiner may not.
    join(&mut state, "bob", "Room2");
    let out = state.dispatch(Message::KickUser(
        "bob".to_string(),
        "Room2".to_string(),
        "alice".to_string(),
    ));
    assert_eq!(
        out[0].message,
        Message::Failure("Not admin in this chat".to_string())
    );
    assert_eq!(
        members_of(&state, "Room2"),
        vec!["alice".to_string(), "bob".to_string()]
    );
}
