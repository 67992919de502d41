//! The client side: the controller state behind one connection to the
//! server, turning user commands into outbound messages and inbound
//! server messages into local state changes.
//!
//! The surrounding process owns the socket; it writes the messages these
//! methods hand back and feeds every decoded server message to
//! `handle_server_message`.
use vstd::prelude::*;

verus! {

use crate::message::{Message, MessageView};
use vstd::string::StrSliceExecFns;

/// The client controller: who we are, and which group we are in (an
/// empty name means none).
pub struct ClientState {
    pub username: String,
    pub chat_name: String,
}

/// The index just past the leading token: the first position at or after
/// `i` that is the end of the text or a space.
pub open spec fn token_end(s: Seq<char>, i: int) -> int
    recommends
        0 <= i <= s.len(),
    decreases s.len() - i,
{
    if i < 0 || i >= s.len() || s[i] == ' ' {
        i
    } else {
        token_end(s, i + 1)
    }
}

/// The recipient named by a private-message text: the leading token with
/// its addressing marker stripped.
pub open spec fn private_target(s: Seq<char>) -> Seq<char> {
    s.subrange(1, token_end(s, 1))
}

/// A closed scan is the token's end: nothing before `b` is a space, and
/// `b` is the end of the text or a space.
proof fn lemma_token_end(s: Seq<char>, a: int, b: int)
    requires
        0 <= a <= b <= s.len(),
        forall|j: int| a <= j < b ==> s[j] != ' ',
        b == s.len() || s[b] == ' ',
    ensures
        token_end(s, a) == b,
    decreases b - a,
{
    if a < b {
        lemma_token_end(s, a + 1, b);
    }
}

impl ClientState {
    /// A fresh controller for this user, in no group yet. The username
    /// must be non-empty and must not claim the reserved server name.
    pub fn new(username: String) -> (r: ClientState)
        requires
            username@.len() > 0,
            username@ != "Server"@,
        ensures
            r.username@ == username@,
            r.chat_name@.len() == 0,
    {
        proof {
            reveal_strlit("");
        }
        ClientState { username, chat_name: "".to_owned() }
    }

    /// Turn an addressed input line into a private message: the
    /// recipient is the leading token without its marker, the contents
    /// travel whole.
    pub fn send_private_message(&self, contents: String) -> (r: Message)
        requires
            contents@.len() >= 1,
            contents@[0] == '@',
        ensures
            r@ == MessageView::PrivateMessage(
                self.username@,
                private_target(contents@),
                contents@,
            ),
    {
        let text = contents.as_str();
        let n = text.unicode_len();
        let mut i: usize = 1;
        while i < n && !(text.get_char(i) == ' ')
            invariant
                1 <= i <= n,
                n == contents@.len(),
                text@ == contents@,
                forall|j: int| 1 <= j < i ==> contents@[j] != ' ',
            decreases n - i,
        {
            i += 1;
        }
        proof {
            lemma_token_end(contents@, 1, i as int);
        }
        let target = text.substring_char(1, i).to_owned();
        Message::private_message(self.username.clone(), target, contents)
    }

    /// Turn a plain input line into a broadcast to the current group, or
    /// nothing when no group is held.
    pub fn send_public_message(&self, contents: String) -> (r: Option<Message>)
        ensures
            match r {
                Some(m) => self.chat_name@.len() > 0 && m@ == MessageView::ChatMessage(
                    self.username@,
                    self.chat_name@,
                    contents@,
                ),
                None => self.chat_name@.len() == 0,
            },
    {
        if self.chat_name.as_str().is_empty() {
            return None;
        }
        Some(Message::chat_message(self.username.clone(), self.chat_name.clone(), contents))
    }

    /// The request for the group listing.
    pub fn request_groups(&self) -> (r: Message)
        ensures
            r@ == MessageView::ListGroups(self.username@),
    {
        Message::ListGroups(self.username.clone())
    }

    /// The request for the current group's member listing, or nothing
    /// when no group is held.
    pub fn request_clients(&self) -> (r: Option<Message>)
        ensures
            match r {
                Some(m) => self.chat_name@.len() > 0 && m@ == MessageView::ListUsers(
                    self.username@,
                    self.chat_name@,
                ),
                None => self.chat_name@.len() == 0,
            },
    {
        if self.chat_name.as_str().is_empty() {
            return None;
        }
        Some(Message::ListUsers(self.username.clone(), self.chat_name.clone()))
    }

    /// The request to create a group.
    pub fn create_chat(&self, chat_name: String) -> (r: Message)
        ensures
            r@ == MessageView::NewChat(self.username@, chat_name@),
    {
        Message::NewChat(self.username.clone(), chat_name)
    }

    /// The requests to join a group: a leave of the current group first
    /// when one is held, then the join itself.
    pub fn join_chat(&self, chat_name: String) -> (r: Vec<Message>)
        ensures
            self.chat_name@.len() > 0 ==> r.deep_view() == seq![
                MessageView::Logout(self.username@, self.chat_name@),
                MessageView::Login(self.username@, chat_name@),
            ],
            self.chat_name@.len() == 0 ==> r.deep_view() == seq![
                MessageView::Login(self.username@, chat_name@),
            ],
    {
        let mut requests: Vec<Message> = Vec::new();
        if !self.chat_name.as_str().is_empty() {
            requests.push(Message::logout(self.username.clone(), self.chat_name.clone()));
            requests.push(Message::login(self.username.clone(), chat_name));
            proof {
                assert(requests.deep_view() =~= seq![
                    MessageView::Logout(self.username@, self.chat_name@),
                    MessageView::Login(self.username@, chat_name@),
                ]);
            }
        } else {
            requests.push(Message::login(self.username.clone(), chat_name));
            proof {
                assert(requests.deep_view() =~= seq![
                    MessageView::Login(self.username@, chat_name@),
                ]);
            }
        }
        requests
    }

    /// The request to leave the current group, or nothing when no group
    /// is held.
    pub fn leave_chat(&self) -> (r: Option<Message>)
        ensures
            match r {
                Some(m) => self.chat_name@.len() > 0 && m@ == MessageView::Logout(
                    self.username@,
                    self.chat_name@,
                ),
                None => self.chat_name@.len() == 0,
            },
    {
        if self.chat_name.as_str().is_empty() {
            return None;
        }
        Some(Message::logout(self.username.clone(), self.chat_name.clone()))
    }

    /// The request to kick a user from the current group.
    pub fn kick(&self, target: String) -> (r: Message)
        ensures
            r@ == MessageView::KickUser(self.username@, self.chat_name@, target@),
    {
        Message::kick_user(self.username.clone(), self.chat_name.clone(), target)
    }

    /// Apply one server message to the local state: a join
    /// acknowledgement sets the current group, a logout clears it, a
    /// termination notice ends the session (the result says so); all
    /// else leaves the state alone.
    pub fn handle_server_message(&mut self, message: &Message) -> (quit: bool)
        ensures
            final(self).username == old(self).username,
            match message@ {
                MessageView::Joined(c) => final(self).chat_name@ == c && !quit,
                MessageView::Logout(_, _) => final(self).chat_name@.len() == 0 && !quit,
                MessageView::ConnectionTermination(_) => final(self).chat_name == old(
                    self,
                ).chat_name && quit,
                _ => final(self).chat_name == old(self).chat_name && !quit,
            },
    {
        match message {
            Message::Joined(c) => {
                self.chat_name = c.clone();
                false
            },
            Message::Logout(_, _) => {
                proof {
                    reveal_strlit("");
                }
                self.chat_name = "".to_owned();
                false
            },
            Message::ConnectionTermination(_) => true,
            _ => false,
        }
    }
}

} // verus!
