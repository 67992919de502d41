//! The wire protocol: the `Message` sum type, and the codec between a
//! message and its byte frame.
//!
//! Frame layout: `[tag][len1][field1]...[lenN][fieldN][b'\n']`, one byte of
//! tag, one unsigned length byte per field (so a field is at most 255 bytes
//! of UTF-8), and a terminating newline that is a read boundary on the wire,
//! not part of the logical format.
use vstd::prelude::*;

verus! {

use vstd::utf8::{decode_utf8, encode_utf8, valid_utf8};

broadcast use vstd::utf8::group_utf8_lib;

/// One protocol operation, as carried on the wire. Every variant holds
/// 0 to 3 UTF-8 string fields; the tag byte determines the variant and
/// with it the field arity.
#[derive(Clone, Debug)]
pub enum Message {
    InitUser(String),
    Login(String, String),
    Joined(String),
    Failure(String),
    ListGroups(String),
    ListUsers(String, String),
    ChatMessage(String, String, String),
    PrivateMessage(String, String, String),
    Logout(String, String),
    NewChat(String, String),
    KickUser(String, String, String),
    ConnectionTermination(String),
    TerminateProgram,
}

/// The mathematical value of a `Message`: the same variants over
/// character sequences.
pub enum MessageView {
    InitUser(Seq<char>),
    Login(Seq<char>, Seq<char>),
    Joined(Seq<char>),
    Failure(Seq<char>),
    ListGroups(Seq<char>),
    ListUsers(Seq<char>, Seq<char>),
    ChatMessage(Seq<char>, Seq<char>, Seq<char>),
    PrivateMessage(Seq<char>, Seq<char>, Seq<char>),
    Logout(Seq<char>, Seq<char>),
    NewChat(Seq<char>, Seq<char>),
    KickUser(Seq<char>, Seq<char>, Seq<char>),
    ConnectionTermination(Seq<char>),
    TerminateProgram,
}

impl View for Message {
    type V = MessageView;

    open spec fn view(&self) -> MessageView {
        match self {
            Message::InitUser(a) => MessageView::InitUser(a@),
            Message::Login(a, b) => MessageView::Login(a@, b@),
            Message::Joined(a) => MessageView::Joined(a@),
            Message::Failure(a) => MessageView::Failure(a@),
            Message::ListGroups(a) => MessageView::ListGroups(a@),
            Message::ListUsers(a, b) => MessageView::ListUsers(a@, b@),
            Message::ChatMessage(a, b, c) => MessageView::ChatMessage(a@, b@, c@),
            Message::PrivateMessage(a, b, c) => MessageView::PrivateMessage(a@, b@, c@),
            Message::Logout(a, b) => MessageView::Logout(a@, b@),
            Message::NewChat(a, b) => MessageView::NewChat(a@, b@),
            Message::KickUser(a, b, c) => MessageView::KickUser(a@, b@, c@),
            Message::ConnectionTermination(a) => MessageView::ConnectionTermination(a@),
            Message::TerminateProgram => MessageView::TerminateProgram,
        }
    }
}

impl DeepView for Message {
    type V = MessageView;

    open spec fn deep_view(&self) -> MessageView {
        self.view()
    }
}

/// Why a byte frame failed to decode.
#[derive(Clone, Copy, Debug, PartialEq, Eq, Structural)]
pub enum ProtocolError {
    /// The input held no bytes at all.
    Empty,
    /// The tag byte is outside the known set.
    UnknownTag,
    /// A declared field length (or a missing length byte) runs past the
    /// end of the buffer.
    Truncated,
    /// A field's bytes are not valid UTF-8.
    InvalidUtf8,
}

impl PartialEq for Message {
    /// Two messages are equal when they are the same variant with equal
    /// fields.
    #[verifier::rlimit(50)]
    fn eq(&self, other: &Self) -> (r: bool) {
        match (self, other) {
            (Message::InitUser(a), Message::InitUser(x)) => *a == *x,
            (Message::Login(a, b), Message::Login(x, y)) => *a == *x && *b == *y,
            (Message::Joined(a), Message::Joined(x)) => *a == *x,
            (Message::Failure(a), Message::Failure(x)) => *a == *x,
            (Message::ListGroups(a), Message::ListGroups(x)) => *a == *x,
            (Message::ListUsers(a, b), Message::ListUsers(x, y)) => *a == *x && *b == *y,
            (Message::ChatMessage(a, b, c), Message::ChatMessage(x, y, z)) => *a == *x && *b == *y
                && *c == *z,
            (Message::PrivateMessage(a, b, c), Message::PrivateMessage(x, y, z)) => *a == *x && *b
                == *y && *c == *z,
            (Message::Logout(a, b), Message::Logout(x, y)) => *a == *x && *b == *y,
            (Message::NewChat(a, b), Message::NewChat(x, y)) => *a == *x && *b == *y,
            (Message::KickUser(a, b, c), Message::KickUser(x, y, z)) => *a == *x && *b == *y && *c
                == *z,
            (Message::ConnectionTermination(a), Message::ConnectionTermination(x)) => *a == *x,
            (Message::TerminateProgram, Message::TerminateProgram) => true,
            _ => false,
        }
    }
}

impl vstd::std_specs::cmp::PartialEqSpecImpl for Message {
    open spec fn obeys_eq_spec() -> bool {
        true
    }

    open spec fn eq_spec(&self, other: &Self) -> bool {
        self@ == other@
    }
}

/// Tag byte of each variant. `0x0A` is deliberately unassigned: it is the
/// newline that terminates a frame on the wire.
pub const TAG_INIT_USER: u8 = 0x00;

pub const TAG_LOGIN: u8 = 0x01;

pub const TAG_JOINED: u8 = 0x02;

pub const TAG_FAILURE: u8 = 0x03;

pub const TAG_LIST_GROUPS: u8 = 0x04;

pub const TAG_LIST_USERS: u8 = 0x05;

pub const TAG_CHAT_MESSAGE: u8 = 0x06;

pub const TAG_PRIVATE_MESSAGE: u8 = 0x07;

pub const TAG_LOGOUT: u8 = 0x08;

pub const TAG_NEW_CHAT: u8 = 0x09;

pub const TAG_KICK_USER: u8 = 0x0B;

pub const TAG_CONNECTION_TERMINATION: u8 = 0x0C;

pub const TAG_TERMINATE_PROGRAM: u8 = 0x0D;

/// The newline byte that closes every frame.
pub const FRAME_END: u8 = 0x0A;

/// A single field can carry at most this many bytes of UTF-8, because its
/// length is declared in one unsigned byte.
pub const MAX_FIELD_BYTES: usize = 255;

/// A field fits the wire format when its UTF-8 encoding is at most 255
/// bytes long.
pub open spec fn field_wf(s: Seq<char>) -> bool {
    encode_utf8(s).len() <= MAX_FIELD_BYTES
}

/// A message is well formed when every field fits the wire format.
/// Only well-formed messages can be encoded; silently truncating a field
/// would corrupt the frame.
pub open spec fn msg_wf(m: MessageView) -> bool {
    match m {
        MessageView::InitUser(a) => field_wf(a),
        MessageView::Login(a, b) => field_wf(a) && field_wf(b),
        MessageView::Joined(a) => field_wf(a),
        MessageView::Failure(a) => field_wf(a),
        MessageView::ListGroups(a) => field_wf(a),
        MessageView::ListUsers(a, b) => field_wf(a) && field_wf(b),
        MessageView::ChatMessage(a, b, c) => field_wf(a) && field_wf(b) && field_wf(c),
        MessageView::PrivateMessage(a, b, c) => field_wf(a) && field_wf(b) && field_wf(c),
        MessageView::Logout(a, b) => field_wf(a) && field_wf(b),
        MessageView::NewChat(a, b) => field_wf(a) && field_wf(b),
        MessageView::KickUser(a, b, c) => field_wf(a) && field_wf(b) && field_wf(c),
        MessageView::ConnectionTermination(a) => field_wf(a),
        MessageView::TerminateProgram => true,
    }
}

/// The wire form of one field: its UTF-8 byte length in one byte, then
/// its UTF-8 bytes.
pub open spec fn spec_field(s: Seq<char>) -> Seq<u8> {
    seq![encode_utf8(s).len() as u8] + encode_utf8(s)
}

/// The frame of a message without the terminating newline: the tag byte,
/// then each field in wire form.
pub open spec fn spec_frame(m: MessageView) -> Seq<u8> {
    match m {
        MessageView::InitUser(a) => seq![TAG_INIT_USER] + spec_field(a),
        MessageView::Login(a, b) => seq![TAG_LOGIN] + spec_field(a) + spec_field(b),
        MessageView::Joined(a) => seq![TAG_JOINED] + spec_field(a),
        MessageView::Failure(a) => seq![TAG_FAILURE] + spec_field(a),
        MessageView::ListGroups(a) => seq![TAG_LIST_GROUPS] + spec_field(a),
        MessageView::ListUsers(a, b) => seq![TAG_LIST_USERS] + spec_field(a) + spec_field(b),
        MessageView::ChatMessage(a, b, c) => seq![TAG_CHAT_MESSAGE] + spec_field(a) + spec_field(b)
            + spec_field(c),
        MessageView::PrivateMessage(a, b, c) => seq![TAG_PRIVATE_MESSAGE] + spec_field(a)
            + spec_field(b) + spec_field(c),
        MessageView::Logout(a, b) => seq![TAG_LOGOUT] + spec_field(a) + spec_field(b),
        MessageView::NewChat(a, b) => seq![TAG_NEW_CHAT] + spec_field(a) + spec_field(b),
        MessageView::KickUser(a, b, c) => seq![TAG_KICK_USER] + spec_field(a) + spec_field(b)
            + spec_field(c),
        MessageView::ConnectionTermination(a) => seq![TAG_CONNECTION_TERMINATION] + spec_field(a),
        MessageView::TerminateProgram => seq![TAG_TERMINATE_PROGRAM],
    }
}

/// The full wire form of a message: its frame closed by the newline byte.
pub open spec fn spec_encode(m: MessageView) -> Seq<u8> {
    spec_frame(m).push(FRAME_END)
}

impl Message {
    /// Build the handshake message that identifies a user. The name
    /// "Server" is reserved for server-authored traffic and may not be
    /// claimed.
    pub fn init_user(username: String) -> (r: Message)
        requires
            username@ != "Server"@,
        ensures
            r@ == MessageView::InitUser(username@),
    {
        Message::InitUser(username)
    }

    /// Build a request to join a group.
    pub fn login(username: String, chat_name: String) -> (r: Message)
        ensures
            r@ == MessageView::Login(username@, chat_name@),
    {
        Message::Login(username, chat_name)
    }

    /// Build a broadcast message to a group.
    pub fn chat_message(username: String, chat_name: String, contents: String) -> (r: Message)
        ensures
            r@ == MessageView::ChatMessage(username@, chat_name@, contents@),
    {
        Message::ChatMessage(username, chat_name, contents)
    }

    /// Build a direct message to one user.
    pub fn private_message(from_user: String, to_user: String, contents: String) -> (r: Message)
        ensures
            r@ == MessageView::PrivateMessage(from_user@, to_user@, contents@),
    {
        Message::PrivateMessage(from_user, to_user, contents)
    }

    /// Build a request to leave a group.
    pub fn logout(username: String, chat_name: String) -> (r: Message)
        ensures
            r@ == MessageView::Logout(username@, chat_name@),
    {
        Message::Logout(username, chat_name)
    }

    /// Build a request to create a group.
    pub fn new_chat(username: String, chat_name: String) -> (r: Message)
        ensures
            r@ == MessageView::NewChat(username@, chat_name@),
    {
        Message::NewChat(username, chat_name)
    }

    /// Build a request to remove a user from a group.
    pub fn kick_user(from_user: String, chat_name: String, target_user: String) -> (r: Message)
        ensures
            r@ == MessageView::KickUser(from_user@, chat_name@, target_user@),
    {
        Message::KickUser(from_user, chat_name, target_user)
    }

    /// Build the notice that a user's connection is gone.
    pub fn termination(username: String) -> (r: Message)
        ensures
            r@ == MessageView::ConnectionTermination(username@),
    {
        Message::ConnectionTermination(username)
    }

    /// Build an error reply.
    pub fn failure(contents: String) -> (r: Message)
        ensures
            r@ == MessageView::Failure(contents@),
    {
        Message::Failure(contents)
    }

    /// Whether every field of this message fits the wire format.
    pub fn is_well_formed(&self) -> (r: bool)
        ensures
            r == msg_wf(self@),
    {
        match self {
            Message::InitUser(a) => field_fits(a),
            Message::Login(a, b) => field_fits(a) && field_fits(b),
            Message::Joined(a) => field_fits(a),
            Message::Failure(a) => field_fits(a),
            Message::ListGroups(a) => field_fits(a),
            Message::ListUsers(a, b) => field_fits(a) && field_fits(b),
            Message::ChatMessage(a, b, c) => field_fits(a) && field_fits(b) && field_fits(c),
            Message::PrivateMessage(a, b, c) => field_fits(a) && field_fits(b) && field_fits(c),
            Message::Logout(a, b) => field_fits(a) && field_fits(b),
            Message::NewChat(a, b) => field_fits(a) && field_fits(b),
            Message::KickUser(a, b, c) => field_fits(a) && field_fits(b) && field_fits(c),
            Message::ConnectionTermination(a) => field_fits(a),
            Message::TerminateProgram => true,
        }
    }

    /// Encode this message as one wire frame, newline terminator included.
    pub fn into_bytes(&self) -> (r: Vec<u8>)
        requires
            msg_wf(self@),
        ensures
            r@ == spec_encode(self@),
    {
        let mut buffer: Vec<u8> = Vec::new();
        match self {
            Message::InitUser(a) => {
                buffer.push(TAG_INIT_USER);
                push_field(&mut buffer, a);
            },
            Message::Login(a, b) => {
                buffer.push(TAG_LOGIN);
                push_field(&mut buffer, a);
                push_field(&mut buffer, b);
            },
            Message::Joined(a) => {
                buffer.push(TAG_JOINED);
                push_field(&mut buffer, a);
            },
            Message::Failure(a) => {
                buffer.push(TAG_FAILURE);
                push_field(&mut buffer, a);
            },
            Message::ListGroups(a) => {
                buffer.push(TAG_LIST_GROUPS);
                push_field(&mut buffer, a);
            },
            Message::ListUsers(a, b) => {
                buffer.push(TAG_LIST_USERS);
                push_field(&mut buffer, a);
                push_field(&mut buffer, b);
            },
            Message::ChatMessage(a, b, c) => {
                buffer.push(TAG_CHAT_MESSAGE);
                push_field(&mut buffer, a);
                push_field(&mut buffer, b);
                push_field(&mut buffer, c);
            },
            Message::PrivateMessage(a, b, c) => {
                buffer.push(TAG_PRIVATE_MESSAGE);
                push_field(&mut buffer, a);
                push_field(&mut buffer, b);
                push_field(&mut buffer, c);
            },
            Message::Logout(a, b) => {
                buffer.push(TAG_LOGOUT);
                push_field(&mut buffer, a);
                push_field(&mut buffer, b);
            },
            Message::NewChat(a, b) => {
                buffer.push(TAG_NEW_CHAT);
                push_field(&mut buffer, a);
                push_field(&mut buffer, b);
            },
            Message::KickUser(a, b, c) => {
                buffer.push(TAG_KICK_USER);
                push_field(&mut buffer, a);
                push_field(&mut buffer, b);
                push_field(&mut buffer, c);
            },
            Message::ConnectionTermination(a) => {
                buffer.push(TAG_CONNECTION_TERMINATION);
                push_field(&mut buffer, a);
            },
            Message::TerminateProgram => {
                buffer.push(TAG_TERMINATE_PROGRAM);
            },
        }
        buffer.push(FRAME_END);
        proof {
            assert(buffer@ =~= spec_encode(self@));
        }
        buffer
    }
}

/// How many fields a tag's variant carries, or -1 for a tag outside the
/// known set.
pub open spec fn tag_arity(tag: u8) -> int {
    if tag == TAG_TERMINATE_PROGRAM {
        0
    } else if tag == TAG_INIT_USER || tag == TAG_JOINED || tag == TAG_FAILURE || tag
        == TAG_LIST_GROUPS || tag == TAG_CONNECTION_TERMINATION {
        1
    } else if tag == TAG_LOGIN || tag == TAG_LIST_USERS || tag == TAG_LOGOUT || tag
        == TAG_NEW_CHAT {
        2
    } else if tag == TAG_CHAT_MESSAGE || tag == TAG_PRIVATE_MESSAGE || tag == TAG_KICK_USER {
        3
    } else {
        -1
    }
}

/// Read one length-prefixed field starting at `pos`: its bytes and the
/// position just past it, or nothing when the length byte is missing or
/// the declared length runs past the end of the buffer.
pub open spec fn spec_parse_field(bytes: Seq<u8>, pos: int) -> Option<(Seq<u8>, int)> {
    if pos >= bytes.len() {
        None
    } else {
        let n = bytes[pos] as int;
        if pos + 1 + n > bytes.len() {
            None
        } else {
            Some((bytes.subrange(pos + 1, pos + 1 + n), pos + 1 + n))
        }
    }
}

/// Read `count` length-prefixed fields starting at `pos`, or nothing when
/// any of them is truncated.
pub open spec fn spec_parse_fields(bytes: Seq<u8>, pos: int, count: int) -> Option<Seq<Seq<u8>>>
    decreases count,
{
    if count <= 0 {
        Some(Seq::empty())
    } else {
        match spec_parse_field(bytes, pos) {
            None => None,
            Some((field, next)) => match spec_parse_fields(bytes, next, count - 1) {
                None => None,
                Some(rest) => Some(seq![field] + rest),
            },
        }
    }
}

/// Build the message of a known tag from its decoded fields. Meaningful
/// only when `fields` has the tag's arity.
pub open spec fn spec_assemble(tag: u8, fields: Seq<Seq<char>>) -> MessageView {
    if tag == TAG_INIT_USER {
        MessageView::InitUser(fields[0])
    } else if tag == TAG_LOGIN {
        MessageView::Login(fields[0], fields[1])
    } else if tag == TAG_JOINED {
        MessageView::Joined(fields[0])
    } else if tag == TAG_FAILURE {
        MessageView::Failure(fields[0])
    } else if tag == TAG_LIST_GROUPS {
        MessageView::ListGroups(fields[0])
    } else if tag == TAG_LIST_USERS {
        MessageView::ListUsers(fields[0], fields[1])
    } else if tag == TAG_CHAT_MESSAGE {
        MessageView::ChatMessage(fields[0], fields[1], fields[2])
    } else if tag == TAG_PRIVATE_MESSAGE {
        MessageView::PrivateMessage(fields[0], fields[1], fields[2])
    } else if tag == TAG_LOGOUT {
        MessageView::Logout(fields[0], fields[1])
    } else if tag == TAG_NEW_CHAT {
        MessageView::NewChat(fields[0], fields[1])
    } else if tag == TAG_KICK_USER {
        MessageView::KickUser(fields[0], fields[1], fields[2])
    } else if tag == TAG_CONNECTION_TERMINATION {
        MessageView::ConnectionTermination(fields[0])
    } else {
        MessageView::TerminateProgram
    }
}

/// What decoding a byte buffer yields: the message whose frame starts the
/// buffer, or the error that names what is wrong with it. Bytes past the
/// parsed fields (the newline terminator among them) are a read-boundary
/// convenience and are ignored.
pub open spec fn spec_decode(bytes: Seq<u8>) -> Result<MessageView, ProtocolError> {
    if bytes.len() == 0 {
        Err(ProtocolError::Empty)
    } else {
        let tag = bytes[0];
        if tag_arity(tag) < 0 {
            Err(ProtocolError::UnknownTag)
        } else {
            match spec_parse_fields(bytes, 1, tag_arity(tag)) {
                None => Err(ProtocolError::Truncated),
                Some(fields) => if forall|i: int| 0 <= i < fields.len() ==> valid_utf8(#[trigger] fields[i]) {
                    Ok(spec_assemble(tag, fields.map_values(|f: Seq<u8>| decode_utf8(f))))
                } else {
                    Err(ProtocolError::InvalidUtf8)
                },
            }
        }
    }
}

impl Message {
    /// Decode one wire frame back into a message.
    #[verifier::loop_isolation(false)]
    pub fn from_bytes(bytes: &[u8]) -> (r: Result<Message, ProtocolError>)
        ensures
            match r {
                Ok(m) => spec_decode(bytes@) == Ok::<MessageView, ProtocolError>(m@),
                Err(e) => spec_decode(bytes@) == Err::<MessageView, ProtocolError>(e),
            },
    {
        if bytes.len() == 0 {
            return Err(ProtocolError::Empty);
        }
        let tag = bytes[0];
        let count: usize = match exec_tag_arity(tag) {
            Some(k) => k,
            None => {
                return Err(ProtocolError::UnknownTag);
            },
        };
        let ghost all_fields: Seq<Seq<u8>> = match spec_parse_fields(bytes@, 1, count as int) {
            Some(fs) => fs,
            None => Seq::empty(),
        };
        let mut fields: Vec<Vec<u8>> = Vec::new();
        let mut pos: usize = 1;
        while fields.len() < count
            invariant
                1 <= pos <= bytes@.len(),
                fields.len() <= count,
                fields.deep_view().len() == fields.len(),
                spec_parse_fields(bytes@, 1, count as int) == match spec_parse_fields(
                    bytes@,
                    pos as int,
                    count - fields.len(),
                ) {
                    None => None::<Seq<Seq<u8>>>,
                    Some(rest) => Some(fields.deep_view() + rest),
                },
            decreases count - fields.len(),
        {
            if pos >= bytes.len() {
                return Err(ProtocolError::Truncated);
            }
            let n = bytes[pos] as usize;
            if n > bytes.len() - pos - 1 {
                return Err(ProtocolError::Truncated);
            }
            let field = vstd::slice::slice_to_vec(vstd::slice::slice_subrange(bytes, pos + 1, pos + 1 + n));
            let ghost done = fields.deep_view();
            let ghost remaining = count - fields.len();
            proof {
                assert(spec_parse_field(bytes@, pos as int) == Some::<(Seq<u8>, int)>((
                    field@,
                    pos + 1 + n,
                )));
            }
            let ghost field_vec = field;
            let ghost field_bytes = field@;
            fields.push(field);
            pos = pos + 1 + n;
            proof {
                assert(field_vec.deep_view() =~= field_bytes);
                assert(fields.deep_view() =~= done.push(field_bytes));
                match spec_parse_fields(bytes@, pos as int, remaining - 1) {
                    Some(rest) => {
                        assert(done + (seq![field_bytes] + rest) =~= done.push(field_bytes) + rest);
                    },
                    None => {},
                }
            }
        }
        proof {
            assert(spec_parse_fields(bytes@, pos as int, 0) == Some(Seq::<Seq<u8>>::empty()));
            assert(fields.deep_view() + Seq::<Seq<u8>>::empty() =~= fields.deep_view());
            assert(spec_parse_fields(bytes@, 1, count as int) == Some(fields.deep_view()));
            assert(all_fields == fields.deep_view());
        }
        let mut texts: Vec<String> = Vec::new();
        let mut j: usize = 0;
        while j < fields.len()
            invariant
                j <= fields.len(),
                fields.deep_view() == all_fields,
                texts.deep_view().len() == j,
                forall|i: int| 0 <= i < j ==> valid_utf8(#[trigger] all_fields[i]),
                forall|i: int|
                    0 <= i < j ==> #[trigger] texts.deep_view()[i] == decode_utf8(all_fields[i]),
            decreases fields.len() - j,
        {
            let field_copy = vstd::slice::slice_to_vec(fields[j].as_slice());
            proof {
                assert(fields@[j as int].deep_view() =~= fields@[j as int]@);
                assert(field_copy@ == all_fields[j as int]);
            }
            let ghost done_texts = texts.deep_view();
            match string_from_utf8(field_copy) {
                Some(s) => {
                    let ghost text = s@;
                    texts.push(s);
                    proof {
                        assert(texts.deep_view() =~= done_texts.push(text));
                    }
                },
                None => {
                    return Err(ProtocolError::InvalidUtf8);
                },
            }
            j += 1;
        }
        proof {
            assert(texts.deep_view() =~= all_fields.map_values(|f: Seq<u8>| decode_utf8(f)));
        }
        let message = assemble(tag, &texts, count);
        proof {
            assert(spec_decode(bytes@) == Ok::<MessageView, ProtocolError>(message@));
        }
        Ok(message)
    }
}

/// The arity of a known tag, or nothing for a tag outside the known set.
fn exec_tag_arity(tag: u8) -> (r: Option<usize>)
    ensures
        match r {
            Some(k) => tag_arity(tag) == k as int,
            None => tag_arity(tag) < 0,
        },
{
    if tag == TAG_TERMINATE_PROGRAM {
        Some(0)
    } else if tag == TAG_INIT_USER || tag == TAG_JOINED || tag == TAG_FAILURE || tag
        == TAG_LIST_GROUPS || tag == TAG_CONNECTION_TERMINATION {
        Some(1)
    } else if tag == TAG_LOGIN || tag == TAG_LIST_USERS || tag == TAG_LOGOUT || tag
        == TAG_NEW_CHAT {
        Some(2)
    } else if tag == TAG_CHAT_MESSAGE || tag == TAG_PRIVATE_MESSAGE || tag == TAG_KICK_USER {
        Some(3)
    } else {
        None
    }
}

/// Build the message of a known tag from its decoded field texts.
fn assemble(tag: u8, texts: &Vec<String>, count: usize) -> (r: Message)
    requires
        tag_arity(tag) == count as int,
        texts.deep_view().len() == count,
    ensures
        r@ == spec_assemble(tag, texts.deep_view()),
{
    if tag == TAG_INIT_USER {
        Message::InitUser(texts[0].clone())
    } else if tag == TAG_LOGIN {
        Message::Login(texts[0].clone(), texts[1].clone())
    } else if tag == TAG_JOINED {
        Message::Joined(texts[0].clone())
    } else if tag == TAG_FAILURE {
        Message::Failure(texts[0].clone())
    } else if tag == TAG_LIST_GROUPS {
        Message::ListGroups(texts[0].clone())
    } else if tag == TAG_LIST_USERS {
        Message::ListUsers(texts[0].clone(), texts[1].clone())
    } else if tag == TAG_CHAT_MESSAGE {
        Message::ChatMessage(texts[0].clone(), texts[1].clone(), texts[2].clone())
    } else if tag == TAG_PRIVATE_MESSAGE {
        Message::PrivateMessage(texts[0].clone(), texts[1].clone(), texts[2].clone())
    } else if tag == TAG_LOGOUT {
        Message::Logout(texts[0].clone(), texts[1].clone())
    } else if tag == TAG_NEW_CHAT {
        Message::NewChat(texts[0].clone(), texts[1].clone())
    } else if tag == TAG_KICK_USER {
        Message::KickUser(texts[0].clone(), texts[1].clone(), texts[2].clone())
    } else if tag == TAG_CONNECTION_TERMINATION {
        Message::ConnectionTermination(texts[0].clone())
    } else {
        Message::TerminateProgram
    }
}

/// The wire form of a run of fields, first field first.
pub open spec fn fields_bytes(fs: Seq<Seq<char>>) -> Seq<u8>
    decreases fs.len(),
{
    if fs.len() == 0 {
        Seq::empty()
    } else {
        spec_field(fs.first()) + fields_bytes(fs.drop_first())
    }
}

/// A buffer that holds one field in wire form at `pos` parses back to
/// exactly that field's UTF-8 bytes.
proof fn lemma_parse_field_at(bytes: Seq<u8>, pos: int, s: Seq<char>)
    requires
        field_wf(s),
        0 <= pos,
        pos + 1 + encode_utf8(s).len() <= bytes.len(),
        bytes.subrange(pos, pos + 1 + encode_utf8(s).len()) == spec_field(s),
    ensures
        spec_parse_field(bytes, pos) == Some::<(Seq<u8>, int)>((
            encode_utf8(s),
            pos + 1 + encode_utf8(s).len(),
        )),
{
    let enc = encode_utf8(s);
    let piece = bytes.subrange(pos, pos + 1 + enc.len());
    assert(bytes[pos] == piece[0]);
    assert(bytes[pos] == enc.len() as u8);
    assert(bytes[pos] as int == enc.len());
    assert(bytes.subrange(pos + 1, pos + 1 + enc.len()) =~= enc) by {
        assert forall|i: int| 0 <= i < enc.len() implies bytes[pos + 1 + i] == enc[i] by {
            assert(bytes[pos + 1 + i] == piece[1 + i]);
        }
    }
}

/// A buffer that holds a run of well-formed fields in wire form at `pos`
/// parses back to exactly their UTF-8 bytes.
proof fn lemma_parse_fields_round(bytes: Seq<u8>, pos: int, fs: Seq<Seq<char>>)
    requires
        forall|i: int| 0 <= i < fs.len() ==> field_wf(#[trigger] fs[i]),
        0 <= pos,
        pos + fields_bytes(fs).len() <= bytes.len(),
        bytes.subrange(pos, pos + fields_bytes(fs).len()) == fields_bytes(fs),
    ensures
        spec_parse_fields(bytes, pos, fs.len() as int) == Some(
            fs.map_values(|f: Seq<char>| encode_utf8(f)),
        ),
    decreases fs.len(),
{
    if fs.len() == 0 {
        assert(fs.map_values(|f: Seq<char>| encode_utf8(f)) =~= Seq::<Seq<u8>>::empty());
    } else {
        let f0 = fs.first();
        let rest = fs.drop_first();
        let head = spec_field(f0);
        let tail = fields_bytes(rest);
        let all = bytes.subrange(pos, pos + fields_bytes(fs).len());
        assert(all == head + tail);
        assert(bytes.subrange(pos, pos + head.len()) =~= head) by {
            assert forall|i: int| 0 <= i < head.len() implies bytes[pos + i] == head[i] by {
                assert(bytes[pos + i] == all[i]);
            }
        }
        lemma_parse_field_at(bytes, pos, f0);
        let pos2 = pos + head.len();
        assert(bytes.subrange(pos2, pos2 + tail.len()) =~= tail) by {
            assert forall|i: int| 0 <= i < tail.len() implies bytes[pos2 + i] == tail[i] by {
                assert(bytes[pos2 + i] == all[head.len() + i]);
            }
        }
        lemma_parse_fields_round(bytes, pos2, rest);
        assert(seq![encode_utf8(f0)] + rest.map_values(|f: Seq<char>| encode_utf8(f)) =~= fs.map_values(
            |f: Seq<char>| encode_utf8(f),
        ));
    }
}

/// The wire form of a message with the given tag and fields decodes back
/// to that message.
proof fn lemma_round_frame(m: MessageView, tag: u8, fs: Seq<Seq<char>>)
    requires
        spec_frame(m) == seq![tag] + fields_bytes(fs),
        tag_arity(tag) == fs.len() as int,
        spec_assemble(tag, fs) == m,
        forall|i: int| 0 <= i < fs.len() ==> field_wf(#[trigger] fs[i]),
    ensures
        spec_decode(spec_encode(m)) == Ok::<MessageView, ProtocolError>(m),
{
    let bytes = spec_encode(m);
    let body = fields_bytes(fs);
    assert(bytes.len() == 1 + body.len() + 1);
    assert(bytes[0] == tag);
    assert(bytes.subrange(1, 1 + body.len() as int) =~= body) by {
        assert forall|i: int| 0 <= i < body.len() implies bytes[1 + i] == body[i] by {
            assert(bytes[1 + i] == (seq![tag] + body)[1 + i]);
        }
    }
    lemma_parse_fields_round(bytes, 1, fs);
    let parsed = fs.map_values(|f: Seq<char>| encode_utf8(f));
    assert forall|i: int| 0 <= i < parsed.len() implies valid_utf8(#[trigger] parsed[i]) by {
        assert(parsed[i] == encode_utf8(fs[i]));
    }
    assert(parsed.map_values(|f: Seq<u8>| decode_utf8(f)) =~= fs) by {
        assert forall|i: int| 0 <= i < fs.len() implies parsed.map_values(
            |f: Seq<u8>| decode_utf8(f),
        )[i] == fs[i] by {
            assert(parsed[i] == encode_utf8(fs[i]));
        }
    }
}

/// The tag byte of a message's variant.
pub open spec fn tag_of(m: MessageView) -> u8 {
    match m {
        MessageView::InitUser(_) => TAG_INIT_USER,
        MessageView::Login(_, _) => TAG_LOGIN,
        MessageView::Joined(_) => TAG_JOINED,
        MessageView::Failure(_) => TAG_FAILURE,
        MessageView::ListGroups(_) => TAG_LIST_GROUPS,
        MessageView::ListUsers(_, _) => TAG_LIST_USERS,
        MessageView::ChatMessage(_, _, _) => TAG_CHAT_MESSAGE,
        MessageView::PrivateMessage(_, _, _) => TAG_PRIVATE_MESSAGE,
        MessageView::Logout(_, _) => TAG_LOGOUT,
        MessageView::NewChat(_, _) => TAG_NEW_CHAT,
        MessageView::KickUser(_, _, _) => TAG_KICK_USER,
        MessageView::ConnectionTermination(_) => TAG_CONNECTION_TERMINATION,
        MessageView::TerminateProgram => TAG_TERMINATE_PROGRAM,
    }
}

/// The fields of a message in wire order.
pub open spec fn fields_of(m: MessageView) -> Seq<Seq<char>> {
    match m {
        MessageView::InitUser(a) => seq![a],
        MessageView::Login(a, b) => seq![a, b],
        MessageView::Joined(a) => seq![a],
        MessageView::Failure(a) => seq![a],
        MessageView::ListGroups(a) => seq![a],
        MessageView::ListUsers(a, b) => seq![a, b],
        MessageView::ChatMessage(a, b, c) => seq![a, b, c],
        MessageView::PrivateMessage(a, b, c) => seq![a, b, c],
        MessageView::Logout(a, b) => seq![a, b],
        MessageView::NewChat(a, b) => seq![a, b],
        MessageView::KickUser(a, b, c) => seq![a, b, c],
        MessageView::ConnectionTermination(a) => seq![a],
        MessageView::TerminateProgram => Seq::empty(),
    }
}

/// Every frame is its tag followed by its fields in wire form, the tag
/// names the fields' arity, and assembling the fields under the tag
/// gives the message back.
proof fn lemma_frame_shape(m: MessageView)
    ensures
        spec_frame(m) == seq![tag_of(m)] + fields_bytes(fields_of(m)),
        tag_arity(tag_of(m)) == fields_of(m).len() as int,
        spec_assemble(tag_of(m), fields_of(m)) == m,
        msg_wf(m) ==> forall|i: int|
            0 <= i < fields_of(m).len() ==> field_wf(#[trigger] fields_of(m)[i]),
{
    let fs = fields_of(m);
    assert(fields_bytes(Seq::<Seq<char>>::empty()) == Seq::<u8>::empty());
    if fs.len() == 1 {
        assert(fs.drop_first() =~= Seq::<Seq<char>>::empty());
        assert(fields_bytes(fs) =~= spec_field(fs[0]));
    } else if fs.len() == 2 {
        assert(fs.drop_first() =~= seq![fs[1]]);
        assert(fs.drop_first().drop_first() =~= Seq::<Seq<char>>::empty());
        assert(fields_bytes(fs.drop_first()) =~= spec_field(fs[1]));
        assert(fields_bytes(fs) =~= spec_field(fs[0]) + spec_field(fs[1]));
    } else if fs.len() == 3 {
        assert(fs.drop_first() =~= seq![fs[1], fs[2]]);
        assert(fs.drop_first().drop_first() =~= seq![fs[2]]);
        assert(fs.drop_first().drop_first().drop_first() =~= Seq::<Seq<char>>::empty());
        assert(fields_bytes(fs.drop_first().drop_first()) =~= spec_field(fs[2]));
        assert(fields_bytes(fs.drop_first()) =~= spec_field(fs[1]) + spec_field(fs[2]));
        assert(fields_bytes(fs) =~= spec_field(fs[0]) + (spec_field(fs[1]) + spec_field(fs[2])));
    }
    match m {
        MessageView::InitUser(_) => {
            assert(spec_frame(m) =~= seq![tag_of(m)] + fields_bytes(fs));
        },
        MessageView::Login(_, _) => {
            assert(spec_frame(m) =~= seq![tag_of(m)] + fields_bytes(fs));
        },
        MessageView::Joined(_) => {
            assert(spec_frame(m) =~= seq![tag_of(m)] + fields_bytes(fs));
        },
        MessageView::Failure(_) => {
            assert(spec_frame(m) =~= seq![tag_of(m)] + fields_bytes(fs));
        },
        MessageView::ListGroups(_) => {
            assert(spec_frame(m) =~= seq![tag_of(m)] + fields_bytes(fs));
        },
        MessageView::ListUsers(_, _) => {
            assert(spec_frame(m) =~= seq![tag_of(m)] + fields_bytes(fs));
        },
        MessageView::ChatMessage(_, _, _) => {
            assert(spec_frame(m) =~= seq![tag_of(m)] + fields_bytes(fs));
        },
        MessageView::PrivateMessage(_, _, _) => {
            assert(spec_frame(m) =~= seq![tag_of(m)] + fields_bytes(fs));
        },
        MessageView::Logout(_, _) => {
            assert(spec_frame(m) =~= seq![tag_of(m)] + fields_bytes(fs));
        },
        MessageView::NewChat(_, _) => {
            assert(spec_frame(m) =~= seq![tag_of(m)] + fields_bytes(fs));
        },
        MessageView::KickUser(_, _, _) => {
            assert(spec_frame(m) =~= seq![tag_of(m)] + fields_bytes(fs));
        },
        MessageView::ConnectionTermination(_) => {
            assert(spec_frame(m) =~= seq![tag_of(m)] + fields_bytes(fs));
        },
        MessageView::TerminateProgram => {
            assert(spec_frame(m) =~= seq![tag_of(m)] + fields_bytes(fs));
        },
    }
}

/// Round trip: decoding the encoding of any well-formed message yields
/// exactly that message, fields of length 0 and length 255 included.
pub proof fn lemma_decode_encode(m: MessageView)
    requires
        msg_wf(m),
    ensures
        spec_decode(spec_encode(m)) == Ok::<MessageView, ProtocolError>(m),
{
    lemma_frame_shape(m);
    lemma_round_frame(m, tag_of(m), fields_of(m));
}

/// A buffer that cuts a run of well-formed fields short fails to parse.
proof fn lemma_parse_fields_truncated(buf: Seq<u8>, pos: int, fs: Seq<Seq<char>>)
    requires
        forall|i: int| 0 <= i < fs.len() ==> field_wf(#[trigger] fs[i]),
        0 <= pos <= buf.len(),
        buf.len() - pos < fields_bytes(fs).len(),
        buf.subrange(pos, buf.len() as int) == fields_bytes(fs).take(buf.len() - pos),
    ensures
        spec_parse_fields(buf, pos, fs.len() as int) == None::<Seq<Seq<u8>>>,
    decreases fs.len(),
{
    let avail = buf.len() - pos;
    let all = fields_bytes(fs);
    assert(fs.len() > 0);
    let f0 = fs.first();
    let head = spec_field(f0);
    let tail = fields_bytes(fs.drop_first());
    assert(all == head + tail);
    let len0 = encode_utf8(f0).len() as int;
    if avail == 0 {
        assert(spec_parse_field(buf, pos) is None);
    } else {
        assert(buf[pos] == all[0]) by {
            assert(buf.subrange(pos, buf.len() as int)[0] == all.take(avail)[0]);
        }
        assert(all[0] == head[0]);
        assert(head[0] == len0 as u8);
        assert(buf[pos] as int == len0);
        if avail < 1 + len0 {
            assert(spec_parse_field(buf, pos) is None);
        } else {
            assert(buf.subrange(pos, pos + 1 + len0) =~= head) by {
                assert forall|i: int| 0 <= i < 1 + len0 implies buf[pos + i] == head[i] by {
                    assert(buf.subrange(pos, buf.len() as int)[i] == all.take(avail)[i]);
                }
            }
            lemma_parse_field_at(buf, pos, f0);
            let pos2 = pos + 1 + len0;
            assert(buf.subrange(pos2, buf.len() as int) =~= tail.take(buf.len() - pos2)) by {
                assert forall|i: int| 0 <= i < buf.len() - pos2 implies buf[pos2 + i] == tail[i] by {
                    assert(buf.subrange(pos, buf.len() as int)[1 + len0 + i] == all.take(
                        avail,
                    )[1 + len0 + i]);
                    assert(all[1 + len0 + i] == tail[i]);
                }
            }
            lemma_parse_fields_truncated(buf, pos2, fs.drop_first());
        }
    }
}

/// Cutting a frame short anywhere after its tag — a declared field
/// length running past the end of the buffer, or a missing length byte —
/// fails with exactly the truncation error.
pub proof fn lemma_decode_truncated(m: MessageView, cut: int)
    requires
        msg_wf(m),
        1 <= cut < spec_frame(m).len(),
    ensures
        spec_decode(spec_frame(m).take(cut)) == Err::<MessageView, ProtocolError>(
            ProtocolError::Truncated,
        ),
{
    lemma_frame_shape(m);
    let tag = tag_of(m);
    let fs = fields_of(m);
    let bytes = spec_frame(m).take(cut);
    assert(bytes[0] == tag);
    assert(bytes.subrange(1, bytes.len() as int) =~= fields_bytes(fs).take(cut - 1)) by {
        assert forall|i: int| 0 <= i < cut - 1 implies bytes[1 + i] == fields_bytes(fs)[i] by {
            assert(spec_frame(m)[1 + i] == (seq![tag] + fields_bytes(fs))[1 + i]);
        }
    }
    lemma_parse_fields_truncated(bytes, 1, fs);
}

/// Decoding an empty buffer fails with exactly the empty-input error.
pub proof fn lemma_decode_empty()
    ensures
        spec_decode(Seq::<u8>::empty()) == Err::<MessageView, ProtocolError>(ProtocolError::Empty),
{
}

/// Decoding a buffer whose tag byte is outside the known set fails with
/// exactly the unknown-tag error, whatever follows the tag.
pub proof fn lemma_decode_unknown_tag(bytes: Seq<u8>)
    requires
        bytes.len() > 0,
        tag_arity(bytes[0]) < 0,
    ensures
        spec_decode(bytes) == Err::<MessageView, ProtocolError>(ProtocolError::UnknownTag),
{
}

/// Relies on `String::from_utf8`: it returns `Ok` exactly when the bytes
/// are valid UTF-8, and then the string whose character sequence is their
/// decoding.
#[verifier::external_body]
fn string_from_utf8(bytes: Vec<u8>) -> (r: Option<String>)
    ensures
        match r {
            Some(s) => valid_utf8(bytes@) && s@ == decode_utf8(bytes@),
            None => !valid_utf8(bytes@),
        },
{
    match String::from_utf8(bytes) {
        Ok(s) => Some(s),
        Err(_) => None,
    }
}

/// Whether one field's UTF-8 encoding fits in 255 bytes.
fn field_fits(s: &String) -> (r: bool)
    ensures
        r == field_wf(s@),
{
    s.as_str().as_bytes().len() <= MAX_FIELD_BYTES
}

/// Append one field in wire form: its length byte, then its UTF-8 bytes.
fn push_field(buffer: &mut Vec<u8>, s: &String)
    requires
        field_wf(s@),
    ensures
        final(buffer)@ == old(buffer)@ + spec_field(s@),
{
    let bytes = s.as_str().as_bytes();
    buffer.push(bytes.len() as u8);
    let ghost mid = buffer@;
    let mut i: usize = 0;
    while i < bytes.len()
        invariant
            bytes@ == encode_utf8(s@),
            i <= bytes@.len(),
            buffer@ == mid + bytes@.subrange(0, i as int),
        decreases bytes@.len() - i,
    {
        buffer.push(bytes[i]);
        proof {
            assert(bytes@.subrange(0, i + 1) =~= bytes@.subrange(0, i as int).push(bytes@[i as int]));
        }
        i += 1;
    }
    proof {
        assert(bytes@.subrange(0, bytes@.len() as int) =~= bytes@);
        assert(buffer@ =~= old(buffer)@ + spec_field(s@));
    }
}

} // verus!
