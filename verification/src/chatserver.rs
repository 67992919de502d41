//! The server side: the registries of live connections and chat groups,
//! and the dispatcher rules that route every inbound message.
//!
//! The dispatcher is a pure state machine: one message in, a new registry
//! state plus a list of outbound messages out. The surrounding process owns
//! the sockets, feeds decoded messages in arrival order, and writes each
//! outbound frame to the named recipient.
use vstd::prelude::*;

verus! {

use crate::message::{Message, MessageView};
use vstd::string::StringExecFns;

/// One chat room: its unique name and its members in joining order.
/// The member at index 0 administers the group.
pub struct Group {
    pub name: String,
    pub members: Vec<String>,
}

/// The mathematical value of a `Group`.
#[verifier::ext_equal]
pub struct GroupView {
    pub name: Seq<char>,
    pub members: Seq<Seq<char>>,
}

impl View for Group {
    type V = GroupView;

    open spec fn view(&self) -> GroupView {
        GroupView { name: self.name@, members: self.members.deep_view() }
    }
}

impl DeepView for Group {
    type V = GroupView;

    open spec fn deep_view(&self) -> GroupView {
        self.view()
    }
}

/// The two registries: which users hold a live connection, and which
/// groups exist. This is the only mutable server state.
pub struct ServerState {
    pub connections: Vec<String>,
    pub groups: Vec<Group>,
}

/// The mathematical value of a `ServerState`.
#[verifier::ext_equal]
pub struct StateView {
    pub connections: Seq<Seq<char>>,
    pub groups: Seq<GroupView>,
}

impl View for ServerState {
    type V = StateView;

    open spec fn view(&self) -> StateView {
        StateView { connections: self.connections.deep_view(), groups: self.groups.deep_view() }
    }
}

/// One message to be written to one user's connection.
pub struct Outbound {
    pub to: String,
    pub message: Message,
}

/// The mathematical value of an `Outbound`.
#[verifier::ext_equal]
pub struct OutboundView {
    pub to: Seq<char>,
    pub message: MessageView,
}

impl View for Outbound {
    type V = OutboundView;

    open spec fn view(&self) -> OutboundView {
        OutboundView { to: self.to@, message: self.message@ }
    }
}

impl DeepView for Outbound {
    type V = OutboundView;

    open spec fn deep_view(&self) -> OutboundView {
        self.view()
    }
}

/// No two entries of the sequence are the same string.
pub open spec fn unique(s: Seq<Seq<char>>) -> bool {
    forall|i: int, j: int| 0 <= i < j < s.len() ==> s[i] != s[j]
}

impl StateView {
    /// The registry invariant: group names are unique keys, no group
    /// lists a member twice, and no user holds two connections.
    pub open spec fn inv(self) -> bool {
        &&& forall|i: int, j: int|
            0 <= i < j < self.groups.len() ==> self.groups[i].name != self.groups[j].name
        &&& forall|k: int| 0 <= k < self.groups.len() ==> unique(#[trigger] self.groups[k].members)
        &&& unique(self.connections)
    }

    /// Whether a group of this name exists.
    pub open spec fn has_group(self, name: Seq<char>) -> bool {
        exists|i: int| 0 <= i < self.groups.len() && self.groups[i].name == name
    }

    /// The index of the group of this name; meaningful only when it
    /// exists, and unique under the invariant.
    pub open spec fn group_index(self, name: Seq<char>) -> int {
        choose|i: int| 0 <= i < self.groups.len() && self.groups[i].name == name
    }

    /// The member list of the group of this name.
    pub open spec fn members_of(self, name: Seq<char>) -> Seq<Seq<char>> {
        self.groups[self.group_index(name)].members
    }

    /// Whether this user holds a live connection.
    pub open spec fn is_connected(self, user: Seq<char>) -> bool {
        self.connections.contains(user)
    }
}

/// The group's index is determined: under the invariant any index whose
/// name matches is the one `group_index` names.
pub proof fn lemma_group_index_is(s: StateView, name: Seq<char>, i: int)
    requires
        s.inv(),
        0 <= i < s.groups.len(),
        s.groups[i].name == name,
    ensures
        s.has_group(name),
        s.group_index(name) == i,
{
    assert(s.has_group(name));
    let j = s.group_index(name);
    assert(0 <= j < s.groups.len() && s.groups[j].name == name);
    if i != j {
        if i < j {
            assert(s.groups[i].name != s.groups[j].name);
        } else {
            assert(s.groups[j].name != s.groups[i].name);
        }
    }
}

/// The member list with every occurrence of one user removed, order of
/// the rest kept.
pub open spec fn remove_user(members: Seq<Seq<char>>, user: Seq<char>) -> Seq<Seq<char>>
    decreases members.len(),
{
    if members.len() == 0 {
        Seq::empty()
    } else {
        let rest = remove_user(members.drop_last(), user);
        if members.last() == user {
            rest
        } else {
            rest.push(members.last())
        }
    }
}

/// Every group with one user removed from its member list.
pub open spec fn remove_user_groups(groups: Seq<GroupView>, user: Seq<char>) -> Seq<GroupView> {
    groups.map_values(|g: GroupView| GroupView { name: g.name, members: remove_user(g.members, user) })
}

/// What `remove_user` keeps: everything but the removed user, its
/// uniqueness, and nothing new.
pub proof fn lemma_remove_user(members: Seq<Seq<char>>, user: Seq<char>)
    ensures
        !remove_user(members, user).contains(user),
        forall|x: Seq<char>|
            #[trigger] remove_user(members, user).contains(x) ==> members.contains(x),
        forall|x: Seq<char>|
            x != user && members.contains(x) ==> #[trigger] remove_user(members, user).contains(x),
        unique(members) ==> unique(remove_user(members, user)),
    decreases members.len(),
{
    let out = remove_user(members, user);
    if members.len() == 0 {
        assert(forall|x: Seq<char>| !(#[trigger] out.contains(x)));
    } else {
        let head = members.drop_last();
        let rest = remove_user(head, user);
        lemma_remove_user(head, user);
        assert forall|x: Seq<char>| #[trigger] out.contains(x) implies members.contains(x) by {
            if x == members.last() {
                assert(members[members.len() - 1] == x);
            } else {
                assert(rest.contains(x));
                let k = choose|k: int| 0 <= k < head.len() && head[k] == x;
                assert(members[k] == x);
            }
        }
        assert forall|x: Seq<char>| x != user && members.contains(x) implies #[trigger] out.contains(
            x,
        ) by {
            let k = choose|k: int| 0 <= k < members.len() && members[k] == x;
            if k == members.len() - 1 {
                assert(out.last() == x);
            } else {
                assert(head[k] == x);
                assert(rest.contains(x));
                if members.last() != user {
                    let k2 = choose|k2: int| 0 <= k2 < rest.len() && rest[k2] == x;
                    assert(out[k2] == x);
                }
            }
        }
        if unique(members) {
            assert(unique(head)) by {
                assert forall|i: int, j: int| 0 <= i < j < head.len() implies head[i] != head[j] by {
                    assert(members[i] == head[i] && members[j] == head[j]);
                }
            }
            if members.last() != user {
                assert(!rest.contains(members.last())) by {
                    if rest.contains(members.last()) {
                        assert(head.contains(members.last()));
                        let k = choose|k: int| 0 <= k < head.len() && head[k] == members.last();
                        assert(members[k] == members[members.len() - 1]);
                    }
                }
                assert forall|i: int, j: int| 0 <= i < j < out.len() implies out[i] != out[j] by {
                    if j < out.len() - 1 {
                        assert(rest[i] != rest[j]);
                    } else {
                        assert(out[j] == members.last());
                        assert(rest[i] == out[i]);
                        if out[i] == members.last() {
                            assert(rest.contains(members.last()));
                        }
                    }
                }
            }
        }
    }
}

/// An error reply addressed to the user whose request failed.
pub open spec fn fail_to(user: Seq<char>, text: Seq<char>) -> OutboundView {
    OutboundView { to: user, message: MessageView::Failure(text) }
}

/// A server-authored chat line addressed to one user.
pub open spec fn server_chat_to(user: Seq<char>, text: Seq<char>) -> OutboundView {
    OutboundView {
        to: user,
        message: MessageView::ChatMessage("Server"@, "(SERVER)"@, text),
    }
}

/// The group listing line: every group name, most recently created
/// first, each followed by a separator.
pub open spec fn spec_groups_list(groups: Seq<GroupView>) -> Seq<char>
    decreases groups.len(),
{
    if groups.len() == 0 {
        ""@
    } else {
        groups.last().name + " | "@ + spec_groups_list(groups.drop_last())
    }
}

/// The member listing line: the online heading, then each member in
/// joining order.
pub open spec fn spec_users_line(members: Seq<Seq<char>>) -> Seq<char>
    decreases members.len(),
{
    if members.len() == 0 {
        "Online: "@
    } else {
        spec_users_line(members.drop_last()) + " "@ + members.last() + ","@
    }
}

/// The forwarded copies of a broadcast: one per member in joining order,
/// the sender skipped.
pub open spec fn spec_broadcast(members: Seq<Seq<char>>, sender: Seq<char>, m: MessageView) -> Seq<
    OutboundView,
>
    decreases members.len(),
{
    if members.len() == 0 {
        Seq::empty()
    } else {
        let rest = spec_broadcast(members.drop_last(), sender, m);
        if members.last() == sender {
            rest
        } else {
            rest.push(OutboundView { to: members.last(), message: m })
        }
    }
}

/// Replying to a group-listing request: the joined group names, sent as
/// a server-authored chat line; the state is untouched.
pub open spec fn spec_list_groups(s: StateView, u: Seq<char>) -> (StateView, Seq<OutboundView>) {
    (s, seq![server_chat_to(u, spec_groups_list(s.groups))])
}

/// Replying to a member-listing request: the member line of the named
/// group, or an error when the group is unknown; the state is untouched.
pub open spec fn spec_list_users(s: StateView, u: Seq<char>, g: Seq<char>) -> (StateView, Seq<
    OutboundView,
>) {
    if !s.has_group(g) {
        (s, seq![fail_to(u, "No such chat"@)])
    } else {
        (s, seq![server_chat_to(u, spec_users_line(s.members_of(g)))])
    }
}

/// Joining a group: unknown group and repeated joins are errors; else
/// the user is appended to the member list and told so.
pub open spec fn spec_login(s: StateView, u: Seq<char>, g: Seq<char>) -> (StateView, Seq<
    OutboundView,
>) {
    if !s.has_group(g) {
        (s, seq![fail_to(u, "No such chat"@)])
    } else if s.members_of(g).contains(u) {
        (s, seq![fail_to(u, "Already in this chat"@)])
    } else {
        let i = s.group_index(g);
        let joined = GroupView { name: g, members: s.members_of(g).push(u) };
        (
            StateView { connections: s.connections, groups: s.groups.update(i, joined) },
            seq![OutboundView { to: u, message: MessageView::Joined(g) }],
        )
    }
}

/// Broadcasting to a group: unknown group is an error to the sender;
/// else every member but the sender receives the message unchanged.
pub open spec fn spec_chat_message(
    s: StateView,
    u: Seq<char>,
    g: Seq<char>,
    text: Seq<char>,
) -> (StateView, Seq<OutboundView>) {
    if !s.has_group(g) {
        (s, seq![fail_to(u, "Must join a chat"@)])
    } else {
        (s, spec_broadcast(s.members_of(g), u, MessageView::ChatMessage(u, g, text)))
    }
}

/// Forwarding a direct message: delivered verbatim when the recipient is
/// connected, else an error to the sender; the state is untouched.
pub open spec fn spec_private_message(
    s: StateView,
    from: Seq<char>,
    to: Seq<char>,
    text: Seq<char>,
) -> (StateView, Seq<OutboundView>) {
    if s.is_connected(to) {
        (s, seq![OutboundView { to, message: MessageView::PrivateMessage(from, to, text) }])
    } else {
        (s, seq![fail_to(from, "No such user"@)])
    }
}

/// Leaving a group: the user is removed from its member list and told
/// so; an unknown group is an error.
pub open spec fn spec_logout(s: StateView, u: Seq<char>, g: Seq<char>) -> (StateView, Seq<
    OutboundView,
>) {
    if !s.has_group(g) {
        (s, seq![fail_to(u, "No such chat"@)])
    } else {
        let i = s.group_index(g);
        let left = GroupView { name: g, members: remove_user(s.members_of(g), u) };
        (
            StateView { connections: s.connections, groups: s.groups.update(i, left) },
            seq![OutboundView { to: u, message: MessageView::Logout(u, g) }],
        )
    }
}

/// Creating a group: a taken name is an error; else the creator leaves
/// every group, the new group holds the creator alone (who is thereby
/// its administrator), and the creator is told of the move.
pub open spec fn spec_create_group(s: StateView, u: Seq<char>, name: Seq<char>) -> (StateView, Seq<
    OutboundView,
>) {
    if s.has_group(name) {
        (s, seq![fail_to(u, "Chat already exists"@)])
    } else {
        let fresh = GroupView { name, members: seq![u] };
        (
            StateView {
                connections: s.connections,
                groups: remove_user_groups(s.groups, u).push(fresh),
            },
            seq![
                OutboundView { to: u, message: MessageView::Logout(""@, ""@) },
                OutboundView { to: u, message: MessageView::Joined(name) },
                server_chat_to(u, "Created new group and moved to it!"@),
            ],
        )
    }
}

/// Kicking a user: only the group's member at index 0 may kick, the
/// target must be connected, and then the target leaves the group and is
/// told so.
pub open spec fn spec_kick_user(
    s: StateView,
    from: Seq<char>,
    g: Seq<char>,
    target: Seq<char>,
) -> (StateView, Seq<OutboundView>) {
    if !s.has_group(g) {
        (s, seq![fail_to(from, "No such chat"@)])
    } else if s.members_of(g).len() == 0 || s.members_of(g)[0] != from {
        (s, seq![fail_to(from, "Not admin in this chat"@)])
    } else if !s.is_connected(target) {
        (s, seq![fail_to(from, "No such user in this chat"@)])
    } else {
        let i = s.group_index(g);
        let left = GroupView { name: g, members: remove_user(s.members_of(g), target) };
        (
            StateView { connections: s.connections, groups: s.groups.update(i, left) },
            seq![
                OutboundView { to: target, message: MessageView::Logout(""@, ""@) },
                server_chat_to(target, "Kicked from chat!"@),
            ],
        )
    }
}

/// Tearing a connection down: the user leaves the connection registry
/// and every group; the departing connection is sent one final
/// termination notice before it is closed.
pub open spec fn spec_terminate(s: StateView, u: Seq<char>) -> (StateView, Seq<OutboundView>) {
    (
        StateView {
            connections: remove_user(s.connections, u),
            groups: remove_user_groups(s.groups, u),
        },
        seq![OutboundView { to: u, message: MessageView::ConnectionTermination(u) }],
    )
}

/// Registering a fresh connection: the user enters the connection
/// registry and is greeted with the joining instructions and the group
/// listing.
pub open spec fn spec_new_client(s: StateView, u: Seq<char>) -> (StateView, Seq<OutboundView>) {
    let joined = if s.is_connected(u) {
        s.connections
    } else {
        s.connections.push(u)
    };
    (
        StateView { connections: joined, groups: s.groups },
        seq![
            server_chat_to(u, "Following groups available, type /join [GROUP] to join"@),
            server_chat_to(u, spec_groups_list(s.groups)),
        ],
    )
}

/// What one dispatcher step does with an inbound message: the rule of
/// its variant, or nothing for the variants the server ignores.
pub open spec fn spec_dispatch(s: StateView, m: MessageView) -> (StateView, Seq<OutboundView>) {
    match m {
        MessageView::ListGroups(u) => spec_list_groups(s, u),
        MessageView::ListUsers(u, g) => spec_list_users(s, u, g),
        MessageView::Login(u, g) => spec_login(s, u, g),
        MessageView::ChatMessage(u, g, t) => spec_chat_message(s, u, g, t),
        MessageView::PrivateMessage(f, t, c) => spec_private_message(s, f, t, c),
        MessageView::Logout(u, g) => spec_logout(s, u, g),
        MessageView::NewChat(u, g) => spec_create_group(s, u, g),
        MessageView::KickUser(f, g, t) => spec_kick_user(s, f, g, t),
        MessageView::ConnectionTermination(u) => spec_terminate(s, u),
        _ => (s, Seq::empty()),
    }
}

/// Whether the list holds this user.
fn contains_user(list: &Vec<String>, user: &String) -> (r: bool)
    ensures
        r == list.deep_view().contains(user@),
{
    let mut i: usize = 0;
    while i < list.len()
        invariant
            i <= list.len(),
            forall|j: int| 0 <= j < i ==> list.deep_view()[j] != user@,
        decreases list.len() - i,
    {
        if list[i] == *user {
            proof {
                assert(list.deep_view()[i as int] == user@);
            }
            return true;
        }
        i += 1;
    }
    proof {
        if list.deep_view().contains(user@) {
            let j = choose|j: int| 0 <= j < list.deep_view().len() && list.deep_view()[j] == user@;
            assert(false);
        }
    }
    false
}

/// Remove every occurrence of one user from the list, keeping order.
fn remove_member(list: &mut Vec<String>, user: &String)
    ensures
        final(list).deep_view() == remove_user(old(list).deep_view(), user@),
{
    let mut kept: Vec<String> = Vec::new();
    proof {
        assert(kept.deep_view() =~= remove_user(old(list).deep_view().take(0), user@));
    }
    let mut i: usize = 0;
    while i < list.len()
        invariant
            i <= list.len(),
            *list == *old(list),
            kept.deep_view() == remove_user(list.deep_view().take(i as int), user@),
        decreases list.len() - i,
    {
        let ghost prev = kept.deep_view();
        if !(list[i] == *user) {
            kept.push(list[i].clone());
            proof {
                assert(kept.deep_view() =~= prev.push(list.deep_view()[i as int]));
            }
        }
        proof {
            assert(list.deep_view().take(i + 1).drop_last() =~= list.deep_view().take(i as int));
            assert(list.deep_view().take(i + 1).last() == list.deep_view()[i as int]);
        }
        i += 1;
    }
    proof {
        assert(list.deep_view().take(list.deep_view().len() as int) =~= list.deep_view());
    }
    *list = kept;
}

impl ServerState {
    /// A server with no connections and no groups.
    pub fn new() -> (s: ServerState)
        ensures
            s@.inv(),
            s@.connections == Seq::<Seq<char>>::empty(),
            s@.groups == Seq::<GroupView>::empty(),
    {
        let s = ServerState { connections: Vec::new(), groups: Vec::new() };
        proof {
            assert(s@.connections =~= Seq::<Seq<char>>::empty());
            assert(s@.groups =~= Seq::<GroupView>::empty());
        }
        s
    }

    /// The index of the group of this name, if any.
    fn find_group(&self, name: &String) -> (r: Option<usize>)
        ensures
            match r {
                Some(i) => i < self@.groups.len() && self@.groups[i as int].name == name@,
                None => !self@.has_group(name@),
            },
    {
        let mut i: usize = 0;
        while i < self.groups.len()
            invariant
                i <= self.groups.len(),
                forall|j: int| 0 <= j < i ==> self@.groups[j].name != name@,
            decreases self.groups.len() - i,
        {
            if self.groups[i].name == *name {
                return Some(i);
            }
            i += 1;
        }
        proof {
            if self@.has_group(name@) {
                let j = choose|j: int|
                    0 <= j < self@.groups.len() && self@.groups[j].name == name@;
                assert(false);
            }
        }
        None
    }

    /// Seed a group with an empty member list, as the server does at
    /// start-up. Nothing happens when the name is taken.
    pub fn add_group(&mut self, name: String) -> (added: bool)
        requires
            old(self)@.inv(),
        ensures
            final(self)@.inv(),
            old(self)@.has_group(name@) ==> !added && final(self)@ == old(self)@,
            !old(self)@.has_group(name@) ==> added && final(self)@.connections == old(
                self,
            )@.connections && final(self)@.groups == old(self)@.groups.push(
                GroupView { name: name@, members: Seq::empty() },
            ),
    {
        match self.find_group(&name) {
            Some(_) => false,
            None => {
                let ghost before = self@.groups;
                let empty_members: Vec<String> = Vec::new();
                proof {
                    assert(empty_members.deep_view() =~= Seq::<Seq<char>>::empty());
                }
                self.groups.push(Group { name, members: empty_members });
                proof {
                    assert(self@.groups =~= before.push(
                        GroupView { name: name@, members: Seq::empty() },
                    ));
                }
                true
            },
        }
    }

    /// The group listing, every group name joined with a separator.
    pub fn groups_list(&self) -> (r: String)
        ensures
            r@ == spec_groups_list(self@.groups),
    {
        let mut acc: String = "".to_owned();
        proof {
            assert(self@.groups.take(0) =~= Seq::<GroupView>::empty());
        }
        let mut i: usize = 0;
        while i < self.groups.len()
            invariant
                i <= self.groups.len(),
                acc@ == spec_groups_list(self@.groups.take(i as int)),
            decreases self.groups.len() - i,
        {
            acc = self.groups[i].name.clone().concat(" | ").concat(acc.as_str());
            proof {
                assert(self@.groups.take(i + 1).drop_last() =~= self@.groups.take(i as int));
                assert(self@.groups.take(i + 1).last() == self@.groups[i as int]);
            }
            i += 1;
        }
        proof {
            assert(self@.groups.take(self@.groups.len() as int) =~= self@.groups);
        }
        acc
    }

    /// The member listing of one group, or nothing when the group is
    /// unknown.
    pub fn users_in_group(&self, group_name: String) -> (r: Option<String>)
        requires
            self@.inv(),
        ensures
            match r {
                Some(line) => self@.has_group(group_name@) && line@ == spec_users_line(
                    self@.members_of(group_name@),
                ),
                None => !self@.has_group(group_name@),
            },
    {
        let gi = match self.find_group(&group_name) {
            Some(gi) => gi,
            None => {
                return None;
            },
        };
        proof {
            lemma_group_index_is(self@, group_name@, gi as int);
        }
        let members = &self.groups[gi].members;
        let ghost ms = self@.members_of(group_name@);
        let mut acc: String = "Online: ".to_owned();
        proof {
            assert(ms.take(0) =~= Seq::<Seq<char>>::empty());
        }
        let mut i: usize = 0;
        while i < members.len()
            invariant
                i <= members.len(),
                members.deep_view() == ms,
                acc@ == spec_users_line(ms.take(i as int)),
            decreases members.len() - i,
        {
            acc = acc.concat(" ").concat(members[i].as_str()).concat(",");
            proof {
                assert(ms.take(i + 1).drop_last() =~= ms.take(i as int));
                assert(ms.take(i + 1).last() == ms[i as int]);
            }
            i += 1;
        }
        proof {
            assert(ms.take(ms.len() as int) =~= ms);
        }
        Some(acc)
    }
    /// Answer a member-listing request: the member line of the named
    /// group to the asking user, or an error when the group is unknown.
    /// Any other inbound variant is ignored.
    pub fn list_users(&self, message: Message) -> (r: Vec<Outbound>)
        requires
            self@.inv(),
        ensures
            match message@ {
                MessageView::ListUsers(u, g) => (self@, r.deep_view()) == spec_list_users(
                    self@,
                    u,
                    g,
                ),
                _ => r.deep_view() == Seq::<OutboundView>::empty(),
            },
    {
        match message {
            Message::ListUsers(username, group_name) => {
                match self.users_in_group(group_name) {
                    Some(line) => one_out(send_chat_message_to_user(username, line)),
                    None => one_out(failure_message(username, "No such chat".to_owned())),
                }
            },
            _ => no_out(),
        }
    }

    /// Forward a direct message to its recipient when the recipient is
    /// connected, else report the failed lookup to the sender. Any other
    /// inbound variant is ignored.
    pub fn private_message(&self, message: Message) -> (r: Vec<Outbound>)
        ensures
            match message@ {
                MessageView::PrivateMessage(f, t, c) => (self@, r.deep_view())
                    == spec_private_message(self@, f, t, c),
                _ => r.deep_view() == Seq::<OutboundView>::empty(),
            },
    {
        match message {
            Message::PrivateMessage(from_user, to_user, contents) => {
                if contains_user(&self.connections, &to_user) {
                    one_out(
                        Outbound {
                            to: to_user.clone(),
                            message: Message::PrivateMessage(from_user, to_user, contents),
                        },
                    )
                } else {
                    one_out(failure_message(from_user, "No such user".to_owned()))
                }
            },
            _ => no_out(),
        }
    }

    /// Apply a join request: an unknown group or a repeated join is an
    /// error to the requester; else the user joins the member list and
    /// is told so. Any other inbound variant is ignored.
    pub fn login(&mut self, message: Message) -> (r: Vec<Outbound>)
        requires
            old(self)@.inv(),
        ensures
            final(self)@.inv(),
            match message@ {
                MessageView::Login(u, g) => (final(self)@, r.deep_view()) == spec_login(
                    old(self)@,
                    u,
                    g,
                ),
                _ => final(self)@ == old(self)@ && r.deep_view() == Seq::<OutboundView>::empty(),
            },
    {
        match message {
            Message::Login(username, group_name) => {
                let ghost uv = username@;
                let ghost gv = group_name@;
                let gi = match self.find_group(&group_name) {
                    Some(gi) => gi,
                    None => {
                        return one_out(failure_message(username, "No such chat".to_owned()));
                    },
                };
                proof {
                    lemma_group_index_is(self@, gv, gi as int);
                }
                if contains_user(&self.groups[gi].members, &username) {
                    return one_out(failure_message(username, "Already in this chat".to_owned()));
                }
                let mut entry = self.groups.remove(gi);
                entry.members.push(username.clone());
                let ghost entry_view = entry@;
                self.groups.insert(gi, entry);
                proof {
                    assert(self.groups@ =~= old(self).groups@.update(gi as int, self.groups@[gi as int]));
                    assert(self@.groups =~= old(self)@.groups.update(gi as int, entry_view));
                    assert(entry_view.members =~= old(self)@.members_of(gv).push(uv));
                    assert(entry_view =~= GroupView {
                        name: gv,
                        members: old(self)@.members_of(gv).push(uv),
                    });
                    assert(self@.inv()) by {
                        assert(forall|k: int|
                            0 <= k < old(self)@.groups.len() ==> unique(
                                #[trigger] old(self)@.groups[k].members,
                            ));
                        assert(unique(entry_view.members)) by {
                            let ms = old(self)@.members_of(gv);
                            assert(unique(ms));
                            assert(!ms.contains(uv));
                            assert forall|i: int, j: int|
                                0 <= i < j < entry_view.members.len() implies entry_view.members[i]
                                != entry_view.members[j] by {
                                if j == ms.len() {
                                    if entry_view.members[i] == uv {
                                        assert(ms[i] == uv);
                                    }
                                }
                            }
                        }
                    }
                }
                one_out(Outbound { to: username, message: Message::Joined(group_name) })
            },
            _ => no_out(),
        }
    }
    /// Apply a broadcast request: the message goes unchanged to every
    /// member of the group but the sender; an unknown group is an error
    /// to the sender. Any other inbound variant is ignored.
    #[verifier::loop_isolation(false)]
    pub fn chat_message(&self, message: Message) -> (r: Vec<Outbound>)
        requires
            self@.inv(),
        ensures
            match message@ {
                MessageView::ChatMessage(u, g, t) => (self@, r.deep_view()) == spec_chat_message(
                    self@,
                    u,
                    g,
                    t,
                ),
                _ => r.deep_view() == Seq::<OutboundView>::empty(),
            },
    {
        match message {
            Message::ChatMessage(username, chat_name, contents) => {
                let gi = match self.find_group(&chat_name) {
                    Some(gi) => gi,
                    None => {
                        return one_out(failure_message(username, "Must join a chat".to_owned()));
                    },
                };
                proof {
                    lemma_group_index_is(self@, chat_name@, gi as int);
                }
                let members = &self.groups[gi].members;
                let ghost ms = self@.members_of(chat_name@);
                let ghost mv = MessageView::ChatMessage(username@, chat_name@, contents@);
                let mut outs: Vec<Outbound> = Vec::new();
                proof {
                    assert(ms.take(0) =~= Seq::<Seq<char>>::empty());
                    assert(outs.deep_view() =~= Seq::<OutboundView>::empty());
                }
                let mut i: usize = 0;
                while i < members.len()
                    invariant
                        i <= members.len(),
                        outs.deep_view() == spec_broadcast(ms.take(i as int), username@, mv),
                    decreases members.len() - i,
                {
                    let ghost prev = outs.deep_view();
                    if !(members[i] == username) {
                        outs.push(
                            Outbound {
                                to: members[i].clone(),
                                message: Message::ChatMessage(
                                    username.clone(),
                                    chat_name.clone(),
                                    contents.clone(),
                                ),
                            },
                        );
                        proof {
                            assert(outs.deep_view() =~= prev.push(
                                OutboundView { to: ms[i as int], message: mv },
                            ));
                        }
                    }
                    proof {
                        assert(ms.take(i + 1).drop_last() =~= ms.take(i as int));
                        assert(ms.take(i + 1).last() == ms[i as int]);
                    }
                    i += 1;
                }
                proof {
                    assert(ms.take(ms.len() as int) =~= ms);
                }
                outs
            },
            _ => no_out(),
        }
    }

    /// Apply a leave request: the user is removed from the group's
    /// member list and told so; an unknown group is an error. Any other
    /// inbound variant is ignored.
    pub fn logout(&mut self, message: Message) -> (r: Vec<Outbound>)
        requires
            old(self)@.inv(),
        ensures
            final(self)@.inv(),
            match message@ {
                MessageView::Logout(u, g) => (final(self)@, r.deep_view()) == spec_logout(
                    old(self)@,
                    u,
                    g,
                ),
                _ => final(self)@ == old(self)@ && r.deep_view() == Seq::<OutboundView>::empty(),
            },
    {
        match message {
            Message::Logout(username, group_name) => {
                let ghost uv = username@;
                let ghost gv = group_name@;
                let gi = match self.find_group(&group_name) {
                    Some(gi) => gi,
                    None => {
                        return one_out(failure_message(username, "No such chat".to_owned()));
                    },
                };
                proof {
                    lemma_group_index_is(self@, gv, gi as int);
                }
                let mut entry = self.groups.remove(gi);
                remove_member(&mut entry.members, &username);
                let ghost entry_view = entry@;
                self.groups.insert(gi, entry);
                proof {
                    assert(self@.groups =~= old(self)@.groups.update(gi as int, entry_view));
                    assert(entry_view =~= GroupView {
                        name: gv,
                        members: remove_user(old(self)@.members_of(gv), uv),
                    });
                    lemma_remove_user(old(self)@.members_of(gv), uv);
                    assert(self@.inv());
                }
                one_out(
                    Outbound { to: username.clone(), message: Message::Logout(username, group_name) },
                )
            },
            _ => no_out(),
        }
    }

    /// Remove one user from every group's member list.
    #[verifier::loop_isolation(false)]
    fn remove_from_all_groups(&mut self, username: &String)
        requires
            old(self)@.inv(),
        ensures
            final(self)@.inv(),
            final(self)@.groups == remove_user_groups(old(self)@.groups, username@),
            final(self)@.connections == old(self)@.connections,
    {
        let mut i: usize = 0;
        while i < self.groups.len()
            invariant
                i <= self.groups.len(),
                self.connections == old(self).connections,
                self@.groups.len() == old(self)@.groups.len(),
                forall|j: int|
                    i <= j < self@.groups.len() ==> self@.groups[j] == old(self)@.groups[j],
                forall|j: int|
                    0 <= j < i ==> self@.groups[j] == (GroupView {
                        name: old(self)@.groups[j].name,
                        members: remove_user(old(self)@.groups[j].members, username@),
                    }),
            decreases self.groups.len() - i,
        {
            let ghost at_start = self@.groups;
            let mut entry = self.groups.remove(i);
            let ghost entry_before = entry@;
            remove_member(&mut entry.members, username);
            let ghost entry_view = entry@;
            self.groups.insert(i, entry);
            proof {
                assert(entry_before == old(self)@.groups[i as int]);
                assert(self@.groups =~= at_start.update(i as int, entry_view));
                assert(entry_view =~= GroupView {
                    name: old(self)@.groups[i as int].name,
                    members: remove_user(old(self)@.groups[i as int].members, username@),
                });
            }
            i += 1;
        }
        proof {
            assert(self@.groups =~= remove_user_groups(old(self)@.groups, username@));
            assert forall|k: int| 0 <= k < self@.groups.len() implies unique(
                #[trigger] self@.groups[k].members,
            ) by {
                lemma_remove_user(old(self)@.groups[k].members, username@);
            }
        }
    }

    /// Tear one connection down: the user leaves the connection registry
    /// and every group; the returned notice is written to the departing
    /// connection before its socket closes.
    pub fn terminate_connection(&mut self, username: String) -> (r: Vec<Outbound>)
        requires
            old(self)@.inv(),
        ensures
            final(self)@.inv(),
            (final(self)@, r.deep_view()) == spec_terminate(old(self)@, username@),
    {
        remove_member(&mut self.connections, &username);
        proof {
            lemma_remove_user(old(self)@.connections, username@);
        }
        self.remove_from_all_groups(&username);
        one_out(
            Outbound { to: username.clone(), message: Message::ConnectionTermination(username) },
        )
    }

    /// Register a fresh connection after a successful handshake and
    /// greet it with the joining instructions and the group listing.
    pub fn new_client(&mut self, username: String) -> (r: Vec<Outbound>)
        requires
            old(self)@.inv(),
        ensures
            final(self)@.inv(),
            (final(self)@, r.deep_view()) == spec_new_client(old(self)@, username@),
    {
        let ghost uv = username@;
        let listing = self.groups_list();
        if !contains_user(&self.connections, &username) {
            self.connections.push(username.clone());
            proof {
                assert(self@.connections =~= old(self)@.connections.push(username@));
            }
        }
        let mut outs = one_out(
            send_chat_message_to_user(
                username.clone(),
                "Following groups available, type /join [GROUP] to join".to_owned(),
            ),
        );
        let ghost first = outs.deep_view();
        outs.push(send_chat_message_to_user(username, listing));
        proof {
            assert(outs.deep_view() =~= first.push(
                server_chat_to(uv, spec_groups_list(old(self)@.groups)),
            ));
        }
        outs
    }
    /// Apply a create request: a taken name is an error; else the
    /// creator leaves every group, becomes the sole member (and so the
    /// administrator) of the fresh group, and is told of the move. Any
    /// other inbound variant is ignored.
    pub fn create_group(&mut self, message: Message) -> (r: Vec<Outbound>)
        requires
            old(self)@.inv(),
        ensures
            final(self)@.inv(),
            match message@ {
                MessageView::NewChat(u, g) => (final(self)@, r.deep_view()) == spec_create_group(
                    old(self)@,
                    u,
                    g,
                ),
                _ => final(self)@ == old(self)@ && r.deep_view() == Seq::<OutboundView>::empty(),
            },
    {
        match message {
            Message::NewChat(username, chat_name) => {
                let ghost uv = username@;
                let ghost gv = chat_name@;
                match self.find_group(&chat_name) {
                    Some(_) => {
                        return one_out(failure_message(username, "Chat already exists".to_owned()));
                    },
                    None => {},
                }
                self.remove_from_all_groups(&username);
                let ghost cleared = self@.groups;
                let mut founders: Vec<String> = Vec::new();
                founders.push(username.clone());
                proof {
                    assert(founders.deep_view() =~= seq![uv]);
                }
                self.groups.push(Group { name: chat_name.clone(), members: founders });
                proof {
                    assert(self@.groups =~= cleared.push(GroupView { name: gv, members: seq![uv] }));
                    assert(self@.inv()) by {
                        assert forall|i: int, j: int|
                            0 <= i < j < self@.groups.len() implies self@.groups[i].name
                            != self@.groups[j].name by {
                            if j == self@.groups.len() - 1 {
                                assert(cleared[i].name == old(self)@.groups[i].name);
                                if old(self)@.groups[i].name == gv {
                                    assert(old(self)@.has_group(gv));
                                }
                            }
                        }
                    }
                }
                let mut outs = one_out(
                    Outbound {
                        to: username.clone(),
                        message: Message::Logout("".to_owned(), "".to_owned()),
                    },
                );
                let ghost one = outs.deep_view();
                outs.push(Outbound { to: username.clone(), message: Message::Joined(chat_name) });
                let ghost two = outs.deep_view();
                outs.push(
                    send_chat_message_to_user(
                        username,
                        "Created new group and moved to it!".to_owned(),
                    ),
                );
                proof {
                    assert(two =~= one.push(OutboundView { to: uv, message: MessageView::Joined(gv) }));
                    assert(outs.deep_view() =~= two.push(
                        server_chat_to(uv, "Created new group and moved to it!"@),
                    ));
                }
                outs
            },
            _ => no_out(),
        }
    }

    /// Apply a kick request: only the group's member at index 0 may
    /// kick; the target must hold a connection; then the target leaves
    /// the group and is told so. Any other inbound variant is ignored.
    pub fn kick_user(&mut self, message: Message) -> (r: Vec<Outbound>)
        requires
            old(self)@.inv(),
        ensures
            final(self)@.inv(),
            match message@ {
                MessageView::KickUser(f, g, t) => (final(self)@, r.deep_view()) == spec_kick_user(
                    old(self)@,
                    f,
                    g,
                    t,
                ),
                _ => final(self)@ == old(self)@ && r.deep_view() == Seq::<OutboundView>::empty(),
            },
    {
        match message {
            Message::KickUser(from_user, chat_name, target) => {
                let ghost fv = from_user@;
                let ghost gv = chat_name@;
                let ghost tv = target@;
                let gi = match self.find_group(&chat_name) {
                    Some(gi) => gi,
                    None => {
                        return one_out(failure_message(from_user, "No such chat".to_owned()));
                    },
                };
                proof {
                    lemma_group_index_is(self@, gv, gi as int);
                }
                let admin_holds = self.groups[gi].members.len() > 0 && self.groups[gi].members[0]
                    == from_user;
                if !admin_holds {
                    return one_out(failure_message(from_user, "Not admin in this chat".to_owned()));
                }
                if !contains_user(&self.connections, &target) {
                    return one_out(
                        failure_message(from_user, "No such user in this chat".to_owned()),
                    );
                }
                let mut entry = self.groups.remove(gi);
                remove_member(&mut entry.members, &target);
                let ghost entry_view = entry@;
                self.groups.insert(gi, entry);
                proof {
                    assert(self@.groups =~= old(self)@.groups.update(gi as int, entry_view));
                    assert(entry_view =~= GroupView {
                        name: gv,
                        members: remove_user(old(self)@.members_of(gv), tv),
                    });
                    lemma_remove_user(old(self)@.members_of(gv), tv);
                    assert(self@.inv());
                }
                let mut outs = one_out(
                    Outbound {
                        to: target.clone(),
                        message: Message::Logout("".to_owned(), "".to_owned()),
                    },
                );
                let ghost one = outs.deep_view();
                outs.push(send_chat_message_to_user(target, "Kicked from chat!".to_owned()));
                proof {
                    assert(outs.deep_view() =~= one.push(server_chat_to(tv, "Kicked from chat!"@)));
                }
                outs
            },
            _ => no_out(),
        }
    }

    /// One dispatcher step: apply the inbound message's rule to the
    /// registries and hand back the replies to write. Messages arrive
    /// here in FIFO order from all connections, which serializes every
    /// registry change.
    pub fn dispatch(&mut self, message: Message) -> (r: Vec<Outbound>)
        requires
            old(self)@.inv(),
        ensures
            final(self)@.inv(),
            (final(self)@, r.deep_view()) == spec_dispatch(old(self)@, message@),
    {
        match message {
            Message::ListGroups(username) => {
                let listing = self.groups_list();
                one_out(send_chat_message_to_user(username, listing))
            },
            Message::ListUsers(a, b) => self.list_users(Message::ListUsers(a, b)),
            Message::Login(a, b) => self.login(Message::Login(a, b)),
            Message::ChatMessage(a, b, c) => self.chat_message(Message::ChatMessage(a, b, c)),
            Message::PrivateMessage(a, b, c) => self.private_message(
                Message::PrivateMessage(a, b, c),
            ),
            Message::Logout(a, b) => self.logout(Message::Logout(a, b)),
            Message::NewChat(a, b) => self.create_group(Message::NewChat(a, b)),
            Message::KickUser(a, b, c) => self.kick_user(Message::KickUser(a, b, c)),
            Message::ConnectionTermination(u) => self.terminate_connection(u),
            Message::InitUser(_) => no_out(),
            Message::Joined(_) => no_out(),
            Message::Failure(_) => no_out(),
            Message::TerminateProgram => no_out(),
        }
    }
}

/// Creating a group makes its creator the member at index 0 — the
/// administrator — and until membership changes again a kick in that
/// group attempted by anyone else fails with the not-admin error and
/// changes no state at all.
pub proof fn lemma_creator_is_admin(
    s: StateView,
    u: Seq<char>,
    g: Seq<char>,
    v: Seq<char>,
    t: Seq<char>,
)
    requires
        s.inv(),
        !s.has_group(g),
        v != u,
    ensures
        ({
            let (s2, _) = spec_create_group(s, u, g);
            &&& s2.inv()
            &&& s2.has_group(g)
            &&& s2.members_of(g) == seq![u]
            &&& spec_kick_user(s2, v, g, t) == (s2, seq![fail_to(v, "Not admin in this chat"@)])
        }),
{
    let (s2, _) = spec_create_group(s, u, g);
    let cleared = remove_user_groups(s.groups, u);
    let last = s2.groups.len() - 1;
    assert(s2.inv()) by {
        assert forall|i: int, j: int| 0 <= i < j < s2.groups.len() implies s2.groups[i].name
            != s2.groups[j].name by {
            if j == last {
                assert(cleared[i].name == s.groups[i].name);
                if s.groups[i].name == g {
                    assert(s.has_group(g));
                }
            } else {
                assert(cleared[i].name == s.groups[i].name);
                assert(cleared[j].name == s.groups[j].name);
            }
        }
        assert forall|k: int| 0 <= k < s2.groups.len() implies unique(
            #[trigger] s2.groups[k].members,
        ) by {
            if k < last {
                lemma_remove_user(s.groups[k].members, u);
            }
        }
    }
    assert(s2.groups[last].name == g);
    lemma_group_index_is(s2, g, last);
    assert(s2.members_of(g) == seq![u]);
}

/// A reply list of exactly one message.
fn one_out(out: Outbound) -> (r: Vec<Outbound>)
    ensures
        r.deep_view() == seq![out@],
{
    let ghost ov = out@;
    let mut v: Vec<Outbound> = Vec::new();
    v.push(out);
    proof {
        assert(v.deep_view() =~= seq![ov]);
    }
    v
}

/// An empty reply list.
fn no_out() -> (r: Vec<Outbound>)
    ensures
        r.deep_view() == Seq::<OutboundView>::empty(),
{
    let v: Vec<Outbound> = Vec::new();
    proof {
        assert(v.deep_view() =~= Seq::<OutboundView>::empty());
    }
    v
}

/// A server-authored chat line addressed to one user, ready to send.
pub fn send_chat_message_to_user(username: String, contents: String) -> (r: Outbound)
    ensures
        r@ == server_chat_to(username@, contents@),
{
    Outbound {
        to: username,
        message: Message::ChatMessage("Server".to_owned(), "(SERVER)".to_owned(), contents),
    }
}

/// An error reply addressed to the user whose request failed, ready to
/// send.
pub fn failure_message(username: String, contents: String) -> (r: Outbound)
    ensures
        r@ == fail_to(username@, contents@),
{
    Outbound { to: username, message: Message::Failure(contents) }
}

/// Check a connection's first frame: only an identify message naming
/// anyone but the reserved "Server" passes the handshake.
pub fn handshake(message: Message) -> (r: Option<String>)
    ensures
        match message@ {
            MessageView::InitUser(name) => if name != "Server"@ {
                r matches Some(u) && u@ == name
            } else {
                r is None
            },
            _ => r is None,
        },
{
    match message {
        Message::InitUser(username) => {
            if username == "Server".to_owned() {
                None
            } else {
                Some(username)
            }
        },
        _ => None,
    }
}

} // verus!
