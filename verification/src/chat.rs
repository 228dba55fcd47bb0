//! The chat coordinator: the registry of live sessions, username
//! uniqueness, and message fan-out.
//!
//! Every mutation of the shared state goes through [`ChatServer`]; a caller
//! serialises those operations (one lock around the whole structure).  Each
//! session owns an ordered outbound queue that its writer alone consumes;
//! broadcasting appends to every live session's queue.

use vstd::prelude::*;

use crate::messages::{ClientIdUsername, ClientMessage, ClientMsgSpec, EntrySpec, ServerMessage, ServerMsgSpec};

verus! {

/// The mathematical value of a [`ChatClient`].
#[verifier::ext_equal]
pub struct ClientSpec {
    /// The session's identifier.
    pub client_id: i64,
    /// The session's registered display name, if any.
    pub name: Option<Seq<char>>,
    /// The messages queued for the session's writer, oldest first.
    pub outbound: Seq<ServerMsgSpec>,
}

/// One live session: its identity and its outbound delivery queue.
pub struct ChatClient {
    /// The session's registered display name, if any.
    pub name: Option<String>,
    /// The session's unique identifier.
    pub client_id: i64,
    /// The ordered queue of messages awaiting the session's writer.
    outbound: Vec<ServerMessage>,
}

impl View for ChatClient {
    type V = ClientSpec;

    closed spec fn view(&self) -> ClientSpec {
        ClientSpec {
            client_id: self.client_id,
            name: match self.name {
                Some(ref n) => Some(n@),
                None => None,
            },
            outbound: self.outbound@.map(|i: int, m: ServerMessage| m@),
        }
    }
}

/// The mathematical value of a [`ChatServer`]: the live sessions in
/// registration order and the set of taken usernames.
#[verifier::ext_equal]
pub struct ServerView {
    /// The live sessions, in the order they joined.
    pub clients: Seq<ClientSpec>,
    /// The currently registered usernames.
    pub usernames: Seq<Seq<char>>,
}

/// The shared registry of all live sessions.
pub struct ChatServer {
    clients: Vec<ChatClient>,
    client_usernames: Vec<String>,
}

impl View for ChatServer {
    type V = ServerView;

    closed spec fn view(&self) -> ServerView {
        ServerView {
            clients: self.clients@.map(|i: int, c: ChatClient| c@),
            usernames: self.client_usernames@.map(|i: int, u: String| u@),
        }
    }
}

/// Whether some live session has the identifier.
pub open spec fn has_client(v: ServerView, id: i64) -> bool {
    exists|i: int| 0 <= i < v.clients.len() && v.clients[i].client_id == id
}

/// The index of the live session with the identifier.  With a well-formed
/// registry the index is unique.
pub open spec fn client_idx(v: ServerView, id: i64) -> int {
    choose|i: int| 0 <= i < v.clients.len() && v.clients[i].client_id == id
}

/// Whether the name occurs in the list of registered usernames.
pub open spec fn name_taken(us: Seq<Seq<char>>, n: Seq<char>) -> bool {
    exists|j: int| 0 <= j < us.len() && us[j] == n
}

/// The index of the name in the list of registered usernames.  With
/// pairwise distinct usernames the index is unique.
pub open spec fn name_idx(us: Seq<Seq<char>>, n: Seq<char>) -> int {
    choose|j: int| 0 <= j < us.len() && us[j] == n
}

/// Whether the name is currently registered.
pub open spec fn taken(v: ServerView, n: Seq<char>) -> bool {
    name_taken(v.usernames, n)
}

/// The index of the name in the registered set.  With a well-formed
/// registry the index is unique.
pub open spec fn username_idx(v: ServerView, n: Seq<char>) -> int {
    name_idx(v.usernames, n)
}

/// The names of a list of usernames, as character sequences.
pub open spec fn names_of(us: Seq<String>) -> Seq<Seq<char>> {
    us.map(|i: int, u: String| u@)
}

/// A session after one more message was queued on its outbound channel.
pub open spec fn with_msg(c: ClientSpec, m: ServerMsgSpec) -> ClientSpec {
    ClientSpec { client_id: c.client_id, name: c.name, outbound: c.outbound.push(m) }
}

/// Every session after a broadcast of the message, in registry order.
pub open spec fn broadcast_views(cs: Seq<ClientSpec>, m: ServerMsgSpec) -> Seq<ClientSpec> {
    cs.map(|i: int, c: ClientSpec| with_msg(c, m))
}

/// How a chat line from session `id` changes the registry: the line is
/// broadcast to every live session, carrying the sender's identifier, and
/// nothing else changes.
pub open spec fn text_step(pre: ServerView, post: ServerView, id: i64, message: Seq<char>) -> bool {
    &&& post.usernames == pre.usernames
    &&& post.clients == broadcast_views(
        pre.clients,
        ServerMsgSpec::TextMessage { message, client_id: id },
    )
}

/// How a registration request by session `id` for `name` changes the
/// registry, evaluated as one atomic unit.  When the session already bears
/// the name, nothing changes and nothing is sent.  When another session
/// holds the name, only the requester is sent a rejection.  Otherwise the
/// session's previous name, if any, is released, the new name is taken and
/// set, and the registration is broadcast to every session.
pub open spec fn register_step(pre: ServerView, post: ServerView, id: i64, name: Seq<char>) -> bool {
    let k = client_idx(pre, id);
    if pre.clients[k].name == Some(name) {
        post == pre
    } else if taken(pre, name) {
        &&& post.usernames == pre.usernames
        &&& post.clients == pre.clients.update(
            k,
            with_msg(pre.clients[k], ServerMsgSpec::UsernameInUse { name }),
        )
    } else {
        let renamed = ClientSpec {
            client_id: pre.clients[k].client_id,
            name: Some(name),
            outbound: pre.clients[k].outbound,
        };
        let released = match pre.clients[k].name {
            Some(p) => pre.usernames.remove(username_idx(pre, p)),
            None => pre.usernames,
        };
        &&& post.usernames == released.push(name)
        &&& post.clients == broadcast_views(
            pre.clients.update(k, renamed),
            ServerMsgSpec::UsernameRegistration { name, client_id: id },
        )
    }
}

/// How a session's departure changes the registry: the session is removed
/// and its username, if it had one, is released; a session that was never
/// registered changes nothing.
pub open spec fn leave_step(pre: ServerView, post: ServerView, id: i64) -> bool {
    if has_client(pre, id) {
        let k = client_idx(pre, id);
        &&& post.clients == pre.clients.remove(k)
        &&& match pre.clients[k].name {
            Some(n) => post.usernames == pre.usernames.remove(username_idx(pre, n)),
            None => post.usernames == pre.usernames,
        }
    } else {
        post == pre
    }
}

/// The roster visible to a joining session: every named session, in
/// registry order; unnamed sessions are omitted.
pub open spec fn roster_of(cs: Seq<ClientSpec>) -> Seq<EntrySpec>
    decreases cs.len(),
{
    if cs.len() == 0 {
        Seq::empty()
    } else {
        let rest = roster_of(cs.drop_first());
        match cs[0].name {
            Some(n) => seq![EntrySpec { client_id: cs[0].client_id, username: n }] + rest,
            None => rest,
        }
    }
}

/// Whether the registered usernames are pairwise distinct.
pub open spec fn usernames_distinct(us: Seq<Seq<char>>) -> bool {
    forall|i: int, j: int| 0 <= i < j < us.len() ==> us[i] != us[j]
}

/// Whether some live session bears the name.
pub open spec fn session_named(v: ServerView, n: Seq<char>) -> bool {
    exists|i: int| 0 <= i < v.clients.len() && v.clients[i].name == Some(n)
}

/// The registry invariant: identifiers are unique; a username is registered
/// exactly when exactly one live session bears it.
pub open spec fn wf(v: ServerView) -> bool {
    &&& forall|i: int, j: int|
        0 <= i < j < v.clients.len() ==> v.clients[i].client_id != v.clients[j].client_id
    &&& usernames_distinct(v.usernames)
    &&& forall|i: int, j: int|
        #![trigger v.clients[i].name, v.clients[j].name]
        0 <= i < j < v.clients.len() ==> (v.clients[i].name is Some ==> v.clients[i].name
            != v.clients[j].name)
    &&& forall|i: int|
        0 <= i < v.clients.len() ==> (#[trigger] v.clients[i].name matches Some(n) ==> taken(
            v,
            n,
        ))
    &&& forall|j: int|
        0 <= j < v.usernames.len() ==> session_named(v, #[trigger] v.usernames[j])
}

/// Relies on rand::random: it draws an arbitrary value of the type; nothing
/// is promised of the value.
pub assume_specification<T>[ rand::random::<T> ]() -> (r: T)
    where
        rand::distributions::Standard: rand::distributions::Distribution<T>,
;

impl Clone for ClientIdUsername {
    /// Clones an entry, preserving its value.
    fn clone(&self) -> (r: Self)
        ensures
            r == *self,
    {
        ClientIdUsername { client_id: self.client_id, username: self.username.clone() }
    }
}

impl Clone for ServerMessage {
    /// Clones a message, preserving its mathematical value.
    fn clone(&self) -> (r: Self)
        ensures
            r@ == self@,
    {
        match self {
            ServerMessage::TextMessage { message, client_id } => ServerMessage::TextMessage {
                message: message.clone(),
                client_id: *client_id,
            },
            ServerMessage::UserHangup { client_id } => ServerMessage::UserHangup {
                client_id: *client_id,
            },
            ServerMessage::UsernameRegistration { name, client_id } => {
                ServerMessage::UsernameRegistration { name: name.clone(), client_id: *client_id }
            },
            ServerMessage::ClientAcknowledgement { client_id } => {
                ServerMessage::ClientAcknowledgement { client_id: *client_id }
            },
            ServerMessage::UsernameInUse { name } => ServerMessage::UsernameInUse {
                name: name.clone(),
            },
            ServerMessage::ClientIdUsernameMappings { client_id_usernames } => {
                let mut entries: Vec<ClientIdUsername> = Vec::new();
                let mut i: usize = 0;
                while i < client_id_usernames.len()
                    invariant
                        i <= client_id_usernames@.len(),
                        entries@.len() == i,
                        forall|k: int| 0 <= k < i ==> #[trigger] entries@[k]@
                            == client_id_usernames@[k]@,
                    decreases client_id_usernames@.len() - i,
                {
                    let e = client_id_usernames[i].clone();
                    assert(e@ == client_id_usernames@[i as int]@);
                    entries.push(e);
                    i += 1;
                }
                proof {
                    assert(entries@.map(|k: int, e: ClientIdUsername| e@)
                        =~= client_id_usernames@.map(|k: int, e: ClientIdUsername| e@));
                }
                ServerMessage::ClientIdUsernameMappings { client_id_usernames: entries }
            },
        }
    }
}

impl ChatClient {
    /// Creates a session with the identifier, unnamed and with an empty
    /// outbound queue.
    pub fn new(client_id: i64) -> (c: ChatClient)
        ensures
            c@ == (ClientSpec { client_id, name: None, outbound: Seq::empty() }),
    {
        let c = ChatClient { name: None, client_id, outbound: Vec::new() };
        proof {
            assert(c@ =~= ClientSpec { client_id, name: None, outbound: Seq::empty() });
        }
        c
    }

    /// Creates a session with a freshly drawn random 64-bit identifier,
    /// unnamed and with an empty outbound queue.  Identifiers are not
    /// checked for collisions: they are unique enough in practice.
    pub fn with_random_id() -> (c: ChatClient)
        ensures
            c@.name is None,
            c@.outbound == Seq::<ServerMsgSpec>::empty(),
    {
        let client_id: i64 = rand::random();
        ChatClient::new(client_id)
    }

    /// Queues a message on the session's outbound channel.
    pub fn send_msg(&mut self, event: ServerMessage)
        ensures
            final(self)@ == (ClientSpec {
                client_id: old(self)@.client_id,
                name: old(self)@.name,
                outbound: old(self)@.outbound.push(event@),
            }),
    {
        let ghost before = self@;
        self.outbound.push(event);
        proof {
            assert(self@.outbound =~= before.outbound.push(event@));
            assert(self@ =~= ClientSpec {
                client_id: before.client_id,
                name: before.name,
                outbound: before.outbound.push(event@),
            });
        }
    }
}

impl ChatServer {
    /// Creates an empty registry: no sessions, no taken usernames.
    pub fn new() -> (s: ChatServer)
        ensures
            s@ == (ServerView { clients: Seq::empty(), usernames: Seq::empty() }),
            wf(s@),
    {
        let s = ChatServer { clients: Vec::new(), client_usernames: Vec::new() };
        proof {
            assert(s@ =~= ServerView { clients: Seq::empty(), usernames: Seq::empty() });
        }
        s
    }

    /// Registers a username: fails exactly when the name is already taken,
    /// and otherwise adds it to the taken set.  The first registrant wins;
    /// the comparison is exact and case-sensitive.
    pub fn register_username(&mut self, username: &String) -> (r: bool)
        requires
            usernames_distinct(old(self)@.usernames),
        ensures
            r == !taken(old(self)@, username@),
            r ==> final(self)@.usernames == old(self)@.usernames.push(username@),
            !r ==> final(self)@.usernames == old(self)@.usernames,
            final(self)@.clients == old(self)@.clients,
            usernames_distinct(final(self)@.usernames),
    {
        let n = self.client_usernames.len();
        let mut i: usize = 0;
        while i < n
            invariant
                n == self.client_usernames@.len(),
                i <= n,
                self@ == old(self)@,
                usernames_distinct(old(self)@.usernames),
                forall|j: int| 0 <= j < i ==> old(self)@.usernames[j] != username@,
            decreases n - i,
        {
            if self.client_usernames[i].eq(username) {
                proof {
                    assert(old(self)@.usernames[i as int] == username@);
                }
                return false;
            }
            i += 1;
        }
        assert(!taken(old(self)@, username@));
        self.client_usernames.push(username.clone());
        proof {
            assert(self@.usernames =~= old(self)@.usernames.push(username@));
            assert(self@.clients =~= old(self)@.clients);
        }
        true
    }

    /// Broadcasts a message: appends it to every live session's outbound
    /// queue, in registry order.  The registry itself, each session's
    /// identity and name, and the taken usernames are untouched.
    pub fn dispatch_message(&mut self, msg: ServerMessage)
        ensures
            final(self)@.usernames == old(self)@.usernames,
            final(self)@.clients == broadcast_views(old(self)@.clients, msg@),
    {
        let n = self.clients.len();
        let mut i: usize = 0;
        while i < n
            invariant
                n == self.clients@.len(),
                i <= n,
                self@.usernames == old(self)@.usernames,
                self@.clients.len() == old(self)@.clients.len(),
                n == old(self)@.clients.len(),
                forall|k: int|
                    0 <= k < i ==> self@.clients[k] == with_msg(
                        old(self)@.clients[k],
                        msg@,
                    ),
                forall|k: int| i <= k < n ==> self@.clients[k] == old(self)@.clients[k],
            decreases n - i,
        {
            let ghost pre = self.clients@;
            let ghost prev = self@;
            let mut c = self.clients.remove(i);
            proof {
                assert(c@ == prev.clients[i as int]);
            }
            c.send_msg(msg.clone());
            let ghost cv = c@;
            self.clients.insert(i, c);
            proof {
                assert(cv == with_msg(prev.clients[i as int], msg@));
                assert(self.clients@ =~= pre.update(i as int, self.clients@[i as int]));
                assert(self.clients@[i as int]@ == cv);
                assert forall|k: int| 0 <= k < n implies self@.clients[k] == (if k == i as int {
                    with_msg(prev.clients[k], msg@)
                } else {
                    prev.clients[k]
                }) by {
                    assert(self@.clients[k] == self.clients@[k]@);
                    if k != i as int {
                        assert(self.clients@[k] == pre[k]);
                        assert(prev.clients[k] == pre[k]@);
                    }
                }
            }
            i += 1;
        }
        proof {
            assert(self@.clients =~= broadcast_views(old(self)@.clients, msg@));
        }
    }

    /// Admits a session: greets it with an acknowledgement of its identifier
    /// and with the roster of every currently named session, then inserts it
    /// into the registry.  Only the joining session sees the greeting.
    #[verifier::loop_isolation(false)]
    pub fn add_client(&mut self, client: ChatClient)
        requires
            wf(old(self)@),
            client@.name is None,
            !has_client(old(self)@, client@.client_id),
        ensures
            wf(final(self)@),
            final(self)@.usernames == old(self)@.usernames,
            final(self)@.clients == old(self)@.clients.push(
                ClientSpec {
                    client_id: client@.client_id,
                    name: None,
                    outbound: client@.outbound + seq![
                        ServerMsgSpec::ClientAcknowledgement { client_id: client@.client_id },
                        ServerMsgSpec::ClientIdUsernameMappings {
                            client_id_usernames: roster_of(old(self)@.clients),
                        },
                    ],
                },
            ),
    {
        let ghost c0 = client@;
        let mut client = client;
        let client_id = client.client_id;
        let ack_msg = ServerMessage::ClientAcknowledgement { client_id };
        client.send_msg(ack_msg);
        let mut cid_usernames: Vec<ClientIdUsername> = Vec::new();
        let n = self.clients.len();
        let mut i: usize = 0;
        while i < n
            invariant
                i <= n,
                self@ == old(self)@,
                cid_usernames@.map(|k: int, e: ClientIdUsername| e@) == roster_of(
                    self@.clients.take(i as int),
                ),
            decreases n - i,
        {
            let ghost prevr = cid_usernames@.map(|k: int, e: ClientIdUsername| e@);
            proof {
                lemma_roster_snoc(self@.clients, i as int);
            }
            match &self.clients[i].name {
                Some(u) => {
                    let e = ClientIdUsername {
                        client_id: self.clients[i].client_id,
                        username: u.clone(),
                    };
                    proof {
                        assert(self@.clients[i as int].name == Some(u@));
                        assert(e@ == EntrySpec {
                            client_id: self@.clients[i as int].client_id,
                            username: u@,
                        });
                    }
                    cid_usernames.push(e);
                    proof {
                        assert(cid_usernames@.map(|k: int, e: ClientIdUsername| e@) =~= prevr.push(
                            e@,
                        ));
                        assert(prevr.push(e@) =~= roster_of(self@.clients.take(i + 1)));
                    }
                },
                None => {
                    proof {
                        assert(self@.clients[i as int].name is None);
                        assert(roster_of(self@.clients.take(i + 1)) =~= prevr);
                    }
                },
            }
            i += 1;
        }
        proof {
            assert(self@.clients.take(n as int) =~= self@.clients);
        }
        let cid_username_msg = ServerMessage::ClientIdUsernameMappings {
            client_id_usernames: cid_usernames,
        };
        proof {
            assert(cid_username_msg@ == ServerMsgSpec::ClientIdUsernameMappings {
                client_id_usernames: roster_of(old(self)@.clients),
            });
        }
        client.send_msg(cid_username_msg);
        let ghost joined = client@;
        proof {
            assert(joined.outbound =~= c0.outbound + seq![
                ServerMsgSpec::ClientAcknowledgement { client_id: c0.client_id },
                ServerMsgSpec::ClientIdUsernameMappings {
                    client_id_usernames: roster_of(old(self)@.clients),
                },
            ]);
            assert(joined =~= ClientSpec {
                client_id: c0.client_id,
                name: None,
                outbound: joined.outbound,
            });
        }
        self.clients.push(client);
        proof {
            assert(self@.clients =~= old(self)@.clients.push(joined));
            assert(self@.usernames =~= old(self)@.usernames);
            lemma_wf_push_unnamed(old(self)@, joined);
        }
    }

    /// Removes a session from the registry; when it had a username, the
    /// name is released and becomes available again.  A session that is not
    /// registered leaves the state unchanged.
    #[verifier::loop_isolation(false)]
    pub fn rm_client(&mut self, client: &ChatClient)
        requires
            wf(old(self)@),
        ensures
            wf(final(self)@),
            !has_client(final(self)@, client@.client_id),
            leave_step(old(self)@, final(self)@, client@.client_id),
            !has_client(old(self)@, client@.client_id) ==> final(self)@ == old(self)@,
            has_client(old(self)@, client@.client_id) ==> ({
                let k = client_idx(old(self)@, client@.client_id);
                &&& final(self)@.clients == old(self)@.clients.remove(k)
                &&& match old(self)@.clients[k].name {
                    Some(n) => {
                        &&& final(self)@.usernames == old(self)@.usernames.remove(
                            username_idx(old(self)@, n),
                        )
                        &&& !taken(final(self)@, n)
                        &&& forall|m: Seq<char>|
                            m != n ==> taken(final(self)@, m) == taken(old(self)@, m)
                    },
                    None => final(self)@.usernames == old(self)@.usernames,
                }
            }),
    {
        let n = self.clients.len();
        let mut i: usize = 0;
        while i < n
            invariant
                i <= n,
                self@ == old(self)@,
                forall|k: int| 0 <= k < i ==> old(self)@.clients[k].client_id != client@.client_id,
            decreases n - i,
        {
            if self.clients[i].client_id == client.client_id {
                proof {
                    assert(old(self)@.clients[i as int].client_id == client@.client_id);
                    assert(has_client(old(self)@, client@.client_id));
                    let k = client_idx(old(self)@, client@.client_id);
                    assert(0 <= k < old(self)@.clients.len() && old(self)@.clients[k].client_id
                        == client@.client_id);
                    assert(k == i as int);
                    lemma_wf_after_leave(old(self)@, i as int);
                }
                let removed = self.clients.remove(i);
                proof {
                    assert(removed@ == old(self)@.clients[i as int]);
                    assert(self@.clients =~= old(self)@.clients.remove(i as int));
                    assert(self@.usernames == old(self)@.usernames);
                    assert forall|ii: int| 0 <= ii < self@.clients.len()
                        implies #[trigger] self@.clients[ii].client_id != client@.client_id by {
                        let oi = if ii < i as int {
                            ii
                        } else {
                            ii + 1
                        };
                        assert(self@.clients[ii] == old(self)@.clients[oi]);
                    }
                }
                match &removed.name {
                    Some(u) => {
                        proof {
                            assert(old(self)@.clients[i as int].name == Some(u@));
                            assert(taken(old(self)@, u@));
                            let j0 = username_idx(old(self)@, u@);
                            assert(0 <= j0 < old(self)@.usernames.len() && old(
                                self,
                            )@.usernames[j0] == u@);
                        }
                        let m = self.client_usernames.len();
                        let mut j: usize = 0;
                        while j < m
                            invariant
                                j <= m,
                                self@.usernames == old(self)@.usernames,
                                self@.clients == old(self)@.clients.remove(i as int),
                                forall|jj: int|
                                    0 <= jj < j ==> old(self)@.usernames[jj] != u@,
                            decreases m - j,
                        {
                            if self.client_usernames[j].eq(u) {
                                proof {
                                    assert(old(self)@.usernames[j as int] == u@);
                                    assert(j as int == username_idx(old(self)@, u@));
                                }
                                self.client_usernames.remove(j);
                                proof {
                                    assert(self@.usernames =~= old(self)@.usernames.remove(
                                        j as int,
                                    ));
                                }
                                return ;
                            }
                            j += 1;
                        }
                        proof {
                            assert(!taken(old(self)@, u@));
                            assert(false);
                        }
                    },
                    None => {},
                }
                return ;
            }
            i += 1;
        }
        proof {
            assert(!has_client(old(self)@, client@.client_id));
        }
    }

    /// Whether a session with the identifier is currently registered.
    #[verifier::loop_isolation(false)]
    pub fn has_client_with_id(&self, client_id: i64) -> (r: bool)
        ensures
            r == has_client(self@, client_id),
    {
        let n = self.clients.len();
        let mut i: usize = 0;
        while i < n
            invariant
                i <= n,
                n == self.clients@.len(),
                forall|k: int| 0 <= k < i ==> self@.clients[k].client_id != client_id,
            decreases n - i,
        {
            if self.clients[i].client_id == client_id {
                proof {
                    assert(self@.clients[i as int].client_id == client_id);
                }
                return true;
            }
            i += 1;
        }
        false
    }

    /// Hands the session's queued messages to its writer: the queue is
    /// returned in order and left empty; nothing else changes.  An unknown
    /// identifier returns nothing and changes nothing.
    #[verifier::loop_isolation(false)]
    pub fn drain_outbound(&mut self, client_id: i64) -> (msgs: Vec<ServerMessage>)
        requires
            wf(old(self)@),
        ensures
            wf(final(self)@),
            has_client(old(self)@, client_id) ==> ({
                let k = client_idx(old(self)@, client_id);
                &&& msgs@.map(|i: int, m: ServerMessage| m@) == old(self)@.clients[k].outbound
                &&& final(self)@.usernames == old(self)@.usernames
                &&& final(self)@.clients == old(self)@.clients.update(
                    k,
                    ClientSpec {
                        client_id: old(self)@.clients[k].client_id,
                        name: old(self)@.clients[k].name,
                        outbound: Seq::empty(),
                    },
                )
            }),
            !has_client(old(self)@, client_id) ==> final(self)@ == old(self)@ && msgs@.len() == 0,
    {
        if !self.has_client_with_id(client_id) {
            return Vec::new();
        }
        let k = self.find_client(client_id);
        let ghost kk = k as int;
        let ghost vecs0 = self.clients@;
        let c = self.clients.remove(k);
        let ChatClient { name, client_id: cid, outbound } = c;
        let emptied = ChatClient { name, client_id: cid, outbound: Vec::new() };
        let ghost ev = emptied@;
        proof {
            assert(ev =~= ClientSpec {
                client_id: old(self)@.clients[kk].client_id,
                name: old(self)@.clients[kk].name,
                outbound: Seq::empty(),
            });
        }
        self.clients.insert(k, emptied);
        proof {
            assert(self.clients@ =~= vecs0.update(kk, self.clients@[kk]));
            assert(self.clients@[kk]@ == ev);
            assert forall|ii: int|
                0 <= ii < self@.clients.len() implies self@.clients[ii] == old(
                self,
            )@.clients.update(kk, ev)[ii] by {
                assert(self@.clients[ii] == self.clients@[ii]@);
                if ii != kk {
                    assert(self.clients@[ii] == vecs0[ii]);
                    assert(vecs0[ii]@ == old(self)@.clients[ii]);
                }
            }
            assert(self@.clients =~= old(self)@.clients.update(kk, ev));
            assert(self@.usernames =~= old(self)@.usernames);
            lemma_wf_same_shape(old(self)@, self@);
        }
        outbound
    }

    /// The position of the session with the identifier in the registry.
    #[verifier::loop_isolation(false)]
    fn find_client(&self, client_id: i64) -> (k: usize)
        requires
            wf(self@),
            has_client(self@, client_id),
        ensures
            k as int == client_idx(self@, client_id),
            k < self@.clients.len(),
            self@.clients[k as int].client_id == client_id,
    {
        let n = self.clients.len();
        let mut i: usize = 0;
        while i < n
            invariant
                i <= n,
                forall|k: int| 0 <= k < i ==> self@.clients[k].client_id != client_id,
            decreases n - i,
        {
            if self.clients[i].client_id == client_id {
                proof {
                    assert(self@.clients[i as int].client_id == client_id);
                    assert(has_client(self@, client_id));
                    let k = client_idx(self@, client_id);
                    assert(0 <= k < self@.clients.len() && self@.clients[k].client_id
                        == client_id);
                    if k < i as int {
                        assert(self@.clients[k].client_id != self@.clients[i as int].client_id);
                    } else if k > i as int {
                        assert(self@.clients[i as int].client_id != self@.clients[k].client_id);
                    }
                }
                return i;
            }
            i += 1;
        }
        proof {
            assert(!has_client(self@, client_id));
            assert(false);
        }
        0
    }

    /// Handles one decoded client message as an atomic unit: a chat line is
    /// broadcast with the sender's identifier; a registration request runs
    /// the three-outcome protocol of [`register_step`].
    #[verifier::loop_isolation(false)]
    pub fn handle_client_msg(&mut self, msg: ClientMessage, client_id: i64)
        requires
            wf(old(self)@),
            has_client(old(self)@, client_id),
        ensures
            wf(final(self)@),
            match msg@ {
                ClientMsgSpec::TextMessage { message } => text_step(
                    old(self)@,
                    final(self)@,
                    client_id,
                    message,
                ),
                ClientMsgSpec::UsernameRegistration { name } => register_step(
                    old(self)@,
                    final(self)@,
                    client_id,
                    name,
                ),
            },
    {
        match msg {
            ClientMessage::TextMessage { message } => {
                self.dispatch_message(ServerMessage::TextMessage { message, client_id });
                proof {
                    lemma_wf_broadcast(
                        old(self)@,
                        ServerMsgSpec::TextMessage { message: message@, client_id },
                    );
                    assert(self@ =~= ServerView {
                        clients: self@.clients,
                        usernames: self@.usernames,
                    });
                }
            },
            ClientMessage::UsernameRegistration { name } => {
                let k = self.find_client(client_id);
                let ghost kk = k as int;
                let same = match &self.clients[k].name {
                    Some(u) => u.eq(&name),
                    None => false,
                };
                if same {
                    proof {
                        assert(old(self)@.clients[kk].name == Some(name@));
                    }
                    return ;
                }
                proof {
                    assert(old(self)@.clients[kk].name != Some(name@));
                }
                if !self.register_username(&name) {
                    let mut c = self.clients.remove(k);
                    c.send_msg(ServerMessage::UsernameInUse { name });
                    let ghost cv = c@;
                    self.clients.insert(k, c);
                    proof {
                        assert(taken(old(self)@, name@));
                        assert(cv == with_msg(
                            old(self)@.clients[kk],
                            ServerMsgSpec::UsernameInUse { name: name@ },
                        ));
                        assert(self@.clients =~= old(self)@.clients.update(kk, cv));
                        assert(self@.usernames == old(self)@.usernames);
                        lemma_wf_unicast(
                            old(self)@,
                            kk,
                            ServerMsgSpec::UsernameInUse { name: name@ },
                        );
                        assert(self@ =~= ServerView {
                            clients: old(self)@.clients.update(kk, cv),
                            usernames: old(self)@.usernames,
                        });
                    }
                    return ;
                }
                let ghost mid1 = self@;
                proof {
                    assert(!taken(old(self)@, name@));
                    assert(mid1.usernames == old(self)@.usernames.push(name@));
                    assert(mid1.clients == old(self)@.clients);
                }
                let ghost vecs0 = self.clients@;
                let mut c = self.clients.remove(k);
                match &c.name {
                    Some(prev) => {
                        proof {
                            assert(old(self)@.clients[kk].name == Some(prev@));
                            assert(taken(old(self)@, prev@));
                            let j0 = username_idx(old(self)@, prev@);
                            assert(0 <= j0 < old(self)@.usernames.len() && old(
                                self,
                            )@.usernames[j0] == prev@);
                            assert(prev@ != name@);
                        }
                        let m = self.client_usernames.len();
                        let mut j: usize = 0;
                        let mut found = false;
                        while !found && j < m
                            invariant
                                j <= m,
                                !found ==> self@.usernames == old(self)@.usernames.push(name@),
                                !found ==> m == self.client_usernames@.len(),
                                !found ==> forall|jj: int|
                                    0 <= jj < j && jj < old(self)@.usernames.len() ==> old(
                                        self,
                                    )@.usernames[jj] != prev@,
                                found ==> self@.usernames == old(self)@.usernames.remove(
                                    username_idx(old(self)@, prev@),
                                ).push(name@),
                                self@.clients == old(self)@.clients.remove(kk),
                                self.clients@ == vecs0.remove(kk),
                            decreases m - j,
                        {
                            if self.client_usernames[j].eq(prev) {
                                proof {
                                    assert(self@.usernames[j as int] == prev@);
                                    assert(self@.usernames[self@.usernames.len() - 1] == name@);
                                    assert((j as int) < old(self)@.usernames.len());
                                    assert(old(self)@.usernames[j as int] == prev@);
                                    assert(j as int == username_idx(old(self)@, prev@));
                                }
                                let ghost usv = self.client_usernames@;
                                let ghost jr = j as int;
                                self.client_usernames.remove(j);
                                found = true;
                                j += 1;
                                proof {
                                    let pushed = old(self)@.usernames.push(name@);
                                    assert(self.client_usernames@ == usv.remove(jr));
                                    assert forall|ii: int|
                                        0 <= ii < self@.usernames.len() implies self@.usernames[ii]
                                        == pushed.remove(jr)[ii] by {
                                        assert(self@.usernames[ii] == self.client_usernames@[ii]@);
                                        if ii < jr {
                                            assert(self.client_usernames@[ii] == usv[ii]);
                                            assert(usv[ii]@ == pushed[ii]);
                                        } else {
                                            assert(self.client_usernames@[ii] == usv[ii + 1]);
                                            assert(usv[ii + 1]@ == pushed[ii + 1]);
                                        }
                                    }
                                    assert(self@.usernames =~= pushed.remove(jr));
                                    assert(self@.usernames =~= old(self)@.usernames.remove(
                                        jr,
                                    ).push(name@));
                                }
                            } else {
                                proof {
                                    assert(self@.usernames[j as int] == self.client_usernames@[
                                        j as int
                                    ]@);
                                    assert(self@.usernames[j as int] != prev@);
                                }
                                j += 1;
                            }
                        }
                        proof {
                            if !found {
                                assert(!taken(old(self)@, prev@));
                                assert(false);
                            }
                        }
                    },
                    None => {},
                }
                c.name = Some(name.clone());
                let ghost cv = c@;
                self.clients.insert(k, c);
                let ghost renamed = ClientSpec {
                    client_id: old(self)@.clients[kk].client_id,
                    name: Some(name@),
                    outbound: old(self)@.clients[kk].outbound,
                };
                let ghost released = (match old(self)@.clients[kk].name {
                    Some(p) => old(self)@.usernames.remove(username_idx(old(self)@, p)),
                    None => old(self)@.usernames,
                });
                proof {
                    assert(cv =~= renamed);
                    assert(self.clients@ =~= vecs0.update(kk, self.clients@[kk]));
                    assert(self.clients@[kk]@ == cv);
                    assert forall|ii: int|
                        0 <= ii < self@.clients.len() implies self@.clients[ii] == old(
                        self,
                    )@.clients.update(kk, renamed)[ii] by {
                        assert(self@.clients[ii] == self.clients@[ii]@);
                        if ii != kk {
                            assert(self.clients@[ii] == vecs0[ii]);
                            assert(vecs0[ii]@ == old(self)@.clients[ii]);
                        }
                    }
                    assert(self@.clients =~= old(self)@.clients.update(kk, renamed));
                    assert(self@.usernames =~= released.push(name@));
                    lemma_wf_after_register(old(self)@, kk, name@);
                    assert(wf(ServerView {
                        clients: old(self)@.clients.update(kk, renamed),
                        usernames: released.push(name@),
                    }));
                    assert(wf(self@)) by {
                        assert(self@ =~= ServerView {
                            clients: old(self)@.clients.update(kk, renamed),
                            usernames: released.push(name@),
                        });
                    }
                }
                let ghost mid2 = self@;
                self.dispatch_message(ServerMessage::UsernameRegistration { name, client_id });
                proof {
                    lemma_wf_broadcast(
                        mid2,
                        ServerMsgSpec::UsernameRegistration { name: name@, client_id },
                    );
                    assert(self@ =~= ServerView {
                        clients: self@.clients,
                        usernames: self@.usernames,
                    });
                }
            },
        }
    }
}

/// Splitting a roster after `i` sessions: the roster of the first `i + 1`
/// sessions is the roster of the first `i`, extended with session `i` when
/// it is named.
proof fn lemma_roster_snoc(cs: Seq<ClientSpec>, i: int)
    requires
        0 <= i < cs.len(),
    ensures
        roster_of(cs.take(i + 1)) == roster_of(cs.take(i)) + (match cs[i].name {
            Some(n) => seq![EntrySpec { client_id: cs[i].client_id, username: n }],
            None => Seq::<EntrySpec>::empty(),
        }),
    decreases i,
{
    let ext = match cs[i].name {
        Some(n) => seq![EntrySpec { client_id: cs[i].client_id, username: n }],
        None => Seq::<EntrySpec>::empty(),
    };
    if i == 0 {
        let t1 = cs.take(1);
        assert(t1.len() == 1 && t1[0] == cs[0]);
        assert(t1.drop_first() =~= Seq::<ClientSpec>::empty());
        assert(roster_of(Seq::<ClientSpec>::empty()) =~= Seq::<EntrySpec>::empty());
        assert(cs.take(0) =~= Seq::<ClientSpec>::empty());
        match cs[0].name {
            Some(n) => {
                assert(roster_of(t1) == seq![
                    EntrySpec { client_id: cs[0].client_id, username: n },
                ] + roster_of(t1.drop_first()));
                assert(roster_of(t1) =~= ext);
            },
            None => {
                assert(roster_of(t1) =~= ext);
            },
        }
        assert(roster_of(cs.take(0)) + ext =~= ext);
    } else {
        lemma_roster_snoc(cs.drop_first(), i - 1);
        assert(cs.take(i + 1).drop_first() =~= cs.drop_first().take(i));
        assert(cs.take(i).drop_first() =~= cs.drop_first().take(i - 1));
        assert(cs.take(i + 1)[0] == cs[0]);
        assert(cs.take(i)[0] == cs[0]);
        assert(cs.drop_first()[i - 1] == cs[i]);
        assert(roster_of(cs.take(i + 1)) =~= roster_of(cs.take(i)) + ext);
    }
}

/// Appending an unnamed session with a fresh identifier preserves the
/// registry invariant.
proof fn lemma_wf_push_unnamed(pre: ServerView, c: ClientSpec)
    requires
        wf(pre),
        c.name is None,
        !has_client(pre, c.client_id),
    ensures
        wf(ServerView { clients: pre.clients.push(c), usernames: pre.usernames }),
{
    let v = ServerView { clients: pre.clients.push(c), usernames: pre.usernames };
    assert forall|i: int, j: int| 0 <= i < j < v.clients.len() implies v.clients[i].client_id
        != v.clients[j].client_id by {
        if j == pre.clients.len() {
            assert(!(0 <= i < pre.clients.len() && pre.clients[i].client_id == c.client_id));
        }
    }
    assert forall|i: int, j: int|
        #![trigger v.clients[i].name, v.clients[j].name]
        0 <= i < j < v.clients.len() implies (v.clients[i].name is Some ==> v.clients[i].name
        != v.clients[j].name) by {
        if j < pre.clients.len() {
            assert(pre.clients[i].name == v.clients[i].name);
            assert(pre.clients[j].name == v.clients[j].name);
        } else {
            assert(v.clients[j].name is None);
        }
    }
    assert forall|i: int|
        0 <= i < v.clients.len() implies (#[trigger] v.clients[i].name matches Some(n) ==> taken(
        v,
        n,
    )) by {
        if i < pre.clients.len() && v.clients[i].name is Some {
            let n = v.clients[i].name.unwrap();
            assert(pre.clients[i].name == v.clients[i].name);
            assert(taken(pre, n));
            let j = choose|j: int| 0 <= j < pre.usernames.len() && pre.usernames[j] == n;
            assert(v.usernames[j] == n);
        }
    }
    assert forall|j: int| 0 <= j < v.usernames.len() implies session_named(
        v,
        #[trigger] v.usernames[j],
    ) by {
        assert(0 <= j < pre.usernames.len());
        assert(session_named(pre, pre.usernames[j]));
        let i = choose|i: int|
            0 <= i < pre.clients.len() && pre.clients[i].name == Some(pre.usernames[j]);
        assert(v.clients[i].name == Some(v.usernames[j]));
    }
}

/// Removing one session, and its username when it had one, preserves the
/// registry invariant, and the released name is no longer taken.
proof fn lemma_wf_after_leave(pre: ServerView, k: int)
    requires
        wf(pre),
        0 <= k < pre.clients.len(),
    ensures
        (match pre.clients[k].name {
            Some(n) => {
                let v = ServerView {
                    clients: pre.clients.remove(k),
                    usernames: pre.usernames.remove(name_idx(pre.usernames, n)),
                };
                wf(v) && !taken(v, n) && (forall|m: Seq<char>|
                    m != n ==> taken(v, m) == taken(pre, m))
            },
            None => wf(ServerView { clients: pre.clients.remove(k), usernames: pre.usernames }),
        }),
{
    let cs = pre.clients.remove(k);
    assert forall|i: int, j: int| 0 <= i < j < cs.len() implies cs[i].client_id
        != cs[j].client_id by {
        let oi = if i < k {
            i
        } else {
            i + 1
        };
        let oj = if j < k {
            j
        } else {
            j + 1
        };
        assert(cs[i] == pre.clients[oi]);
        assert(cs[j] == pre.clients[oj]);
    }
    assert forall|i: int, j: int|
        #![trigger cs[i].name, cs[j].name]
        0 <= i < j < cs.len() implies (cs[i].name is Some ==> cs[i].name != cs[j].name) by {
        let oi = if i < k {
            i
        } else {
            i + 1
        };
        let oj = if j < k {
            j
        } else {
            j + 1
        };
        assert(cs[i].name == pre.clients[oi].name);
        assert(cs[j].name == pre.clients[oj].name);
    }
    match pre.clients[k].name {
        Some(n) => {
            assert(taken(pre, n));
            let j0 = name_idx(pre.usernames, n);
            assert(0 <= j0 < pre.usernames.len() && pre.usernames[j0] == n);
            let us = pre.usernames.remove(j0);
            let v = ServerView { clients: cs, usernames: us };
            assert forall|a: int, b: int| 0 <= a < b < us.len() implies us[a] != us[b] by {
                let oa = if a < j0 {
                    a
                } else {
                    a + 1
                };
                let ob = if b < j0 {
                    b
                } else {
                    b + 1
                };
                assert(us[a] == pre.usernames[oa]);
                assert(us[b] == pre.usernames[ob]);
            }
            assert forall|j: int| 0 <= j < us.len() implies us[j] != n by {
                if j < j0 {
                    assert(us[j] == pre.usernames[j]);
                } else {
                    assert(us[j] == pre.usernames[j + 1]);
                }
            }
            assert(!taken(v, n));
            assert forall|m: Seq<char>| m != n implies taken(v, m) == taken(pre, m) by {
                if taken(pre, m) {
                    let j = name_idx(pre.usernames, m);
                    assert(pre.usernames[j] == m);
                    assert(j != j0);
                    if j < j0 {
                        assert(us[j] == m);
                    } else {
                        assert(us[j - 1] == m);
                    }
                }
                if taken(v, m) {
                    let j = name_idx(us, m);
                    if j < j0 {
                        assert(pre.usernames[j] == m);
                    } else {
                        assert(pre.usernames[j + 1] == m);
                    }
                }
            }
            assert forall|i: int|
                0 <= i < cs.len() implies (#[trigger] cs[i].name matches Some(m) ==> taken(
                v,
                m,
            )) by {
                let oi = if i < k {
                    i
                } else {
                    i + 1
                };
                assert(cs[i] == pre.clients[oi]);
                if cs[i].name is Some {
                    let m = cs[i].name.unwrap();
                    assert(taken(pre, m));
                    if oi < k {
                        assert(pre.clients[oi].name is Some && pre.clients[k].name is Some);
                        assert(pre.clients[oi].name != pre.clients[k].name);
                    } else if oi > k {
                        assert(pre.clients[k].name is Some);
                        assert(pre.clients[k].name != pre.clients[oi].name);
                    }
                    assert(m != n);
                    assert(taken(v, m));
                }
            }
            assert forall|j: int| 0 <= j < us.len() implies session_named(
                v,
                #[trigger] us[j],
            ) by {
                let oj = if j < j0 {
                    j
                } else {
                    j + 1
                };
                assert(us[j] == pre.usernames[oj]);
                assert(0 <= oj < pre.usernames.len());
                assert(session_named(pre, pre.usernames[oj]));
                let i = choose|i: int|
                    0 <= i < pre.clients.len() && pre.clients[i].name == Some(pre.usernames[oj]);
                assert(pre.usernames[oj] != n);
                assert(i != k);
                let ni = if i < k {
                    i
                } else {
                    i - 1
                };
                assert(cs[ni] == pre.clients[i]);
                assert(cs[ni].name == Some(us[j]));
                assert(session_named(v, us[j]));
            }
            assert(wf(v));
        },
        None => {
            let v = ServerView { clients: cs, usernames: pre.usernames };
            assert forall|i: int|
                0 <= i < cs.len() implies (#[trigger] cs[i].name matches Some(m) ==> taken(
                v,
                m,
            )) by {
                let oi = if i < k {
                    i
                } else {
                    i + 1
                };
                assert(cs[i] == pre.clients[oi]);
            }
            assert forall|j: int| 0 <= j < v.usernames.len() implies session_named(
                v,
                #[trigger] v.usernames[j],
            ) by {
                assert(0 <= j < pre.usernames.len());
                assert(session_named(pre, pre.usernames[j]));
                let i = choose|i: int|
                    0 <= i < pre.clients.len() && pre.clients[i].name == Some(pre.usernames[j]);
                assert(i != k);
                let ni = if i < k {
                    i
                } else {
                    i - 1
                };
                assert(cs[ni] == pre.clients[i]);
                assert(cs[ni].name == Some(v.usernames[j]));
                assert(session_named(v, v.usernames[j]));
            }
            assert(wf(v));
        },
    }
}

/// The registry invariant does not speak of outbound queues: any state with
/// the same identifiers and names, session by session, and the same
/// usernames is as well formed.
proof fn lemma_wf_same_shape(v: ServerView, w: ServerView)
    requires
        wf(v),
        w.usernames == v.usernames,
        w.clients.len() == v.clients.len(),
        forall|i: int|
            0 <= i < v.clients.len() ==> #[trigger] w.clients[i].client_id
                == v.clients[i].client_id,
        forall|i: int|
            0 <= i < v.clients.len() ==> #[trigger] w.clients[i].name == v.clients[i].name,
    ensures
        wf(w),
{
    assert forall|i: int|
        0 <= i < w.clients.len() implies (#[trigger] w.clients[i].name matches Some(n) ==> taken(
        w,
        n,
    )) by {
        if w.clients[i].name is Some {
            assert(v.clients[i].name == w.clients[i].name);
        }
    }
    assert forall|j: int| 0 <= j < w.usernames.len() implies session_named(
        w,
        #[trigger] w.usernames[j],
    ) by {
        assert(session_named(v, v.usernames[j]));
        let i = choose|i: int|
            0 <= i < v.clients.len() && v.clients[i].name == Some(v.usernames[j]);
        assert(w.clients[i].name == Some(w.usernames[j]));
        assert(session_named(w, w.usernames[j]));
    }
    assert forall|i: int, j: int|
        #![trigger w.clients[i].name, w.clients[j].name]
        0 <= i < j < w.clients.len() implies (w.clients[i].name is Some ==> w.clients[i].name
        != w.clients[j].name) by {
        assert(v.clients[i].name == w.clients[i].name);
        assert(v.clients[j].name == w.clients[j].name);
    }
    assert forall|i: int, j: int| 0 <= i < j < w.clients.len() implies w.clients[i].client_id
        != w.clients[j].client_id by {
        assert(v.clients[i].client_id == w.clients[i].client_id);
        assert(v.clients[j].client_id == w.clients[j].client_id);
    }
}

/// Appending a message to every session's outbound queue preserves the
/// registry invariant: identities, names and usernames are untouched.
proof fn lemma_wf_broadcast(v: ServerView, m: ServerMsgSpec)
    requires
        wf(v),
    ensures
        wf(ServerView { clients: broadcast_views(v.clients, m), usernames: v.usernames }),
{
    let cs = broadcast_views(v.clients, m);
    let w = ServerView { clients: cs, usernames: v.usernames };
    assert(cs.len() == v.clients.len());
    assert forall|i: int| 0 <= i < cs.len() implies #[trigger] cs[i].client_id
        == v.clients[i].client_id && cs[i].name == v.clients[i].name by {
        assert(cs[i] == with_msg(v.clients[i], m));
    }
    assert forall|i: int|
        0 <= i < cs.len() implies (#[trigger] cs[i].name matches Some(n) ==> taken(w, n)) by {
        if cs[i].name is Some {
            assert(v.clients[i].name == cs[i].name);
        }
    }
    assert forall|j: int| 0 <= j < w.usernames.len() implies session_named(
        w,
        #[trigger] w.usernames[j],
    ) by {
        assert(session_named(v, v.usernames[j]));
        let i = choose|i: int|
            0 <= i < v.clients.len() && v.clients[i].name == Some(v.usernames[j]);
        assert(cs[i].name == Some(w.usernames[j]));
        assert(session_named(w, w.usernames[j]));
    }
}

/// Appending a message to one session's outbound queue preserves the
/// registry invariant.
proof fn lemma_wf_unicast(v: ServerView, k: int, m: ServerMsgSpec)
    requires
        wf(v),
        0 <= k < v.clients.len(),
    ensures
        wf(
            ServerView {
                clients: v.clients.update(k, with_msg(v.clients[k], m)),
                usernames: v.usernames,
            },
        ),
{
    let cs = v.clients.update(k, with_msg(v.clients[k], m));
    let w = ServerView { clients: cs, usernames: v.usernames };
    assert forall|i: int| 0 <= i < cs.len() implies #[trigger] cs[i].client_id
        == v.clients[i].client_id && cs[i].name == v.clients[i].name by {}
    assert forall|i: int|
        0 <= i < cs.len() implies (#[trigger] cs[i].name matches Some(n) ==> taken(w, n)) by {
        if cs[i].name is Some {
            assert(v.clients[i].name == cs[i].name);
        }
    }
    assert forall|j: int| 0 <= j < w.usernames.len() implies session_named(
        w,
        #[trigger] w.usernames[j],
    ) by {
        assert(session_named(v, v.usernames[j]));
        let i = choose|i: int|
            0 <= i < v.clients.len() && v.clients[i].name == Some(v.usernames[j]);
        assert(cs[i].name == Some(w.usernames[j]));
        assert(session_named(w, w.usernames[j]));
    }
}

/// Renaming session `k` to a free name, releasing its previous name,
/// preserves the registry invariant.
proof fn lemma_wf_after_register(pre: ServerView, k: int, name: Seq<char>)
    requires
        wf(pre),
        0 <= k < pre.clients.len(),
        pre.clients[k].name != Some(name),
        !taken(pre, name),
    ensures
        ({
            let renamed = ClientSpec {
                client_id: pre.clients[k].client_id,
                name: Some(name),
                outbound: pre.clients[k].outbound,
            };
            let released = match pre.clients[k].name {
                Some(p) => pre.usernames.remove(name_idx(pre.usernames, p)),
                None => pre.usernames,
            };
            wf(ServerView { clients: pre.clients.update(k, renamed), usernames: released.push(name) })
        }),
{
    let renamed = ClientSpec {
        client_id: pre.clients[k].client_id,
        name: Some(name),
        outbound: pre.clients[k].outbound,
    };
    let released = match pre.clients[k].name {
        Some(p) => pre.usernames.remove(name_idx(pre.usernames, p)),
        None => pre.usernames,
    };
    let cs = pre.clients.update(k, renamed);
    let us = released.push(name);
    let w = ServerView { clients: cs, usernames: us };
    let ghost j0 = match pre.clients[k].name {
        Some(p) => name_idx(pre.usernames, p),
        None => pre.usernames.len() as int,
    };
    if pre.clients[k].name is Some {
        let pn = pre.clients[k].name.unwrap();
        assert(taken(pre, pn));
        assert(0 <= j0 < pre.usernames.len() && pre.usernames[j0] == pn);
    }
    // released holds exactly the old names except the previous one
    assert forall|j: int| 0 <= j < released.len() implies released[j] == pre.usernames[
        if j < j0 {
            j
        } else {
            j + 1
        }
    ] by {}
    // distinctness of the new username list
    assert forall|a: int, b: int| 0 <= a < b < us.len() implies us[a] != us[b] by {
        if b < released.len() {
            let oa = if a < j0 {
                a
            } else {
                a + 1
            };
            let ob = if b < j0 {
                b
            } else {
                b + 1
            };
            assert(us[a] == pre.usernames[oa]);
            assert(us[b] == pre.usernames[ob]);
        } else {
            let oa = if a < j0 {
                a
            } else {
                a + 1
            };
            assert(us[a] == pre.usernames[oa]);
            assert(us[b] == name);
            assert(!name_taken(pre.usernames, name));
        }
    }
    // identities are untouched
    assert forall|i: int, j: int| 0 <= i < j < cs.len() implies cs[i].client_id
        != cs[j].client_id by {
        assert(cs[i].client_id == pre.clients[i].client_id);
        assert(cs[j].client_id == pre.clients[j].client_id);
    }
    // no other session bears the new name, and names stay pairwise distinct
    assert forall|i: int, j: int|
        #![trigger cs[i].name, cs[j].name]
        0 <= i < j < cs.len() implies (cs[i].name is Some ==> cs[i].name != cs[j].name) by {
        if i != k && j != k {
            assert(cs[i].name == pre.clients[i].name);
            assert(cs[j].name == pre.clients[j].name);
        } else {
            let o = if i == k {
                j
            } else {
                i
            };
            assert(cs[o].name == pre.clients[o].name);
            if pre.clients[o].name is Some {
                let m = pre.clients[o].name.unwrap();
                assert(taken(pre, m));
                assert(m != name);
            }
        }
    }
    // every named session's name is still registered
    assert forall|i: int|
        0 <= i < cs.len() implies (#[trigger] cs[i].name matches Some(m) ==> taken(w, m)) by {
        if i == k {
            assert(us[released.len() as int] == name);
            assert(name_taken(us, name));
        } else if cs[i].name is Some {
            let m = cs[i].name.unwrap();
            assert(cs[i].name == pre.clients[i].name);
            assert(taken(pre, m));
            let j = name_idx(pre.usernames, m);
            assert(pre.usernames[j] == m);
            if pre.clients[k].name is Some {
                assert(pre.clients[i].name != pre.clients[k].name);
                assert(m != pre.clients[k].name.unwrap());
                assert(j != j0);
            }
            if j < j0 {
                assert(us[j] == m);
            } else {
                assert(us[j - 1] == m);
            }
            assert(name_taken(us, m));
        }
    }
    // every registered name is borne by some session
    assert forall|j: int| 0 <= j < us.len() implies session_named(w, #[trigger] us[j]) by {
        if j == released.len() as int {
            assert(us[j] == name);
            assert(cs[k].name == Some(name));
            assert(session_named(w, us[j]));
        } else {
            let oj = if j < j0 {
                j
            } else {
                j + 1
            };
            assert(us[j] == pre.usernames[oj]);
            assert(0 <= oj < pre.usernames.len());
            assert(session_named(pre, pre.usernames[oj]));
            let i = choose|i: int|
                0 <= i < pre.clients.len() && pre.clients[i].name == Some(pre.usernames[oj]);
            if i == k {
                assert(pre.clients[k].name is Some);
                assert(pre.usernames[oj] == pre.clients[k].name.unwrap());
                assert(oj == j0);
                assert(false);
            }
            assert(cs[i].name == Some(us[j]));
            assert(session_named(w, us[j]));
        }
    }
}

/// Two sessions racing to register the same free name serialise at the
/// registry lock: the first request is accepted, so the second finds the
/// name taken and only the second requester is sent a rejection, with no
/// other change; afterwards exactly one live session bears the name and it
/// stands in the taken set exactly once.
pub proof fn lemma_register_race(
    s0: ServerView,
    s1: ServerView,
    s2: ServerView,
    id1: i64,
    id2: i64,
    name: Seq<char>,
)
    requires
        wf(s0),
        has_client(s0, id1),
        has_client(s0, id2),
        id1 != id2,
        !taken(s0, name),
        register_step(s0, s1, id1, name),
        wf(s1),
        register_step(s1, s2, id2, name),
        wf(s2),
    ensures
        taken(s1, name),
        s2.usernames == s1.usernames,
        s2.clients == s1.clients.update(
            client_idx(s1, id2),
            with_msg(s1.clients[client_idx(s1, id2)], ServerMsgSpec::UsernameInUse { name }),
        ),
        taken(s2, name),
        forall|a: int, b: int|
            0 <= a < b < s2.usernames.len() ==> !(s2.usernames[a] == name && s2.usernames[b]
                == name),
{
    let k1 = client_idx(s0, id1);
    assert(0 <= k1 < s0.clients.len() && s0.clients[k1].client_id == id1);
    if s0.clients[k1].name == Some(name) {
        assert(taken(s0, name));
        assert(false);
    }
    // the first request takes the accepted branch
    let renamed = ClientSpec {
        client_id: s0.clients[k1].client_id,
        name: Some(name),
        outbound: s0.clients[k1].outbound,
    };
    let released = match s0.clients[k1].name {
        Some(p) => s0.usernames.remove(username_idx(s0, p)),
        None => s0.usernames,
    };
    assert(s1.usernames == released.push(name));
    assert(s1.usernames[s1.usernames.len() - 1] == name);
    assert(taken(s1, name));
    // the second requester keeps its place and its old name
    let k2 = client_idx(s0, id2);
    assert(0 <= k2 < s0.clients.len() && s0.clients[k2].client_id == id2);
    assert(k1 != k2);
    let mid = s0.clients.update(k1, renamed);
    assert(s1.clients == broadcast_views(
        mid,
        ServerMsgSpec::UsernameRegistration { name, client_id: id1 },
    ));
    assert(s1.clients[k2] == with_msg(
        mid[k2],
        ServerMsgSpec::UsernameRegistration { name, client_id: id1 },
    ));
    assert(s1.clients[k2].client_id == id2 && s1.clients[k2].name == s0.clients[k2].name);
    assert(has_client(s1, id2));
    let k2n = client_idx(s1, id2);
    assert(0 <= k2n < s1.clients.len() && s1.clients[k2n].client_id == id2);
    if k2n != k2 {
        assert(s1.clients[k2n].client_id != s1.clients[k2].client_id);
        assert(false);
    }
    if s0.clients[k2].name == Some(name) {
        assert(taken(s0, name));
        assert(false);
    }
    assert(s1.clients[k2n].name != Some(name));
    // so the second request takes the rejected branch
    assert(s2.usernames == s1.usernames && s2.clients == s1.clients.update(
        k2n,
        with_msg(s1.clients[k2n], ServerMsgSpec::UsernameInUse { name }),
    ));
    assert(s2.usernames[s2.usernames.len() - 1] == name);
    assert(taken(s2, name));
}

/// A name released on leave can be registered again: a session registers a
/// free name, leaves, and a second, unnamed session then asks for the same
/// name; the second request is accepted, the name is taken again, and the
/// registration is broadcast to every session.
pub proof fn lemma_name_released(
    s0: ServerView,
    s1: ServerView,
    s2: ServerView,
    s3: ServerView,
    id1: i64,
    id2: i64,
    name: Seq<char>,
)
    requires
        wf(s0),
        has_client(s0, id1),
        !taken(s0, name),
        register_step(s0, s1, id1, name),
        wf(s1),
        leave_step(s1, s2, id1),
        wf(s2),
        has_client(s2, id2),
        s2.clients[client_idx(s2, id2)].name is None,
        register_step(s2, s3, id2, name),
        wf(s3),
    ensures
        taken(s1, name),
        !taken(s2, name),
        s3.usernames == s2.usernames.push(name),
        s3.clients == broadcast_views(
            s2.clients.update(
                client_idx(s2, id2),
                ClientSpec {
                    client_id: s2.clients[client_idx(s2, id2)].client_id,
                    name: Some(name),
                    outbound: s2.clients[client_idx(s2, id2)].outbound,
                },
            ),
            ServerMsgSpec::UsernameRegistration { name, client_id: id2 },
        ),
        taken(s3, name),
{
    let k1 = client_idx(s0, id1);
    assert(0 <= k1 < s0.clients.len() && s0.clients[k1].client_id == id1);
    if s0.clients[k1].name == Some(name) {
        assert(taken(s0, name));
        assert(false);
    }
    let renamed = ClientSpec {
        client_id: s0.clients[k1].client_id,
        name: Some(name),
        outbound: s0.clients[k1].outbound,
    };
    let released = match s0.clients[k1].name {
        Some(p) => s0.usernames.remove(username_idx(s0, p)),
        None => s0.usernames,
    };
    assert(s1.usernames == released.push(name));
    assert(s1.usernames[s1.usernames.len() - 1] == name);
    assert(taken(s1, name));
    // in s1 the first session bears the name, so its departure releases it
    let mid = s0.clients.update(k1, renamed);
    assert(s1.clients == broadcast_views(
        mid,
        ServerMsgSpec::UsernameRegistration { name, client_id: id1 },
    ));
    assert(s1.clients[k1] == with_msg(
        mid[k1],
        ServerMsgSpec::UsernameRegistration { name, client_id: id1 },
    ));
    assert(s1.clients[k1].client_id == id1 && s1.clients[k1].name == Some(name));
    assert(has_client(s1, id1));
    let k1n = client_idx(s1, id1);
    assert(0 <= k1n < s1.clients.len() && s1.clients[k1n].client_id == id1);
    if k1n != k1 {
        assert(s1.clients[k1n].client_id != s1.clients[k1].client_id);
        assert(false);
    }
    let j0 = username_idx(s1, name);
    assert(0 <= j0 < s1.usernames.len() && s1.usernames[j0] == name);
    assert(s2.usernames == s1.usernames.remove(j0));
    assert forall|j: int| 0 <= j < s2.usernames.len() implies s2.usernames[j] != name by {
        if j < j0 {
            assert(s2.usernames[j] == s1.usernames[j]);
        } else {
            assert(s2.usernames[j] == s1.usernames[j + 1]);
        }
    }
    assert(!taken(s2, name));
    // so the second request takes the accepted branch
    let k2 = client_idx(s2, id2);
    assert(0 <= k2 < s2.clients.len() && s2.clients[k2].client_id == id2);
    assert(s2.clients[k2].name != Some(name));
    assert(s3.usernames == s2.usernames.push(name));
    assert(s3.usernames[s3.usernames.len() - 1] == name);
    assert(taken(s3, name));
}

/// A broadcast reaches every session live at the time of the call and no
/// one else: after a session leaves, a broadcast appends the message to
/// every remaining session's queue, and the departed session is no longer
/// in the registry at all.
pub proof fn lemma_broadcast_after_leave(
    s0: ServerView,
    s1: ServerView,
    s2: ServerView,
    id: i64,
    m: ServerMsgSpec,
)
    requires
        wf(s0),
        leave_step(s0, s1, id),
        s2.usernames == s1.usernames,
        s2.clients == broadcast_views(s1.clients, m),
    ensures
        !has_client(s2, id),
        s2.clients.len() == s1.clients.len(),
        forall|i: int|
            0 <= i < s2.clients.len() ==> #[trigger] s2.clients[i].outbound
                == s1.clients[i].outbound.push(m),
{
    assert forall|i: int| 0 <= i < s1.clients.len() implies #[trigger] s1.clients[i].client_id
        != id by {
        if has_client(s0, id) {
            let k = client_idx(s0, id);
            assert(0 <= k < s0.clients.len() && s0.clients[k].client_id == id);
            assert(s1.clients == s0.clients.remove(k));
            let oi = if i < k {
                i
            } else {
                i + 1
            };
            assert(s1.clients[i] == s0.clients[oi]);
        } else {
            assert(s1 == s0);
            assert(!(0 <= i < s0.clients.len() && s0.clients[i].client_id == id));
        }
    }
    assert forall|i: int| 0 <= i < s2.clients.len() implies #[trigger] s2.clients[i].outbound
        == s1.clients[i].outbound.push(m) && s2.clients[i].client_id != id by {
        assert(s2.clients[i] == with_msg(s1.clients[i], m));
    }
    assert(!has_client(s2, id));
}

/// Broadcasts preserve order: the queues deliver messages to each session
/// in the order the broadcasts were made, so the order observed at the
/// registry lock is the order every session's writer sees.
pub proof fn lemma_broadcast_order(
    s0: ServerView,
    s1: ServerView,
    s2: ServerView,
    m1: ServerMsgSpec,
    m2: ServerMsgSpec,
)
    requires
        s1.clients == broadcast_views(s0.clients, m1),
        s2.clients == broadcast_views(s1.clients, m2),
    ensures
        s2.clients.len() == s0.clients.len(),
        forall|i: int|
            0 <= i < s2.clients.len() ==> #[trigger] s2.clients[i].outbound
                == s0.clients[i].outbound + seq![m1, m2],
{
    assert forall|i: int| 0 <= i < s2.clients.len() implies #[trigger] s2.clients[i].outbound
        == s0.clients[i].outbound + seq![m1, m2] by {
        assert(s1.clients[i] == with_msg(s0.clients[i], m1));
        assert(s2.clients[i] == with_msg(s1.clients[i], m2));
        assert(s0.clients[i].outbound.push(m1).push(m2) =~= s0.clients[i].outbound + seq![
            m1,
            m2,
        ]);
    }
}

/// Re-registering the session's own current name is a no-op: the registry
/// is unchanged, no name moves, and no message — in particular no second
/// registration broadcast for the same name and session — is queued for
/// anyone.
pub proof fn lemma_reregister_noop(s0: ServerView, s1: ServerView, id: i64, name: Seq<char>)
    requires
        wf(s0),
        has_client(s0, id),
        s0.clients[client_idx(s0, id)].name == Some(name),
        register_step(s0, s1, id, name),
    ensures
        s1 == s0,
        forall|i: int|
            0 <= i < s0.clients.len() ==> #[trigger] s1.clients[i].outbound
                == s0.clients[i].outbound,
{
}

} // verus!
