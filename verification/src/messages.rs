//! The chat protocol messages and their wire encoding.
//!
//! Messages travel as the payload of a text frame.  The encoding is a tagged
//! binary format: one tag byte for the variant, every integer as eight
//! big-endian bytes, every string as its byte length followed by its UTF-8
//! bytes, and the roster as its entry count followed by the entries.  The
//! encoding round-trips every variant and every field losslessly.

use vstd::prelude::*;
use vstd::utf8::{encode_utf8, decode_utf8, valid_utf8};

use crate::frame::{be64, be64_bytes};

verus! {

/// One roster entry: a session that has registered a display name.
#[derive(Debug, PartialEq, Eq)]
pub struct ClientIdUsername {
    /// The session's identifier.
    pub client_id: i64,
    /// The session's registered display name.
    pub username: String,
}

/// The mathematical value of a [`ClientIdUsername`].
#[verifier::ext_equal]
pub struct EntrySpec {
    /// The session's identifier.
    pub client_id: i64,
    /// The session's registered display name.
    pub username: Seq<char>,
}

impl View for ClientIdUsername {
    type V = EntrySpec;

    open spec fn view(&self) -> EntrySpec {
        EntrySpec { client_id: self.client_id, username: self.username@ }
    }
}

/// A message from the server to a client.
#[derive(Debug, PartialEq, Eq)]
pub enum ServerMessage {
    /// A chat line from the session identified by `client_id`.
    TextMessage {
        /// The chat line.
        message: String,
        /// The session that sent it.
        client_id: i64,
    },
    /// The session identified by `client_id` hung up.  A session's writer
    /// stops when it sees a hangup addressed to its own identifier.
    UserHangup {
        /// The session that hung up.
        client_id: i64,
    },
    /// The session identified by `client_id` now owns the name.
    UsernameRegistration {
        /// The newly registered name.
        name: String,
        /// The session that registered it.
        client_id: i64,
    },
    /// Greets a session that has just joined, telling it its identifier.
    ClientAcknowledgement {
        /// The joining session's identifier.
        client_id: i64,
    },
    /// Rejects a registration: the name is held by another live session.
    UsernameInUse {
        /// The name that was asked for.
        name: String,
    },
    /// The roster: every currently named session, sent to a new session.
    ClientIdUsernameMappings {
        /// The named sessions, each with its identifier and name.
        client_id_usernames: Vec<ClientIdUsername>,
    },
}

/// The mathematical value of a [`ServerMessage`].
#[verifier::ext_equal]
pub enum ServerMsgSpec {
    /// A chat line from the session identified by `client_id`.
    TextMessage {
        /// The chat line.
        message: Seq<char>,
        /// The session that sent it.
        client_id: i64,
    },
    /// The session identified by `client_id` hung up.
    UserHangup {
        /// The session that hung up.
        client_id: i64,
    },
    /// The session identified by `client_id` now owns the name.
    UsernameRegistration {
        /// The newly registered name.
        name: Seq<char>,
        /// The session that registered it.
        client_id: i64,
    },
    /// Greets a session that has just joined.
    ClientAcknowledgement {
        /// The joining session's identifier.
        client_id: i64,
    },
    /// Rejects a registration: the name is held by another live session.
    UsernameInUse {
        /// The name that was asked for.
        name: Seq<char>,
    },
    /// The roster: every currently named session.
    ClientIdUsernameMappings {
        /// The named sessions.
        client_id_usernames: Seq<EntrySpec>,
    },
}

impl View for ServerMessage {
    type V = ServerMsgSpec;

    open spec fn view(&self) -> ServerMsgSpec {
        match self {
            ServerMessage::TextMessage { message, client_id } => ServerMsgSpec::TextMessage {
                message: message@,
                client_id: *client_id,
            },
            ServerMessage::UserHangup { client_id } => ServerMsgSpec::UserHangup {
                client_id: *client_id,
            },
            ServerMessage::UsernameRegistration { name, client_id } => {
                ServerMsgSpec::UsernameRegistration { name: name@, client_id: *client_id }
            },
            ServerMessage::ClientAcknowledgement { client_id } => {
                ServerMsgSpec::ClientAcknowledgement { client_id: *client_id }
            },
            ServerMessage::UsernameInUse { name } => ServerMsgSpec::UsernameInUse { name: name@ },
            ServerMessage::ClientIdUsernameMappings { client_id_usernames } => {
                ServerMsgSpec::ClientIdUsernameMappings {
                    client_id_usernames: client_id_usernames@.map(
                        |i: int, e: ClientIdUsername| e@,
                    ),
                }
            },
        }
    }
}

/// A message from a client to the server.
#[derive(Debug, PartialEq, Eq)]
pub enum ClientMessage {
    /// A chat line to broadcast.
    TextMessage {
        /// The chat line.
        message: String,
    },
    /// A request to register a display name.
    UsernameRegistration {
        /// The name asked for.
        name: String,
    },
}

/// The mathematical value of a [`ClientMessage`].
#[verifier::ext_equal]
pub enum ClientMsgSpec {
    /// A chat line to broadcast.
    TextMessage {
        /// The chat line.
        message: Seq<char>,
    },
    /// A request to register a display name.
    UsernameRegistration {
        /// The name asked for.
        name: Seq<char>,
    },
}

impl View for ClientMessage {
    type V = ClientMsgSpec;

    open spec fn view(&self) -> ClientMsgSpec {
        match self {
            ClientMessage::TextMessage { message } => ClientMsgSpec::TextMessage {
                message: message@,
            },
            ClientMessage::UsernameRegistration { name } => ClientMsgSpec::UsernameRegistration {
                name: name@,
            },
        }
    }
}

/// The eight wire bytes of a 64-bit identifier, in two's complement.
pub open spec fn i64_bytes(x: i64) -> Seq<u8> {
    be64_bytes(x as u64)
}

/// The wire bytes of a string: its UTF-8 byte length, then its UTF-8 bytes.
pub open spec fn str_bytes(s: Seq<char>) -> Seq<u8> {
    be64_bytes(encode_utf8(s).len() as u64) + encode_utf8(s)
}

/// The wire bytes of one roster entry.
pub open spec fn entry_bytes(e: EntrySpec) -> Seq<u8> {
    i64_bytes(e.client_id) + str_bytes(e.username)
}

/// The wire bytes of a roster, entry after entry.
pub open spec fn entries_bytes(es: Seq<EntrySpec>) -> Seq<u8>
    decreases es.len(),
{
    if es.len() == 0 {
        Seq::empty()
    } else {
        entry_bytes(es[0]) + entries_bytes(es.drop_first())
    }
}

/// A server message whose encoding the 64-bit length fields can carry.
pub open spec fn server_msg_wf(m: ServerMsgSpec) -> bool {
    match m {
        ServerMsgSpec::TextMessage { message, .. } => encode_utf8(message).len()
            < 0x10000000000000000,
        ServerMsgSpec::UserHangup { .. } => true,
        ServerMsgSpec::UsernameRegistration { name, .. } => encode_utf8(name).len()
            < 0x10000000000000000,
        ServerMsgSpec::ClientAcknowledgement { .. } => true,
        ServerMsgSpec::UsernameInUse { name } => encode_utf8(name).len() < 0x10000000000000000,
        ServerMsgSpec::ClientIdUsernameMappings { client_id_usernames } => {
            &&& client_id_usernames.len() < 0x10000000000000000
            &&& forall|i: int|
                0 <= i < client_id_usernames.len() ==> encode_utf8(
                    #[trigger] client_id_usernames[i].username,
                ).len() < 0x10000000000000000
        },
    }
}

/// The wire bytes of a server message: a tag byte, then the fields.
pub open spec fn server_msg_bytes(m: ServerMsgSpec) -> Seq<u8> {
    match m {
        ServerMsgSpec::TextMessage { message, client_id } => seq![1u8] + str_bytes(message)
            + i64_bytes(client_id),
        ServerMsgSpec::UserHangup { client_id } => seq![2u8] + i64_bytes(client_id),
        ServerMsgSpec::UsernameRegistration { name, client_id } => seq![3u8] + str_bytes(name)
            + i64_bytes(client_id),
        ServerMsgSpec::ClientAcknowledgement { client_id } => seq![4u8] + i64_bytes(client_id),
        ServerMsgSpec::UsernameInUse { name } => seq![5u8] + str_bytes(name),
        ServerMsgSpec::ClientIdUsernameMappings { client_id_usernames } => seq![6u8] + be64_bytes(
            client_id_usernames.len() as u64,
        ) + entries_bytes(client_id_usernames),
    }
}

/// A client message whose encoding the 64-bit length field can carry.
pub open spec fn client_msg_wf(m: ClientMsgSpec) -> bool {
    match m {
        ClientMsgSpec::TextMessage { message } => encode_utf8(message).len() < 0x10000000000000000,
        ClientMsgSpec::UsernameRegistration { name } => encode_utf8(name).len()
            < 0x10000000000000000,
    }
}

/// The wire bytes of a client message: a tag byte, then the field.
pub open spec fn client_msg_bytes(m: ClientMsgSpec) -> Seq<u8> {
    match m {
        ClientMsgSpec::TextMessage { message } => seq![1u8] + str_bytes(message),
        ClientMsgSpec::UsernameRegistration { name } => seq![2u8] + str_bytes(name),
    }
}

/// Appends the eight big-endian bytes of `x` to `out`.
fn push_be64(out: &mut Vec<u8>, x: u64)
    ensures
        final(out)@ == old(out)@ + be64_bytes(x),
{
    out.push((x / 0x100000000000000) as u8);
    out.push(((x / 0x1000000000000) % 256) as u8);
    out.push(((x / 0x10000000000) % 256) as u8);
    out.push(((x / 0x100000000) % 256) as u8);
    out.push(((x / 0x1000000) % 256) as u8);
    out.push(((x / 0x10000) % 256) as u8);
    out.push(((x / 0x100) % 256) as u8);
    out.push((x % 256) as u8);
    assert(out@ =~= old(out)@ + be64_bytes(x));
}

/// Appends the wire form of a string to `out`.
fn push_str(out: &mut Vec<u8>, s: &String)
    ensures
        final(out)@ == old(out)@ + str_bytes(s@),
        encode_utf8(s@).len() < 0x10000000000000000,
{
    let bytes: &[u8] = s.as_str().as_bytes();
    push_be64(out, bytes.len() as u64);
    let ghost mid = out@;
    let mut i: usize = 0;
    while i < bytes.len()
        invariant
            bytes@ == encode_utf8(s@),
            i <= bytes@.len(),
            out@ =~= mid + bytes@.subrange(0, i as int),
        decreases bytes@.len() - i,
    {
        out.push(bytes[i]);
        assert(out@ =~= mid + bytes@.subrange(0, i + 1));
        i += 1;
    }
    assert(bytes@.subrange(0, bytes@.len() as int) =~= bytes@);
    assert(out@ =~= old(out)@ + str_bytes(s@));
}

/// Appends the eight wire bytes of an identifier to `out`.
fn push_i64(out: &mut Vec<u8>, x: i64)
    ensures
        final(out)@ == old(out)@ + i64_bytes(x),
{
    push_be64(out, x as u64);
}

/// Encodes a server message into the payload bytes of one text frame.
#[verifier::rlimit(100)]
pub fn encode_server_msg(m: &ServerMessage) -> (r: Vec<u8>)
    ensures
        r@ == server_msg_bytes(m@),
        server_msg_wf(m@),
{
    let mut out: Vec<u8> = Vec::new();
    match m {
        ServerMessage::TextMessage { message, client_id } => {
            out.push(1u8);
            push_str(&mut out, message);
            push_i64(&mut out, *client_id);
        },
        ServerMessage::UserHangup { client_id } => {
            out.push(2u8);
            push_i64(&mut out, *client_id);
        },
        ServerMessage::UsernameRegistration { name, client_id } => {
            out.push(3u8);
            push_str(&mut out, name);
            push_i64(&mut out, *client_id);
        },
        ServerMessage::ClientAcknowledgement { client_id } => {
            out.push(4u8);
            push_i64(&mut out, *client_id);
        },
        ServerMessage::UsernameInUse { name } => {
            out.push(5u8);
            push_str(&mut out, name);
        },
        ServerMessage::ClientIdUsernameMappings { client_id_usernames } => {
            out.push(6u8);
            push_be64(&mut out, client_id_usernames.len() as u64);
            let ghost entries = client_id_usernames@.map(|i: int, e: ClientIdUsername| e@);
            let ghost mid = out@;
            let mut i: usize = 0;
            while i < client_id_usernames.len()
                invariant
                    entries == client_id_usernames@.map(|i: int, e: ClientIdUsername| e@),
                    i <= entries.len(),
                    out@ =~= mid + entries_bytes(entries.take(i as int)),
                    forall|k: int|
                        0 <= k < i ==> encode_utf8(#[trigger] entries[k].username).len()
                            < 0x10000000000000000,
                decreases entries.len() - i,
            {
                let e = &client_id_usernames[i];
                push_i64(&mut out, e.client_id);
                push_str(&mut out, &e.username);
                proof {
                    lemma_entries_bytes_snoc(entries, i as int);
                }
                assert(out@ =~= mid + entries_bytes(entries.take(i + 1)));
                i += 1;
            }
            proof {
                assert(entries.take(entries.len() as int) =~= entries);
            }
        },
    }
    assert(out@ =~= server_msg_bytes(m@));
    out
}

/// Splitting a roster's wire bytes after `i` entries: the bytes of the first
/// `i + 1` entries are the bytes of the first `i` followed by entry `i`.
proof fn lemma_entries_bytes_snoc(es: Seq<EntrySpec>, i: int)
    requires
        0 <= i < es.len(),
    ensures
        entries_bytes(es.take(i + 1)) == entries_bytes(es.take(i)) + entry_bytes(es[i]),
    decreases i,
{
    if i == 0 {
        assert(es.take(1) =~= seq![es[0]]);
        assert(entries_bytes(seq![es[0]].drop_first()) == Seq::<u8>::empty()) by {
            assert(seq![es[0]].drop_first() =~= Seq::<EntrySpec>::empty());
        }
        assert(entries_bytes(es.take(0)) =~= Seq::<u8>::empty());
        assert(entries_bytes(es.take(1)) =~= entry_bytes(es[0]));
    } else {
        lemma_entries_bytes_snoc(es.drop_first(), i - 1);
        assert(es.take(i + 1).drop_first() =~= es.drop_first().take(i));
        assert(es.take(i).drop_first() =~= es.drop_first().take(i - 1));
        assert(es.take(i + 1)[0] == es[0]);
        assert(es.take(i)[0] == es[0]);
        assert(es.drop_first()[i - 1] == es[i]);
        assert(entries_bytes(es.take(i + 1)) == entry_bytes(es[0]) + entries_bytes(
            es.drop_first().take(i),
        ));
        assert(entries_bytes(es.take(i)) == entry_bytes(es[0]) + entries_bytes(
            es.drop_first().take(i - 1),
        ));
        assert(entries_bytes(es.take(i + 1)) =~= entries_bytes(es.take(i)) + entry_bytes(es[i]));
    }
}

/// Encodes a client message into the payload bytes of one text frame.
pub fn encode_client_msg(m: &ClientMessage) -> (r: Vec<u8>)
    ensures
        r@ == client_msg_bytes(m@),
        client_msg_wf(m@),
{
    let mut out: Vec<u8> = Vec::new();
    match m {
        ClientMessage::TextMessage { message } => {
            out.push(1u8);
            push_str(&mut out, message);
        },
        ClientMessage::UsernameRegistration { name } => {
            out.push(2u8);
            push_str(&mut out, name);
        },
    }
    assert(out@ =~= client_msg_bytes(m@));
    out
}

/// Reads a big-endian 64-bit integer at `off`: the value and the offset
/// just past it, or `None` when fewer than eight bytes remain.
pub open spec fn take_u64_at(b: Seq<u8>, off: int) -> Option<(u64, int)> {
    if 0 <= off && off + 8 <= b.len() {
        Some((be64(b.subrange(off, off + 8)) as u64, off + 8))
    } else {
        None
    }
}

/// Reads an identifier at `off`: eight big-endian bytes in two's complement.
pub open spec fn take_i64_at(b: Seq<u8>, off: int) -> Option<(i64, int)> {
    match take_u64_at(b, off) {
        Some((u, o)) => Some((u as i64, o)),
        None => None,
    }
}

/// Reads a string at `off`: its byte length, then that many UTF-8 bytes.
/// `None` when the bytes run out or are not valid UTF-8.
pub open spec fn take_str_at(b: Seq<u8>, off: int) -> Option<(Seq<char>, int)> {
    match take_u64_at(b, off) {
        Some((l, o)) => if o + l <= b.len() && valid_utf8(b.subrange(o, o + l)) {
            Some((decode_utf8(b.subrange(o, o + l)), o + l))
        } else {
            None
        },
        None => None,
    }
}

/// Reads `count` roster entries one after another starting at `off`.
pub open spec fn take_entries_at(b: Seq<u8>, off: int, count: nat) -> Option<
    (Seq<EntrySpec>, int),
>
    decreases count,
{
    if count == 0 {
        Some((Seq::empty(), off))
    } else {
        match take_i64_at(b, off) {
            Some((id, o1)) => match take_str_at(b, o1) {
                Some((name, o2)) => match take_entries_at(b, o2, (count - 1) as nat) {
                    Some((rest, o3)) => Some(
                        (seq![EntrySpec { client_id: id, username: name }] + rest, o3),
                    ),
                    None => None,
                },
                None => None,
            },
            None => None,
        }
    }
}

/// Parses a server message from a frame payload: the tag byte picks the
/// variant, the fields follow, and the payload must hold nothing more.
pub open spec fn parse_server_msg_spec(b: Seq<u8>) -> Option<ServerMsgSpec> {
    if b.len() < 1 {
        None
    } else if b[0] == 1 {
        match take_str_at(b, 1) {
            Some((message, o1)) => match take_i64_at(b, o1) {
                Some((client_id, o2)) => if o2 == b.len() {
                    Some(ServerMsgSpec::TextMessage { message, client_id })
                } else {
                    None
                },
                None => None,
            },
            None => None,
        }
    } else if b[0] == 2 {
        match take_i64_at(b, 1) {
            Some((client_id, o1)) => if o1 == b.len() {
                Some(ServerMsgSpec::UserHangup { client_id })
            } else {
                None
            },
            None => None,
        }
    } else if b[0] == 3 {
        match take_str_at(b, 1) {
            Some((name, o1)) => match take_i64_at(b, o1) {
                Some((client_id, o2)) => if o2 == b.len() {
                    Some(ServerMsgSpec::UsernameRegistration { name, client_id })
                } else {
                    None
                },
                None => None,
            },
            None => None,
        }
    } else if b[0] == 4 {
        match take_i64_at(b, 1) {
            Some((client_id, o1)) => if o1 == b.len() {
                Some(ServerMsgSpec::ClientAcknowledgement { client_id })
            } else {
                None
            },
            None => None,
        }
    } else if b[0] == 5 {
        match take_str_at(b, 1) {
            Some((name, o1)) => if o1 == b.len() {
                Some(ServerMsgSpec::UsernameInUse { name })
            } else {
                None
            },
            None => None,
        }
    } else if b[0] == 6 {
        match take_u64_at(b, 1) {
            Some((count, o1)) => match take_entries_at(b, o1, count as nat) {
                Some((entries, o2)) => if o2 == b.len() {
                    Some(ServerMsgSpec::ClientIdUsernameMappings { client_id_usernames: entries })
                } else {
                    None
                },
                None => None,
            },
            None => None,
        }
    } else {
        None
    }
}

/// Parses a client message from a frame payload: the tag byte picks the
/// variant, one string follows, and the payload must hold nothing more.
pub open spec fn parse_client_msg_spec(b: Seq<u8>) -> Option<ClientMsgSpec> {
    if b.len() < 1 {
        None
    } else if b[0] == 1 {
        match take_str_at(b, 1) {
            Some((message, o1)) => if o1 == b.len() {
                Some(ClientMsgSpec::TextMessage { message })
            } else {
                None
            },
            None => None,
        }
    } else if b[0] == 2 {
        match take_str_at(b, 1) {
            Some((name, o1)) => if o1 == b.len() {
                Some(ClientMsgSpec::UsernameRegistration { name })
            } else {
                None
            },
            None => None,
        }
    } else {
        None
    }
}

/// Relies on String::from_utf8: it returns the string exactly when the bytes
/// are valid UTF-8, and that string's characters decode those bytes.
#[verifier::external_body]
pub(crate) fn bytes_to_string(v: Vec<u8>) -> (r: Option<String>)
    ensures
        r is Some <==> valid_utf8(v@),
        r matches Some(s) ==> s@ == decode_utf8(v@),
{
    String::from_utf8(v).ok()
}

/// Copies `len` bytes of `b` starting at `off` into a fresh vector.
fn copy_range(b: &[u8], off: usize, len: usize) -> (r: Vec<u8>)
    requires
        off + len <= b@.len(),
    ensures
        r@ == b@.subrange(off as int, off + len),
{
    let n: usize = b.len();
    let mut v: Vec<u8> = Vec::new();
    let mut i: usize = 0;
    while i < len
        invariant
            n == b@.len(),
            off + len <= n,
            i <= len,
            v@ =~= b@.subrange(off as int, off + i),
        decreases len - i,
    {
        v.push(b[off + i]);
        assert(v@ =~= b@.subrange(off as int, off + i + 1));
        i += 1;
    }
    v
}

/// Reads a big-endian 64-bit integer at `off`.
fn take_u64(b: &[u8], off: usize) -> (r: Option<(u64, usize)>)
    ensures
        match r {
            Some(p) => take_u64_at(b@, off as int) == Some((p.0, p.1 as int)),
            None => take_u64_at(b@, off as int) is None,
        },
{
    if off > b.len() || b.len() - off < 8 {
        return None;
    }
    let arr: [u8; 8] = [
        b[off],
        b[off + 1],
        b[off + 2],
        b[off + 3],
        b[off + 4],
        b[off + 5],
        b[off + 6],
        b[off + 7],
    ];
    assert(arr@ =~= b@.subrange(off as int, off + 8));
    Some((crate::frame::be_u64(&arr), off + 8))
}

/// Reads an identifier at `off`.
fn take_i64(b: &[u8], off: usize) -> (r: Option<(i64, usize)>)
    ensures
        match r {
            Some(p) => take_i64_at(b@, off as int) == Some((p.0, p.1 as int)),
            None => take_i64_at(b@, off as int) is None,
        },
{
    match take_u64(b, off) {
        Some((u, o)) => Some((u as i64, o)),
        None => None,
    }
}

/// Reads a length-prefixed UTF-8 string at `off`.
fn take_string(b: &[u8], off: usize) -> (r: Option<(String, usize)>)
    ensures
        match r {
            Some(p) => take_str_at(b@, off as int) matches Some(q) && q.0 == p.0@ && q.1 == p.1
                as int,
            None => take_str_at(b@, off as int) is None,
        },
{
    match take_u64(b, off) {
        None => None,
        Some((l, o1)) => {
            if l > (b.len() - o1) as u64 {
                return None;
            }
            let lu: usize = l as usize;
            let v = copy_range(b, o1, lu);
            match bytes_to_string(v) {
                Some(s) => Some((s, o1 + lu)),
                None => None,
            }
        },
    }
}

/// Parses a server message from the payload of one text frame.
pub fn parse_server_msg(b: &[u8]) -> (r: Option<ServerMessage>)
    ensures
        match r {
            Some(m) => parse_server_msg_spec(b@) == Some(m@),
            None => parse_server_msg_spec(b@) is None,
        },
{
    if b.len() < 1 {
        return None;
    }
    let tag = b[0];
    if tag == 1 {
        match take_string(b, 1) {
            Some((message, o1)) => match take_i64(b, o1) {
                Some((client_id, o2)) => if o2 == b.len() {
                    Some(ServerMessage::TextMessage { message, client_id })
                } else {
                    None
                },
                None => None,
            },
            None => None,
        }
    } else if tag == 2 {
        match take_i64(b, 1) {
            Some((client_id, o1)) => if o1 == b.len() {
                Some(ServerMessage::UserHangup { client_id })
            } else {
                None
            },
            None => None,
        }
    } else if tag == 3 {
        match take_string(b, 1) {
            Some((name, o1)) => match take_i64(b, o1) {
                Some((client_id, o2)) => if o2 == b.len() {
                    Some(ServerMessage::UsernameRegistration { name, client_id })
                } else {
                    None
                },
                None => None,
            },
            None => None,
        }
    } else if tag == 4 {
        match take_i64(b, 1) {
            Some((client_id, o1)) => if o1 == b.len() {
                Some(ServerMessage::ClientAcknowledgement { client_id })
            } else {
                None
            },
            None => None,
        }
    } else if tag == 5 {
        match take_string(b, 1) {
            Some((name, o1)) => if o1 == b.len() {
                Some(ServerMessage::UsernameInUse { name })
            } else {
                None
            },
            None => None,
        }
    } else if tag == 6 {
        match take_u64(b, 1) {
            Some((count, o1)) => parse_mappings(b, count, o1),
            None => None,
        }
    } else {
        None
    }
}

/// Parses the roster entries of a mappings message, whose count field has
/// already been read and whose entries start at `off`.
fn parse_mappings(b: &[u8], count: u64, off: usize) -> (r: Option<ServerMessage>)
    ensures
        match r {
            Some(m) => (match take_entries_at(b@, off as int, count as nat) {
                Some((entries, o2)) => o2 == b@.len() && m@
                    == ServerMsgSpec::ClientIdUsernameMappings { client_id_usernames: entries },
                None => false,
            }),
            None => (match take_entries_at(b@, off as int, count as nat) {
                Some((entries, o2)) => o2 != b@.len(),
                None => true,
            }),
        },
{
    let mut entries: Vec<ClientIdUsername> = Vec::new();
    let mut cur: usize = off;
    let mut i: u64 = 0;
    while i < count
        invariant
            i <= count,
            take_entries_at(b@, off as int, count as nat) == (match take_entries_at(
                b@,
                cur as int,
                (count - i) as nat,
            ) {
                Some((rest, o)) => Some(
                    (entries@.map(|k: int, e: ClientIdUsername| e@) + rest, o),
                ),
                None => None::<(Seq<EntrySpec>, int)>,
            }),
        decreases count - i,
    {
        let ghost evs = entries@.map(|k: int, e: ClientIdUsername| e@);
        let (id, o1) = match take_i64(b, cur) {
            Some(p) => p,
            None => {
                return None;
            },
        };
        let (name, o2) = match take_string(b, o1) {
            Some(p) => p,
            None => {
                return None;
            },
        };
        let e = ClientIdUsername { client_id: id, username: name };
        proof {
            let rest = take_entries_at(b@, o2 as int, (count - i - 1) as nat);
            assert(entries@.push(e).map(|k: int, e: ClientIdUsername| e@) =~= evs.push(e@));
            match rest {
                Some(p) => {
                    assert(evs + seq![e@] + p.0 =~= evs.push(e@) + p.0);
                },
                None => {},
            }
        }
        entries.push(e);
        cur = o2;
        i = i + 1;
    }
    assert(take_entries_at(b@, cur as int, 0) == Some((Seq::<EntrySpec>::empty(), cur as int)));
    proof {
        let evs = entries@.map(|k: int, e: ClientIdUsername| e@);
        assert(evs + Seq::<EntrySpec>::empty() =~= evs);
    }
    if cur == b.len() {
        Some(ServerMessage::ClientIdUsernameMappings { client_id_usernames: entries })
    } else {
        None
    }
}

/// Parses a client message from the payload of one text frame.
pub fn parse_client_msg(b: &[u8]) -> (r: Option<ClientMessage>)
    ensures
        match r {
            Some(m) => parse_client_msg_spec(b@) == Some(m@),
            None => parse_client_msg_spec(b@) is None,
        },
{
    if b.len() < 1 {
        return None;
    }
    let tag = b[0];
    if tag == 1 {
        match take_string(b, 1) {
            Some((message, o1)) => if o1 == b.len() {
                Some(ClientMessage::TextMessage { message })
            } else {
                None
            },
            None => None,
        }
    } else if tag == 2 {
        match take_string(b, 1) {
            Some((name, o1)) => if o1 == b.len() {
                Some(ClientMessage::UsernameRegistration { name })
            } else {
                None
            },
            None => None,
        }
    } else {
        None
    }
}

proof fn lemma_take_u64(p: Seq<u8>, n: u64, r: Seq<u8>)
    ensures
        take_u64_at(p + be64_bytes(n) + r, p.len() as int) == Some((n, p.len() as int + 8)),
{
    let b = p + be64_bytes(n) + r;
    assert(b.subrange(p.len() as int, p.len() as int + 8) =~= be64_bytes(n));
    crate::frame::lemma_be64_roundtrip(n);
}

proof fn lemma_take_i64(p: Seq<u8>, x: i64, r: Seq<u8>)
    ensures
        take_i64_at(p + i64_bytes(x) + r, p.len() as int) == Some((x, p.len() as int + 8)),
{
    lemma_take_u64(p, x as u64, r);
    assert((x as u64) as i64 == x) by (bit_vector);
}

proof fn lemma_take_str(p: Seq<u8>, s: Seq<char>, r: Seq<u8>)
    requires
        encode_utf8(s).len() < 0x10000000000000000,
    ensures
        take_str_at(p + str_bytes(s) + r, p.len() as int) == Some(
            (s, p.len() as int + 8 + encode_utf8(s).len() as int),
        ),
{
    let b = p + str_bytes(s) + r;
    let u = encode_utf8(s);
    let l = u.len() as u64;
    assert(b =~= p + be64_bytes(l) + (u + r));
    lemma_take_u64(p, l, u + r);
    let o = p.len() + 8;
    assert(b.subrange(o as int, o + l) =~= u);
    vstd::utf8::encode_utf8_valid_utf8(s);
    vstd::utf8::encode_utf8_decode_utf8(s);
}

#[verifier::spinoff_prover]
#[verifier::rlimit(100)]
proof fn lemma_take_entry(p: Seq<u8>, e: EntrySpec, r: Seq<u8>)
    requires
        encode_utf8(e.username).len() < 0x10000000000000000,
    ensures
        take_i64_at(p + entry_bytes(e) + r, p.len() as int) == Some(
            (e.client_id, p.len() as int + 8),
        ),
        take_str_at(p + entry_bytes(e) + r, p.len() as int + 8) == Some(
            (e.username, p.len() as int + entry_bytes(e).len() as int),
        ),
{
    let b = p + entry_bytes(e) + r;
    assert(b =~= p + i64_bytes(e.client_id) + (str_bytes(e.username) + r));
    lemma_take_i64(p, e.client_id, str_bytes(e.username) + r);
    let p2 = p + i64_bytes(e.client_id);
    assert(b =~= p2 + str_bytes(e.username) + r);
    lemma_take_str(p2, e.username, r);
}

#[verifier::spinoff_prover]
#[verifier::rlimit(100)]
proof fn lemma_take_entries(p: Seq<u8>, es: Seq<EntrySpec>, r: Seq<u8>)
    requires
        forall|i: int|
            0 <= i < es.len() ==> encode_utf8(#[trigger] es[i].username).len()
                < 0x10000000000000000,
    ensures
        take_entries_at(p + entries_bytes(es) + r, p.len() as int, es.len()) == Some(
            (es, p.len() as int + entries_bytes(es).len() as int),
        ),
    decreases es.len(),
{
    let b = p + entries_bytes(es) + r;
    if es.len() == 0 {
        assert(b =~= p + r);
        assert(take_entries_at(b, p.len() as int, 0) == Some(
            (Seq::<EntrySpec>::empty(), p.len() as int),
        ));
        assert(Seq::<EntrySpec>::empty() =~= es);
    } else {
        let e = es[0];
        let rest = es.drop_first();
        assert(entries_bytes(es) == entry_bytes(e) + entries_bytes(rest));
        assert(b =~= p + entry_bytes(e) + (entries_bytes(rest) + r));
        lemma_take_entry(p, e, entries_bytes(rest) + r);
        let p3 = p + entry_bytes(e);
        assert(b =~= p3 + entries_bytes(rest) + r);
        lemma_take_entries(p3, rest, r);
        assert(seq![e] + rest =~= es);
        assert(p3.len() as int + entries_bytes(rest).len() as int == p.len() as int
            + entries_bytes(es).len() as int);
    }
}

proof fn lemma_parse_tag_str_i64(b: Seq<u8>, tag: u8, s: Seq<char>, x: i64)
    requires
        encode_utf8(s).len() < 0x10000000000000000,
        b == seq![tag] + str_bytes(s) + i64_bytes(x),
    ensures
        b.len() >= 1 && b[0] == tag,
        take_str_at(b, 1) == Some((s, 9 + encode_utf8(s).len() as int)),
        take_i64_at(b, 9 + encode_utf8(s).len() as int) == Some((x, b.len() as int)),
{
    let t = seq![tag];
    assert(b =~= t + str_bytes(s) + i64_bytes(x));
    lemma_take_str(t, s, i64_bytes(x));
    let p2 = t + str_bytes(s);
    assert(b =~= p2 + i64_bytes(x) + Seq::<u8>::empty());
    lemma_take_i64(p2, x, Seq::<u8>::empty());
}

proof fn lemma_parse_tag_i64(b: Seq<u8>, tag: u8, x: i64)
    requires
        b == seq![tag] + i64_bytes(x),
    ensures
        b.len() >= 1 && b[0] == tag,
        take_i64_at(b, 1) == Some((x, b.len() as int)),
{
    let t = seq![tag];
    assert(b =~= t + i64_bytes(x) + Seq::<u8>::empty());
    lemma_take_i64(t, x, Seq::<u8>::empty());
}

proof fn lemma_parse_tag_str(b: Seq<u8>, tag: u8, s: Seq<char>)
    requires
        encode_utf8(s).len() < 0x10000000000000000,
        b == seq![tag] + str_bytes(s),
    ensures
        b.len() >= 1 && b[0] == tag,
        take_str_at(b, 1) == Some((s, b.len() as int)),
{
    let t = seq![tag];
    assert(b =~= t + str_bytes(s) + Seq::<u8>::empty());
    lemma_take_str(t, s, Seq::<u8>::empty());
}

/// The server-message wire encoding is lossless: parsing the bytes of any
/// message whose length fields fit their 64-bit wire form yields exactly
/// that message.
pub proof fn lemma_server_msg_roundtrip(m: ServerMsgSpec)
    requires
        server_msg_wf(m),
    ensures
        parse_server_msg_spec(server_msg_bytes(m)) == Some(m),
{
    let b = server_msg_bytes(m);
    match m {
        ServerMsgSpec::TextMessage { message, client_id } => {
            assert(b =~= seq![1u8] + str_bytes(message) + i64_bytes(client_id));
            lemma_parse_tag_str_i64(b, 1, message, client_id);
        },
        ServerMsgSpec::UserHangup { client_id } => {
            assert(b =~= seq![2u8] + i64_bytes(client_id));
            lemma_parse_tag_i64(b, 2, client_id);
        },
        ServerMsgSpec::UsernameRegistration { name, client_id } => {
            assert(b =~= seq![3u8] + str_bytes(name) + i64_bytes(client_id));
            lemma_parse_tag_str_i64(b, 3, name, client_id);
        },
        ServerMsgSpec::ClientAcknowledgement { client_id } => {
            assert(b =~= seq![4u8] + i64_bytes(client_id));
            lemma_parse_tag_i64(b, 4, client_id);
        },
        ServerMsgSpec::UsernameInUse { name } => {
            assert(b =~= seq![5u8] + str_bytes(name));
            lemma_parse_tag_str(b, 5, name);
        },
        ServerMsgSpec::ClientIdUsernameMappings { client_id_usernames } => {
            lemma_parse_mappings(b, client_id_usernames);
        },
    }
}

#[verifier::spinoff_prover]
#[verifier::rlimit(100)]
proof fn lemma_parse_mappings(b: Seq<u8>, es: Seq<EntrySpec>)
    requires
        es.len() < 0x10000000000000000,
        forall|i: int|
            0 <= i < es.len() ==> encode_utf8(#[trigger] es[i].username).len()
                < 0x10000000000000000,
        b == seq![6u8] + be64_bytes(es.len() as u64) + entries_bytes(es),
    ensures
        b.len() >= 1 && b[0] == 6,
        take_u64_at(b, 1) == Some((es.len() as u64, 9int)),
        take_entries_at(b, 9, es.len()) == Some((es, b.len() as int)),
{
    let t = seq![6u8];
    let cb = be64_bytes(es.len() as u64);
    assert(b =~= t + cb + (entries_bytes(es) + Seq::<u8>::empty()));
    lemma_take_u64(t, es.len() as u64, entries_bytes(es) + Seq::<u8>::empty());
    let p2 = t + cb;
    assert(b =~= p2 + entries_bytes(es) + Seq::<u8>::empty());
    lemma_take_entries(p2, es, Seq::<u8>::empty());
    assert(p2.len() as int + entries_bytes(es).len() as int == b.len() as int);
}

/// The client-message wire encoding is lossless: parsing the bytes of any
/// message whose length field fits its 64-bit wire form yields exactly that
/// message.
pub proof fn lemma_client_msg_roundtrip(m: ClientMsgSpec)
    requires
        client_msg_wf(m),
    ensures
        parse_client_msg_spec(client_msg_bytes(m)) == Some(m),
{
    let b = client_msg_bytes(m);
    match m {
        ClientMsgSpec::TextMessage { message } => {
            let t = seq![1u8];
            assert(b =~= t + str_bytes(message) + Seq::<u8>::empty());
            assert(b[0] == 1);
            lemma_take_str(t, message, Seq::<u8>::empty());
        },
        ClientMsgSpec::UsernameRegistration { name } => {
            let t = seq![2u8];
            assert(b =~= t + str_bytes(name) + Seq::<u8>::empty());
            assert(b[0] == 2);
            lemma_take_str(t, name, Seq::<u8>::empty());
        },
    }
}

} // verus!
