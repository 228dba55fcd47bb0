//! One session's protocol steps, as pure decisions.
//!
//! A session runs two loops: a reader that turns each decoded frame payload
//! into a registry operation, and a writer that serialises each queued
//! server message into a frame — or stops when it meets the hangup sentinel
//! addressed to its own session.  The loops themselves block on the
//! connection and live outside the library; each of their decisions is a
//! function here.

use vstd::prelude::*;

use crate::chat::{
    has_client, register_step, text_step, wf, ChatServer,
};
use crate::frame::{encode_frame, frame_bytes};
use crate::messages::{
    encode_server_msg, parse_client_msg, parse_client_msg_spec, server_msg_bytes, server_msg_wf,
    ClientMsgSpec, ServerMessage, ServerMsgSpec,
};

verus! {

/// What a session's writer does with one queued message: stop, or send a
/// frame to the connection.
pub enum WriterAction {
    /// The message was the session's own hangup sentinel: the writer exits
    /// without forwarding it.
    Stop,
    /// The bytes of one complete frame carrying the serialised message.
    Send(Vec<u8>),
}

/// One step of a session's writer loop: a hangup addressed to the session
/// itself stops the writer; every other message is serialised and framed.
pub fn writer_step(msg: &ServerMessage, self_id: i64) -> (r: WriterAction)
    ensures
        (msg@ matches ServerMsgSpec::UserHangup { client_id } && client_id == self_id)
            ==> r is Stop,
        !(msg@ matches ServerMsgSpec::UserHangup { client_id } && client_id == self_id) ==> (
        r matches WriterAction::Send(b) && b@ == frame_bytes(
            server_msg_bytes(msg@),
            false,
            Seq::<u8>::empty(),
        ) && server_msg_wf(msg@)),
{
    match msg {
        ServerMessage::UserHangup { client_id } if *client_id == self_id => WriterAction::Stop,
        _ => {
            let payload = encode_server_msg(msg);
            WriterAction::Send(encode_frame(payload.as_slice()))
        },
    }
}

/// One step of a session's reader loop: the payload of one decoded frame is
/// parsed as a client message and handled as an atomic registry operation.
/// A payload that is no valid client message is dropped — the registry is
/// untouched and the connection continues.
pub fn handle_frame_payload(server: &mut ChatServer, client_id: i64, payload: &[u8]) -> (ok: bool)
    requires
        wf(old(server)@),
        has_client(old(server)@, client_id),
    ensures
        wf(final(server)@),
        match parse_client_msg_spec(payload@) {
            Some(m) => ok && (match m {
                ClientMsgSpec::TextMessage { message } => text_step(
                    old(server)@,
                    final(server)@,
                    client_id,
                    message,
                ),
                ClientMsgSpec::UsernameRegistration { name } => register_step(
                    old(server)@,
                    final(server)@,
                    client_id,
                    name,
                ),
            }),
            None => !ok && final(server)@ == old(server)@,
        },
{
    match parse_client_msg(payload) {
        Some(msg) => {
            server.handle_client_msg(msg, client_id);
            true
        },
        None => false,
    }
}

} // verus!
