//! A minimal real-time group chat service core over WebSockets: a binary
//! frame codec for single unfragmented text frames, a lossless wire encoding
//! for the chat protocol messages, the coordinator that registers sessions,
//! enforces username uniqueness and fans out broadcasts, and the per-session
//! reader and writer decisions around them.

pub mod chat;
pub mod frame;
pub mod http;
pub mod messages;
pub mod session;
