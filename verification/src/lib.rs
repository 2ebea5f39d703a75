//! Core of a line-oriented chat-protocol client: message model and codec,
//! session state machine, priority send queues, rate limiting, and the
//! decision logic of the dispatcher.  Everything here is verified; the
//! surrounding I/O (sockets, TLS, HTTP, disk) lives outside this crate's
//! verified boundary.

pub mod codec;
pub mod config;
pub mod connection;
pub mod handler;
pub mod helpers;
pub mod invite;
pub mod ircstate;
pub mod moosecmd;
pub mod parse;
pub mod receiver;
pub mod sender;
pub mod webreq;
