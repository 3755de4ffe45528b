//! Verified core of a WebSocket-to-guacd bridge.
//!
//! A browser opens a WebSocket with an encrypted token; the bridge decrypts the
//! token, runs the Guacamole handshake with guacd for the connection that the token
//! describes, and relays bytes both ways. Everything here computes on plain values:
//! sockets, files and the environment belong to the program around it.

pub mod bridge;
pub mod bridge_laws;
pub mod cli;
pub mod handshake;
pub mod handshake_laws;
pub mod instruction;
pub mod instruction_laws;
pub mod parse_laws;
pub mod reader;
pub mod reader_laws;
pub mod settings;
pub mod text;
pub mod text_laws;
pub mod token;
pub mod token_laws;
pub mod utf8;
