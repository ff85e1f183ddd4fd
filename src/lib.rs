//! Reliable-messaging and topology engine of a content server in a
//! source-routed overlay network.
//!
//! The server answers file list, text file, media file and server type
//! requests. Answers are split into fixed-size fragments and sent back along
//! the reverse of the route the request took. Each fragment is kept until it
//! is acknowledged. Negative acknowledgements make the server send fragments
//! again, along shortest routes over a graph that network-discovery floods
//! keep up to date. Every handler returns the actions (packets to send, events
//! to report, files to read) that its caller carries out.

pub mod packet;
pub mod topology;
pub mod route;
pub mod fragment;
mod clock;
pub mod server;
pub mod delivery;
pub mod flood;
pub mod requests;
pub mod message;
pub mod assembler;
pub mod index;
pub mod picture;
