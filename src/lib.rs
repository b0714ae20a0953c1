//! Typed IPC over stream sockets: a codec that turns values into bytes plus
//! file descriptors sent beside them, length-prefixed frames tagged with an
//! endpoint's magic and a method id, endpoint declarations and their method
//! ids, and the clipboard endpoint with the server step that serves it.
//! Reading, writing and passing descriptors on the socket is left to the
//! caller, which feeds bytes in and writes the frames that come out.

pub mod buffer;
pub mod clipboard;
pub mod codec;
pub mod dictionary;
pub mod frame;
pub mod gfx;
pub mod le;
pub mod magic;
pub mod schema;
pub mod schema_text;
pub mod server;
pub mod tuple;
