//! Client-side transport for the nREPL wire protocol.
//!
//! An operation request (an operation name plus string-valued named
//! arguments) is encoded as a single bencode dict with its keys in
//! ascending byte order; the server answers with a stream of bencode
//! dicts, the last of which carries a `status` key.  This crate holds
//! the verified core: the bencode codec, request encoding, response
//! validation, and the read-loop state machine.  Socket I/O itself is
//! left to the embedding program, which feeds raw bytes to
//! [`transport::OpReader`].

pub mod bencode;
pub mod nrepl;
pub mod transport;
