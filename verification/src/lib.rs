//! An in-memory key-value cache speaking a line-and-bulk wire protocol.
//!
//! The library holds the verified core: the incremental frame codec, the
//! reply encoders, the store, the command dispatcher, and the per-connection
//! byte pipeline. The surrounding binary supplies sockets and threads and
//! feeds plain bytes through these functions.
pub mod codec;
pub mod codec_laws;
pub mod dispatch;
pub mod dispatch_laws;
pub mod pat;
pub mod reply;
pub mod session;
pub mod store;
