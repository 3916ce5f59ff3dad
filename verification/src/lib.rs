//! Client-side synchronization of a remote mempool snapshot into a local
//! bitcoind node: an incremental binary frame decoder, a submission log, and
//! the controller that drives full-snapshot and catch-up fetches.

pub mod codec;
pub mod encode;
pub mod endpoint;
pub mod settings;
pub mod sink;
pub mod sync;
