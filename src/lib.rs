//! A BitTorrent download engine: piece storage with completion tracking and
//! SHA-1 verification, the peer wire protocol codec, the peer table, the
//! piece-selection strategy and the timers that drive the event loop.
pub mod digest;
pub mod file;
pub mod p2p;
pub mod peers;
pub mod strategy;
pub mod timer;
pub mod torrent;
pub mod tracker;
pub mod session;
