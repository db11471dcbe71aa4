//! Peer-to-peer chat carried inside broadcast ARP request frames: the wire
//! codec, fragment reassembly with duplicate suppression, the packet layer and
//! the decision logic of the network worker.

pub mod channel;
pub mod config;
pub mod delivery;
pub mod error;
pub mod frame;
pub mod interfaces;
pub mod net;
pub mod packet;
pub mod reassembly;
pub mod ringbuffer;
pub mod ui;
pub mod worker;
