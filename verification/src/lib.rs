//! Verified utilities of a blockchain node: the base32 address codec with
//! its checksum, the record of the events in the life of a block, the meters
//! of peer-to-peer messages, and the election of the genesis committee of
//! the proof-of-stake chain with its public key file.
pub mod bits;
pub mod consts;
pub mod types;
pub mod utils;
pub mod text;
pub mod network;
pub mod addr;
pub mod addr_laws;
pub mod event;
pub mod block;
pub mod recorder;
pub mod meter;
pub mod genesis;
pub mod keyfile;
