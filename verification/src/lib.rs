pub mod block;
pub mod bytes;
pub mod encoding;
pub mod hash;
pub mod transaction;
pub mod types;
pub mod keys;
pub mod wide;
pub mod pow;
pub mod state;
pub mod fork;
pub mod genesis;
pub mod chain;
pub mod mempool;
pub mod network;
pub mod storage;
pub mod node;
pub mod messages;
