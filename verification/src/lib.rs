pub mod types;
pub mod order;
pub mod events;
pub mod price_level;
pub mod book;
pub mod model;
pub mod matcher;
pub mod lemmas;
pub mod le;
pub mod wal;
pub mod protocol;
pub mod laws;
pub mod snapshot;
pub mod engine;
pub mod sequencer;
pub mod latency;
pub mod router;
pub mod json;
pub mod writer;
pub mod feed;
pub mod loadgen;
pub mod ids;
pub mod index;
pub mod segment;
