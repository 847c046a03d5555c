//! The world-state layer of an automated game client: a chunked store of
//! block states received piecemeal from a server, with point lookups and
//! spatial searches over what is known so far.

pub mod block;
pub mod chunk;
pub mod blocks;
pub mod query;
pub mod sort;
pub mod generate;
pub mod laws;
pub mod protocol;
pub mod auth;
