//! A store of values under keys: strings, lists, sets and sorted sets, with
//! expirations, and channels that carry messages.

pub mod adapters;
pub mod assoc;
pub mod bytemap;
pub mod byteset;
pub mod calls;
pub mod config;
pub mod database;
pub mod dbutil;
pub mod draw;
pub mod error;
pub mod glob;
pub mod history;
pub mod intset;
pub mod laws;
pub mod lex;
pub mod list;
pub mod listeners;
pub mod number;
pub mod pubsub;
pub mod rdb;
pub mod response;
pub mod score;
pub mod set;
pub mod string;
pub mod table;
pub mod value;
pub mod zset;

pub use crate::database::Database;
pub use crate::pubsub::PubsubEvent;
pub use crate::value::Value;
