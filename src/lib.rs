//! An in-memory object broker: clients publish JSON values under names,
//! subscribe to the names a pattern matches and hear of each change, call
//! methods on objects that other clients provide, and relay byte streams
//! between each other.
pub mod admin;
pub mod client;
pub mod config;
pub mod ids;
pub mod json;
pub mod logger;
pub mod messages;
pub mod objects;
pub mod patterns;
pub mod rpc;
pub mod server;
pub mod text;
