//! A fleet of game servers: spatial partitioning, publish/subscribe routing,
//! entity handoff between shards, server registration and login.

pub mod broker;
pub mod client;
pub mod game;
pub mod gatekeeper;
pub mod handoff;
pub mod orchestrator;
pub mod outside;
pub mod packet;
pub mod protocol;
pub mod quad_tree;
pub mod resources;
pub mod server;
pub mod shared;
pub mod single;
pub mod spatial;
pub mod text;
pub mod timer;
pub mod vec_map;
pub mod wire;
