//! A node of a peer-to-peer network that runs language models split by layers:
//! the data it keeps, the decisions it takes, and the bytes it exchanges.

pub mod attachments;
pub mod capacity;
pub mod chat;
pub mod client_flow;
pub mod clock;
pub mod commands;
pub mod compute;
pub mod config;
pub mod crypto;
pub mod discovery;
pub mod display;
pub mod generation;
pub mod gossip;
pub mod hosting;
pub mod identity;
pub mod lists;
pub mod logits;
pub mod marketplace;
pub mod orchestrator;
pub mod patches;
pub mod paths;
pub mod registry;
pub mod relay;
pub mod repair;
pub mod serve;
pub mod sessions;
pub mod survival;
pub mod tensor;
pub mod text;
pub mod transport;
pub mod tui;
pub mod units;
pub mod wire;
pub mod worker;
