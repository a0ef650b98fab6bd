//! Shared core of the wanna want-list: the model, sort keys for ordering,
//! and the decision logic of the server and the terminal client.

pub mod text;
pub mod pos;
pub mod model;
pub mod input;
pub mod store;
pub mod config;
pub mod sync;
pub mod client;
pub mod server;
pub mod ui;
pub mod app;
pub mod migrate;
pub mod moves;

