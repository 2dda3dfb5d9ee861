use vstd::prelude::*;

pub mod json;
pub mod navigation;
pub mod position;
pub mod search;
pub mod server;
pub mod text;
pub mod transport;

pub use server::LspServer;
