//! The core of a desktop assistant that talks to a local language model and edits a
//! project folder on its behalf.

pub mod agent;
pub mod blocks;
pub mod chat;
pub mod clip;
pub mod guarantees;
pub mod json;
pub mod number;
pub mod order;
pub mod paths;
pub mod prompts;
pub mod rounds;
pub mod server;
pub mod shell;
pub mod text;
pub mod walk;
pub mod workspace;
