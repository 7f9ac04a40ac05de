//! Configuration-driven hooks: flat `hook_<name>_<field>` settings become
//! hooks that turn host events into command lines.

pub mod text;
pub mod tokenizer;
pub mod event;
pub mod hook;
pub mod config;
pub mod dispatcher;
