//! A sandboxed shell: its environment, globbing, I/O handles, job table and
//! built-in commands, each with a contract that Verus proves.
pub mod args;
pub mod ast;
pub mod base64;
pub mod catalog;
pub mod commands;
pub mod context;
pub mod demo;
pub mod env;
pub mod error;
pub mod escape;
pub mod fs;
pub mod glob;
pub mod io_handle;
pub mod jobs;
pub mod json;
pub mod lines;
pub mod list;
pub mod num;
pub mod order;
pub mod path;
pub mod round;
pub mod text;
pub mod unicode;
