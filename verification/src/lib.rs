//! Core logic of a small x86-64 hobby kernel: file systems, memory
//! management, input handling and the pieces of the shell that decide
//! things, each stated against a mathematical model and proved.
use vstd::prelude::*;

pub mod abi;
pub mod api;
pub mod app;
pub mod audio;
pub mod debug;
pub mod fs;
pub mod init;
pub mod input;
pub mod mem;
pub mod net;
pub mod tui;
