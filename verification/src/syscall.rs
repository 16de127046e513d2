//! The system calls that reach the process and memory core.

pub mod call;
pub mod service;
