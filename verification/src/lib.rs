//! Verified core of a small client/daemon password manager: the request
//! protocol, the master-password check, record storage and encryption, and
//! the state of the terminal interface.

pub mod constants;
pub mod text;
pub mod cipher;
pub mod storage;
pub mod daemon;
pub mod cli;
pub mod screen;
