//! One-shot remote execution orchestration: provision a workspace on a
//! remote host, mirror a local directory tree into it, run a command there,
//! stream its output, and tear the workspace down again.
//!
//! The remote filesystem is modelled explicitly ([`fsmodel::RemoteFs`]), and
//! every orchestration step is a verified function over that model together
//! with the plain values (paths, file contents, poll events) that the
//! unverified transport layer hands in and out.

pub mod config;
pub mod fsmodel;
pub mod path;
pub mod provision;
pub mod runner;
pub mod session;
pub mod stream;
pub mod sync;
pub mod teardown;
