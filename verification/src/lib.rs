//! Live resource statistics for running containers, pushed to observers.
//!
//! The library holds what is decided and computed on the way from the
//! container runtime to the observers; talking to the runtime and to the
//! observers is left to the program around it.
//!
//! - [`format`] renders raw metrics for display.
//! - [`api`] holds the sample of one source, its display-ready projection, and
//!   the parameters of a page request.
//! - [`batch`] turns one round of sampling into the batch that is sent.
//! - [`registry`] keeps the table of observers and says when the broadcast
//!   loop has to start and when it has to stop.
//! - [`lifecycle`] states what that protocol guarantees about the loop.
//! - [`text`] holds the text operations the others are built on.

pub mod api;
pub mod batch;
pub mod format;
pub mod lifecycle;
pub mod registry;
pub mod text;
