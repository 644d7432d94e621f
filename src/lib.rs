//! A broker between a text editor and language servers: the verified core.
//!
//! The modules hold the data model and the decisions of the broker; the
//! threads, pipes and encoders around them live in the application crate.
pub mod broker;
pub mod display;
pub mod edits;
pub mod events;
pub mod framing;
pub mod handler;
pub mod nvim;
pub mod protocol;
pub mod root;
pub mod tracking;
