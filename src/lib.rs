//! Retention of the most recent messages per recipient in a message log.
//!
//! A log document is read as a sequence of [`event::Event`]s; the [`router::Router`]
//! keeps, for every recipient, a [`circular_buffer::CircularBuffer`] of the last
//! messages addressed to it, and [`router::Router::collect`] merges those buffers
//! into one list ordered by message id, each message once.

pub mod circular_buffer;
pub mod event;
pub mod message;
pub mod router;
pub mod document;
pub mod spans;
