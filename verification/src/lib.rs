//! Relay core for infrared remote-control key events.
//!
//! A receiver reports every key press as a line of text and keeps repeating
//! the report, with a growing counter, for as long as the key is held.  The
//! relay reads these reports, turns each press into one `NEW` or one `HOLD`
//! event, and hands the events to every client that is connected.
//!
//! This crate holds what the relay decides and computes; sockets, threads and
//! signals are left to the program around it.
//!
//! * [`event`] and [`codec`]: the event and its line on the wire, read and
//!   written with [`fields`] and [`hex`].
//! * [`classifier`]: the state machine that tells a tap from a hold.
//! * [`registry`]: the connected clients and the fan-out to their queues.
//! * [`shutdown`]: who stops the relay, and with what exit status.
//! * [`tools`]: rules of the two helper programs around the relay.

pub mod classifier;
pub mod codec;
pub mod event;
pub mod fields;
pub mod hex;
pub mod registry;
pub mod shutdown;
pub mod tools;
