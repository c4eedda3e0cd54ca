//! A relay for text messages between connected peers: every text frame that one
//! connection sends is handed on to every connection registered at that moment, the
//! sender included.
//!
//! The crate holds the decisions of such a relay and proves them with Verus: how a
//! connection gets its identity, which connections a broadcast reaches and in which
//! order, and which step a session takes on each event. Reading and writing sockets is
//! left to the program around it, which performs each [`session::Action`] and reports
//! back the matching [`session::Event`].

pub mod config;
pub mod fanout;
pub mod identity;
pub mod registry;
pub mod session;
