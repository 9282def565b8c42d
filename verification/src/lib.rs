//! Locating and driving the widgets of a running application through the
//! accessibility tree that the desktop exposes.
//!
//! The crate holds the decisions: how a walk over remote objects becomes an
//! owned snapshot, which node of a snapshot answers a query, which of the
//! applications on the bus is the one asked for, and which action of a widget
//! stands for a click. A caller that talks to the accessibility bus performs
//! the remote calls and hands their plain results in.

pub mod api;
pub mod prelude;
pub mod snapshot;
pub mod fold;
pub mod text;
pub mod error;
pub mod interaction;
pub mod session;
pub mod builder;
