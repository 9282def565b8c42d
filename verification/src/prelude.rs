//! Quick access to all useful items for getting started.

pub use crate::api::{By, Interaction, TestByA11y};
pub use crate::error::TestByATSPIError;
