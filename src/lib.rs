//! Synchronises named simulator variables ("datarefs") with local state:
//! names are resolved to numeric ids, subscriptions are framed for the
//! streaming channel, and incoming updates are routed back to the handler
//! registered under each name.

pub mod value;
pub mod battery;
pub mod dataref;
pub mod registry;
pub mod protocol;
pub mod session;
