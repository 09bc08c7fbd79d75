//! A Server-Sent Events client core: retry policies, an incremental event
//! decoder, the checks on a response, and the reconnection state machine that
//! ties them together.
pub mod decoder;
pub mod driver;
pub mod natural;
pub mod policy;
pub mod session;
