//! Core of a desktop volume mixer: the records that mirror the sound server's
//! playback streams and main channels, the reconciliation that keeps them in
//! step with each fresh snapshot, and the translation of user intents into
//! server commands.
pub mod dispatch;
pub mod listing;
pub mod display;
pub mod reconcile;
pub mod session;
pub mod types;
