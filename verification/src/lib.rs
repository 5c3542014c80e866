//! Binding of named actions to sets of simultaneously held keys.
//!
//! The engine in [`hotkey_listener`] canonicalizes a collection of key names
//! into an order-independent fingerprint, keeps one action group per
//! fingerprint together with a reverse index from each key to the
//! fingerprints it participates in, and evaluates on every delivered key
//! event whether a whole group has been pressed within the trigger window.

pub mod channel;
pub mod config;
pub mod hotkey_listener;
pub mod keys;
pub mod order;
pub mod scripting;
