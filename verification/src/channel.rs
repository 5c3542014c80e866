//! Trusted boundary to the event and emission channels.
//!
//! The engine owns one unbounded channel fed by the hook callbacks (one
//! `u16` key identifier per physical press) and emits triggered action names
//! into a sink channel owned by the downstream consumer. Nothing is promised
//! of what a receive returns: another thread produces, so every outcome must
//! be handled by the verified caller.

use vstd::prelude::*;

verus! {

#[verifier::external_type_specification]
#[verifier::external_body]
#[verifier::reject_recursive_types(T)]
pub struct ExSender<T>(crossbeam_channel::Sender<T>);

#[verifier::external_type_specification]
#[verifier::external_body]
#[verifier::reject_recursive_types(T)]
pub struct ExReceiver<T>(crossbeam_channel::Receiver<T>);

/// Relies on `crossbeam_channel::unbounded`: a fresh channel whose sends
/// never block.
#[verifier::external_body]
pub(crate) fn new_key_channel() -> (crossbeam_channel::Sender<u16>, crossbeam_channel::Receiver<u16>) {
    crossbeam_channel::unbounded::<u16>()
}

/// Relies on `crossbeam_channel::Sender::clone`: a handle sending into the
/// same channel.
#[verifier::external_body]
pub(crate) fn clone_key_sender(s: &crossbeam_channel::Sender<u16>) -> crossbeam_channel::Sender<u16> {
    s.clone()
}

/// Relies on `crossbeam_channel::Receiver::try_recv`: it never blocks and
/// returns a pending message if one exists. The producer runs on another
/// thread, so nothing is promised of the outcome.
#[verifier::external_body]
pub(crate) fn try_recv_key(r: &crossbeam_channel::Receiver<u16>) -> Option<u16> {
    r.try_recv().ok()
}

/// Relies on `crossbeam_channel::Sender::send` on an unbounded channel: it
/// never blocks. A send onto a disconnected channel fails; the failure is
/// swallowed so that polling never crashes.
#[verifier::external_body]
pub(crate) fn send_action(s: &crossbeam_channel::Sender<String>, action: String) {
    let _ = s.send(action);
}

} // verus!
