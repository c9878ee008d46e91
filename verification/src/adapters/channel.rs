//! `std::sync::mpsc::Sender`.

use std::sync::mpsc::Sender;
use vstd::prelude::*;

verus! {

/// The sending half of a channel.
#[verifier::external_type_specification]
#[verifier::external_body]
#[verifier::reject_recursive_types(T)]
pub struct ExSender<T>(Sender<T>);

/// `Sender::send`: sends a value, and says whether that worked. Nothing is
/// claimed of the result: it rests on whether the other half still exists.
/// Those who call it say in their contracts what they hand to it.
#[verifier::external_body]
pub fn send<T>(sender: &Sender<T>, value: T) -> (r: bool) {
    sender.send(value).is_ok()
}

} // verus!
