use vstd::prelude::*;

verus! {

/// The server's answer to a subscription: accepted, or refused with the
/// reason (on the wire, the variants are named `Ok` and `Err`).
pub enum SubscribeResult {
    Accepted,
    Refused(SubscribeError),
}

/// Why a subscription was refused.
pub enum SubscribeError {
    AlreadyRegistered,
    InvalidName,
}

} // verus!
