use vstd::prelude::*;

verus! {

/// A subscription result, wrapped under its message name.
struct SubscribeResultMessage {
    subscribe_result: SubscribeResult,
}

/// Accepted (on the wire `Ok`) or refused (on the wire `Err`).
enum SubscribeResult {
    Accepted,
    Refused(SubscribeError),
}

/// Why a subscription was refused.
enum SubscribeError {
    AlreadyRegistered,
    InvalidName,
}

} // verus!
