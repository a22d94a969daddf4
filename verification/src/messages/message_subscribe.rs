use vstd::prelude::*;

verus! {

/// A subscription, wrapped under its message name.
struct SubscribeMessage {
    subscribe: Subscribe,
}

/// The request to join the game under a name.
struct Subscribe {
    name: String,
}

} // verus!
