use vstd::prelude::*;

verus! {

/// The server's greeting, wrapped under its message name.
pub struct WelcomeMessage {
    welcome: Welcome,
}

/// The version of the protocol the server speaks.
struct Welcome {
    version: u8,
}

} // verus!
