use vstd::prelude::*;
use crate::messages::message_welcome::WelcomeMessage;

verus! {

/// The greeting exchange: the client's hello, the server's welcome.
pub enum MessageType {
    Hello,
    Welcome(WelcomeMessage),
}

} // verus!
