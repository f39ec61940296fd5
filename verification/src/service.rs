//! Types of the RPC front end that consumes the transport.  Every handler
//! of that front end is an unimplemented stub; the server plumbing around
//! these types lives with the program that runs it.

use vstd::prelude::*;

verus! {

/// A topic's route, to be filled in when route lookup is implemented.
pub struct Route {}

/// The front-end server owner.
pub struct GrpcMessagingServer {}

impl GrpcMessagingServer {
    pub fn new() -> (r: Self)
        ensures
            (r == GrpcMessagingServer {  }),
    {
        GrpcMessagingServer {  }
    }
}

/// The stub implementation behind every front-end handler.
#[derive(Debug)]
pub struct MessagingServer {}

impl Default for MessagingServer {
    fn default() -> (r: Self)
        ensures
            (r == MessagingServer {  }),
    {
        MessagingServer {  }
    }
}

} // verus!
