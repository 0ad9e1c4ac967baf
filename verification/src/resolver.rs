//! The resolution policy: what answer to produce for a decoded query.
//! Today it is a pass-through that echoes the query unchanged.

use vstd::prelude::*;

use crate::message::Message;

verus! {

/// The answer policy applied between decode and re-encode.
pub struct Resolver {}

impl Resolver {
    /// A resolver with the current policy.
    pub fn new() -> (r: Resolver) {
        Resolver {  }
    }

    /// The message to answer `msg` with: today, `msg` itself.
    pub fn resolve(&self, msg: Message) -> (r: Message)
        ensures
            r == msg,
    {
        msg
    }
}

} // verus!
