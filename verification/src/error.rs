//! Failure taxonomy for decoding.

use vstd::prelude::*;

verus! {

/// Why a decode call failed.
///
/// `Incomplete` covers every way the bytes fail to form a complete
/// structure: the buffer is exhausted before an expected field, a
/// compression pointer aims outside the buffer or chains too long, or a
/// text field holds bytes that are not valid text.  `TrailingBytes`
/// means every declared section was decoded but unread bytes remain: a
/// malformed message is rejected rather than silently truncated.
#[derive(Clone, Copy, Debug, PartialEq, Eq, Structural)]
pub enum DecodeError {
    Incomplete,
    TrailingBytes,
}

} // verus!
