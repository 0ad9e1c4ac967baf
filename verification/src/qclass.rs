//! Query classes: a closed set of well-known codes plus an explicit
//! unknown-numeric-value fallback, so unrecognized codes round-trip.

use vstd::prelude::*;

verus! {

/// A query class code.
#[derive(Clone, Copy, Debug, PartialEq, Eq, Structural)]
pub enum QClass {
    UNKNOWN(u16),
    INTERNET,
}

/// The numeric code of a class.
pub open spec fn qclass_num(c: QClass) -> u16 {
    match c {
        QClass::INTERNET => 1,
        QClass::UNKNOWN(x) => x,
    }
}

/// The class a numeric code decodes to.
pub open spec fn qclass_of(num: u16) -> QClass {
    if num == 1 {
        QClass::INTERNET
    } else {
        QClass::UNKNOWN(num)
    }
}

/// A class that decoding can produce: its unknown fallback never
/// shadows a well-known code.
pub open spec fn wf_qclass(c: QClass) -> bool {
    qclass_of(qclass_num(c)) == c
}

/// A numeric code survives decode and re-encode exactly.
pub proof fn lemma_qclass_num_roundtrip(num: u16)
    ensures
        qclass_num(qclass_of(num)) == num,
        wf_qclass(qclass_of(num)),
{
}

impl QClass {
    /// The class carried by a numeric code; an unrecognized code is
    /// kept, not rejected.
    pub fn from_num(num: u16) -> (r: QClass)
        ensures
            r == qclass_of(num),
    {
        match num {
            1 => QClass::INTERNET,
            _ => QClass::UNKNOWN(num),
        }
    }

    /// The numeric code of this class.
    pub fn to_num(&self) -> (r: u16)
        ensures
            r == qclass_num(*self),
    {
        match self {
            QClass::INTERNET => 1,
            QClass::UNKNOWN(x) => *x,
        }
    }
}

} // verus!
