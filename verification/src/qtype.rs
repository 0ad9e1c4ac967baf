//! Record types: a closed set of well-known codes plus an explicit
//! unknown-numeric-value fallback, so unrecognized codes round-trip.

use vstd::prelude::*;

verus! {

/// A record type code.
#[derive(Clone, Copy, Debug, PartialEq, Eq, Structural)]
pub enum QType {
    UNKNOWN(u16),
    A,
    NS,
    SOA,
    CNAME,
    PTR,
    MX,
    TXT,
    OPTION,
}

/// The numeric code of a type.
pub open spec fn qtype_num(t: QType) -> u16 {
    match t {
        QType::A => 1,
        QType::NS => 2,
        QType::SOA => 6,
        QType::CNAME => 5,
        QType::PTR => 12,
        QType::MX => 15,
        QType::TXT => 16,
        QType::OPTION => 41,
        QType::UNKNOWN(num) => num,
    }
}

/// The type a numeric code decodes to.
pub open spec fn qtype_of(num: u16) -> QType {
    if num == 1 {
        QType::A
    } else if num == 2 {
        QType::NS
    } else if num == 6 {
        QType::SOA
    } else if num == 5 {
        QType::CNAME
    } else if num == 12 {
        QType::PTR
    } else if num == 15 {
        QType::MX
    } else if num == 16 {
        QType::TXT
    } else if num == 41 {
        QType::OPTION
    } else {
        QType::UNKNOWN(num)
    }
}

/// A type that decoding can produce: its unknown fallback never
/// shadows a well-known code.
pub open spec fn wf_qtype(t: QType) -> bool {
    qtype_of(qtype_num(t)) == t
}

/// A numeric code survives decode and re-encode exactly.
pub proof fn lemma_qtype_num_roundtrip(num: u16)
    ensures
        qtype_num(qtype_of(num)) == num,
        wf_qtype(qtype_of(num)),
{
}

/// The type named by a textual mnemonic, if any.
pub open spec fn qtype_of_text(s: Seq<char>) -> Option<QType> {
    if s == "A"@ {
        Some(QType::A)
    } else if s == "NS"@ {
        Some(QType::NS)
    } else if s == "SOA"@ {
        Some(QType::SOA)
    } else if s == "CNAME"@ {
        Some(QType::CNAME)
    } else if s == "PTR"@ {
        Some(QType::PTR)
    } else if s == "MX"@ {
        Some(QType::MX)
    } else if s == "TXT"@ {
        Some(QType::TXT)
    } else {
        None
    }
}

/// Whether two text slices spell the same characters.
fn text_eq(a: &str, b: &str) -> (r: bool)
    ensures
        r == (a@ == b@),
{
    let alen = a.unicode_len();
    let blen = b.unicode_len();
    if alen != blen {
        return false;
    }
    let mut i: usize = 0;
    while i < alen
        invariant
            i <= alen,
            alen == a@.len(),
            alen == b@.len(),
            forall|j: int| 0 <= j < i ==> a@[j] == b@[j],
        decreases alen - i,
    {
        if a.get_char(i) != b.get_char(i) {
            return false;
        }
        i = i + 1;
    }
    proof {
        assert(a@ =~= b@);
    }
    true
}

impl QType {
    /// The type carried by a numeric code; an unrecognized code is
    /// kept, not rejected.
    pub fn from_num(num: u16) -> (r: QType)
        ensures
            r == qtype_of(num),
    {
        match num {
            1 => QType::A,
            2 => QType::NS,
            6 => QType::SOA,
            5 => QType::CNAME,
            12 => QType::PTR,
            15 => QType::MX,
            16 => QType::TXT,
            41 => QType::OPTION,
            _ => QType::UNKNOWN(num),
        }
    }

    /// The type named by a textual mnemonic, if any.
    pub fn from_str(qtype: &str) -> (r: Option<QType>)
        ensures
            r == qtype_of_text(qtype@),
    {
        if text_eq(qtype, "A") {
            Some(QType::A)
        } else if text_eq(qtype, "NS") {
            Some(QType::NS)
        } else if text_eq(qtype, "SOA") {
            Some(QType::SOA)
        } else if text_eq(qtype, "CNAME") {
            Some(QType::CNAME)
        } else if text_eq(qtype, "PTR") {
            Some(QType::PTR)
        } else if text_eq(qtype, "MX") {
            Some(QType::MX)
        } else if text_eq(qtype, "TXT") {
            Some(QType::TXT)
        } else {
            None
        }
    }

    /// The numeric code of this type.
    pub fn to_num(&self) -> (r: u16)
        ensures
            r == qtype_num(*self),
    {
        match self {
            QType::A => 1,
            QType::NS => 2,
            QType::SOA => 6,
            QType::CNAME => 5,
            QType::PTR => 12,
            QType::MX => 15,
            QType::TXT => 16,
            QType::OPTION => 41,
            QType::UNKNOWN(num) => *num,
        }
    }
}

} // verus!
