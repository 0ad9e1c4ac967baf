//! A bag of protocol header lines, as an HTTP client collects them:
//! names are case-folded on entry, values trimmed, and lookup hands
//! back the first value entered under a name.

use vstd::prelude::*;

verus! {

/// What `str::to_lowercase` returns: a function of the characters
/// alone.
pub uninterp spec fn lower_of(s: Seq<char>) -> Seq<char>;

/// What `str::trim` returns: the text without its leading and
/// trailing whitespace, a function of the characters alone.
pub uninterp spec fn trim_of(s: Seq<char>) -> Seq<char>;

/// Relies on `str::to_lowercase`: the result depends on the
/// characters alone.
#[verifier::external_body]
fn lowercase(s: &str) -> (r: String)
    ensures
        r@ == lower_of(s@),
{
    s.to_lowercase()
}

/// Relies on `str::trim`: the result depends on the characters alone.
#[verifier::external_body]
fn trimmed(s: &str) -> (r: String)
    ensures
        r@ == trim_of(s@),
{
    String::from(s.trim())
}

/// The first value entered under `k`, if any.
pub open spec fn first_value(es: Seq<(Seq<char>, Seq<char>)>, k: Seq<char>) -> Option<Seq<char>>
    decreases es.len(),
{
    if es.len() == 0 {
        None
    } else if es[0].0 == k {
        Some(es[0].1)
    } else {
        first_value(es.drop_first(), k)
    }
}

/// Header lines in the order they were added, each a case-folded name
/// with a trimmed value.
#[derive(Debug)]
pub struct HeadersBag {
    entries: Vec<(String, String)>,
}

impl View for HeadersBag {
    type V = Seq<(Seq<char>, Seq<char>)>;

    closed spec fn view(&self) -> Seq<(Seq<char>, Seq<char>)> {
        self.entries.deep_view()
    }
}

impl HeadersBag {
    /// An empty bag.
    pub fn new() -> (r: HeadersBag)
        ensures
            r@ == Seq::<(Seq<char>, Seq<char>)>::empty(),
    {
        let r = HeadersBag { entries: Vec::new() };
        proof {
            assert(r@ =~= Seq::<(Seq<char>, Seq<char>)>::empty());
        }
        r
    }

    /// Enter one raw header line.  The text before the first `:`
    /// becomes the name, case-folded; the text after it becomes the
    /// value, trimmed.  A line without `:` is ignored.
    pub fn add_from_string(&mut self, header: String)
        ensures
            (forall|i: int| 0 <= i < header@.len() ==> header@[i] != ':') ==> final(self)@ == old(
                self,
            )@,
            forall|i: int|
                (0 <= i < header@.len() && header@[i] == ':' && (forall|j: int|
                    0 <= j < i ==> header@[j] != ':')) ==> final(self)@ == old(self)@.push(
                    (lower_of(header@.take(i)), trim_of(header@.skip(i + 1))),
                ),
    {
        let n = header.as_str().unicode_len();
        let ghost orig = self@;
        let mut idx: usize = 0;
        while idx < n
            invariant
                idx <= n,
                n == header@.len(),
                orig == old(self)@,
                self@ == orig,
                forall|j: int| 0 <= j < idx ==> header@[j] != ':',
            decreases n - idx,
        {
            if header.as_str().get_char(idx) == ':' {
                let name = lowercase(header.as_str().substring_char(0, idx));
                let value = trimmed(header.as_str().substring_char(idx + 1, n));
                proof {
                    assert(header@.subrange(0, idx as int) =~= header@.take(idx as int));
                    assert(header@.subrange(idx + 1, n as int) =~= header@.skip(idx + 1));
                }
                self.entries.push((name, value));
                proof {
                    assert(self@ =~= orig.push(
                        (lower_of(header@.take(idx as int)), trim_of(header@.skip(idx + 1))),
                    ));
                }
                return ;
            }
            idx = idx + 1;
        }
    }

    /// The first value entered under `header`, if any.
    pub fn get_first(&self, header: String) -> (r: Option<String>)
        ensures
            match r {
                Some(s) => first_value(self@, header@) == Some(s@),
                None => first_value(self@, header@) is None,
            },
    {
        let mut idx: usize = 0;
        proof {
            assert(self@.skip(0) =~= self@);
        }
        while idx < self.entries.len()
            invariant
                idx <= self.entries@.len(),
                self@.len() == self.entries@.len(),
                first_value(self@, header@) == first_value(self@.skip(idx as int), header@),
            decreases self.entries@.len() - idx,
        {
            proof {
                assert(self@.skip(idx as int)[0] == self@[idx as int]);
                assert(self@.skip(idx as int).drop_first() =~= self@.skip(idx + 1));
                assert(self@[idx as int].0 == self.entries@[idx as int].0@);
            }
            if self.entries[idx].0.eq(&header) {
                let value = self.entries[idx].1.clone();
                proof {
                    assert(self@[idx as int].1 == self.entries@[idx as int].1@);
                }
                return Some(value);
            }
            idx = idx + 1;
        }
        proof {
            assert(self@.skip(self.entries@.len() as int) =~= Seq::<(Seq<char>, Seq<char>)>::empty());
        }
        None
    }
}

} // verus!
