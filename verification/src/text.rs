//! Reading an optional `PREFIX-` in front of a text form.

use vstd::prelude::*;
use vstd::slice::*;

verus! {

/// The byte of the separator between a prefix and the text it announces.
pub const SEPARATOR: u8 = 0x2d;

/// Whether the only separator of `s` is at index `i`.
pub open spec fn single_separator_at(s: Seq<u8>, i: int) -> bool {
    &&& 0 <= i < s.len()
    &&& s[i] == SEPARATOR
    &&& forall|j: int| 0 <= j < s.len() && j != i ==> s[j] != SEPARATOR
}

/// Whether `s` holds exactly one separator, so that it splits in two parts.
pub open spec fn has_single_separator(s: Seq<u8>) -> bool {
    exists|i: int| single_separator_at(s, i)
}

/// The index of the only separator of `s`.
pub open spec fn separator_index(s: Seq<u8>) -> int {
    choose|i: int| single_separator_at(s, i)
}

/// What stands before the only separator of `s`.
pub open spec fn prefix_part(s: Seq<u8>) -> Seq<u8> {
    s.subrange(0, separator_index(s))
}

/// What stands behind the only separator of `s`.
pub open spec fn body_part(s: Seq<u8>) -> Seq<u8> {
    s.subrange(separator_index(s) + 1, s.len() as int)
}

/// Two positions that are each the only separator are the same position.
pub proof fn lemma_single_separator_unique(s: Seq<u8>, i: int, j: int)
    requires
        single_separator_at(s, i),
        single_separator_at(s, j),
    ensures
        i == j,
{
}

/// Finds the only separator of `s`, if it has exactly one.
pub fn find_single_separator(s: &[u8]) -> (r: Option<usize>)
    ensures
        r is Some <==> has_single_separator(s@),
        r is Some ==> r.unwrap() == separator_index(s@) && single_separator_at(
            s@,
            r.unwrap() as int,
        ),
{
    let mut found: Option<usize> = None;
    let mut i: usize = 0;
    while i < s.len()
        invariant
            i <= s@.len(),
            found is None ==> forall|j: int| 0 <= j < i ==> s@[j] != SEPARATOR,
            found is Some ==> {
                &&& found.unwrap() < i
                &&& s@[found.unwrap() as int] == SEPARATOR
                &&& forall|j: int| 0 <= j < i && j != found.unwrap() ==> s@[j] != SEPARATOR
            },
        decreases s@.len() - i,
    {
        if s[i] == SEPARATOR {
            if found.is_some() {
                proof {
                    let f = found.unwrap() as int;
                    assert forall|k: int| !single_separator_at(s@, k) by {
                        if single_separator_at(s@, k) {
                            if k != f {
                                assert(s@[f] != SEPARATOR);
                            } else {
                                assert(s@[i as int] != SEPARATOR);
                            }
                        }
                    }
                }
                return None;
            }
            found = Some(i);
        }
        i += 1;
    }
    proof {
        if found is Some {
            let f = found.unwrap() as int;
            assert(single_separator_at(s@, f));
            lemma_single_separator_unique(s@, f, separator_index(s@));
        } else {
            assert forall|k: int| !single_separator_at(s@, k) by {}
        }
    }
    found
}

/// Compares two byte strings.
pub fn bytes_eq(a: &[u8], b: &[u8]) -> (r: bool)
    ensures
        r == (a@ == b@),
{
    if a.len() != b.len() {
        return false;
    }
    let mut i: usize = 0;
    while i < a.len()
        invariant
            i <= a@.len(),
            a@.len() == b@.len(),
            forall|j: int| 0 <= j < i ==> a@[j] == b@[j],
        decreases a@.len() - i,
    {
        if a[i] != b[i] {
            return false;
        }
        i += 1;
    }
    assert(a@ =~= b@);
    true
}

} // verus!
