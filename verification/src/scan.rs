//! The one scanning primitive every parser shares: the position of the first
//! byte of a sequence that falls outside a character class.

use vstd::prelude::*;

verus! {

/// The index of the first byte of `s` that does not satisfy `f`, or `None`
/// when every byte of `s` does. Each tokenizer of the grammar is a scan with
/// a different class followed by a check of the stopping byte.
pub open spec fn scan_while(s: Seq<u8>, f: spec_fn(u8) -> bool) -> Option<int>
    decreases s.len(),
{
    if s.len() == 0 {
        None
    } else if !f(s[0]) {
        Some(0)
    } else {
        match scan_while(s.skip(1), f) {
            None => None,
            Some(i) => Some(i + 1),
        }
    }
}

/// What a scan result means: a returned index is in bounds, its byte fails
/// the class, and every byte before it satisfies the class; `None` means the
/// whole sequence satisfies it.
pub proof fn lemma_scan_while(s: Seq<u8>, f: spec_fn(u8) -> bool)
    ensures
        match scan_while(s, f) {
            None => forall|j: int| 0 <= j < s.len() ==> f(s[j]),
            Some(i) => 0 <= i < s.len() && !f(s[i]) && (forall|j: int| 0 <= j < i ==> f(s[j])),
        },
    decreases s.len(),
{
    if s.len() == 0 {
    } else if !f(s[0]) {
    } else {
        lemma_scan_while(s.skip(1), f);
        assert forall|j: int| 0 <= j < s.len() && scan_while(s.skip(1), f) is None implies f(
            s[j],
        ) by {
            if j > 0 {
                assert(s.skip(1)[j - 1] == s[j]);
            }
        }
        if let Some(i) = scan_while(s.skip(1), f) {
            assert forall|j: int| 0 <= j < i + 1 implies f(s[j]) by {
                if j > 0 {
                    assert(s.skip(1)[j - 1] == s[j]);
                }
            }
        }
    }
}

/// The converse: an in-bounds index whose byte fails the class, preceded only
/// by bytes that satisfy it, is exactly what the scan returns.
pub proof fn lemma_scan_while_at(s: Seq<u8>, f: spec_fn(u8) -> bool, i: int)
    requires
        0 <= i < s.len(),
        !f(s[i]),
        forall|j: int| 0 <= j < i ==> f(s[j]),
    ensures
        scan_while(s, f) == Some(i),
    decreases i,
{
    if i == 0 {
    } else {
        assert forall|j: int| 0 <= j < i - 1 implies f(s.skip(1)[j]) by {
            assert(s.skip(1)[j] == s[j + 1]);
        }
        assert(s.skip(1)[i - 1] == s[i]);
        lemma_scan_while_at(s.skip(1), f, i - 1);
    }
}

/// The converse for an exhausted scan: when every byte satisfies the class,
/// the scan returns `None`.
pub proof fn lemma_scan_while_none(s: Seq<u8>, f: spec_fn(u8) -> bool)
    requires
        forall|j: int| 0 <= j < s.len() ==> f(s[j]),
    ensures
        scan_while(s, f) is None,
    decreases s.len(),
{
    if s.len() > 0 {
        assert forall|j: int| 0 <= j < s.len() - 1 implies f(s.skip(1)[j]) by {
            assert(s.skip(1)[j] == s[j + 1]);
        }
        lemma_scan_while_none(s.skip(1), f);
    }
}

} // verus!
