use vstd::prelude::*;
use vstd::slice::{slice_index_get, slice_subrange};

verus! {

/// The byte value of `:`; namespace paths are split on the two-byte
/// separator `::`.
pub const COLON: u8 = 58;

/// Whether the two-byte separator starts at position `i` of `s`.
pub open spec fn sep_at(s: Seq<u8>, i: int) -> bool {
    &&& 0 <= i
    &&& i + 1 < s.len()
    &&& s[i] == COLON
    &&& s[i + 1] == COLON
}

/// Position of the first separator in `s`, or -1 if there is none.
pub open spec fn sep_index(s: Seq<u8>) -> int
    decreases s.len(),
{
    if s.len() < 2 {
        -1
    } else if s[0] == COLON && s[1] == COLON {
        0
    } else {
        let r = sep_index(s.drop_first());
        if r < 0 {
            -1
        } else {
            r + 1
        }
    }
}

pub proof fn lemma_sep_index(s: Seq<u8>)
    ensures
        sep_index(s) == -1 ==> forall|i: int| !sep_at(s, i),
        sep_index(s) >= 0 ==> sep_at(s, sep_index(s)),
        sep_index(s) >= 0 ==> forall|i: int| 0 <= i < sep_index(s) ==> !sep_at(s, i),
    decreases s.len(),
{
    if s.len() < 2 {
        assert forall|i: int| !sep_at(s, i) by {}
    } else if s[0] == COLON && s[1] == COLON {
    } else {
        let t = s.drop_first();
        lemma_sep_index(t);
        assert forall|i: int| 0 <= i implies (sep_at(s, i + 1) <==> sep_at(t, i)) by {
            if i + 2 < s.len() {
                assert(t[i] == s[i + 1]);
                assert(t[i + 1] == s[i + 2]);
            }
        }
        let r = sep_index(t);
        if r < 0 {
            assert forall|i: int| !sep_at(s, i) by {
                if 0 <= i {
                    if i == 0 {
                    } else {
                        assert(!sep_at(t, i - 1));
                        assert(sep_at(s, i) <==> sep_at(t, i - 1));
                    }
                }
            }
        } else {
            assert(sep_at(t, r));
            assert(sep_at(s, r + 1));
            assert forall|i: int| 0 <= i < r + 1 implies !sep_at(s, i) by {
                if i == 0 {
                } else {
                    assert(!sep_at(t, i - 1));
                    assert(sep_at(s, i) <==> sep_at(t, i - 1));
                }
            }
        }
    }
}

/// The segments of a path: the maximal separator-free pieces, in order.
/// A path with no separator is a single segment; in particular the empty
/// path is the single empty segment.
pub open spec fn split_path(s: Seq<u8>) -> Seq<Seq<u8>>
    decreases s.len(),
{
    let i = sep_index(s);
    if 0 <= i && i + 2 <= s.len() {
        seq![s.subrange(0, i)] + split_path(s.subrange(i + 2, s.len() as int))
    } else {
        seq![s]
    }
}

/// The part of `s` before its first separator (all of `s` if there is none).
pub open spec fn head_part(s: Seq<u8>) -> Seq<u8> {
    let i = sep_index(s);
    if 0 <= i && i + 2 <= s.len() {
        s.take(i)
    } else {
        s
    }
}

/// The part of `s` after its first separator (empty if there is none).
pub open spec fn tail_rest(s: Seq<u8>) -> Seq<u8> {
    let i = sep_index(s);
    if 0 <= i && i + 2 <= s.len() {
        s.skip(i + 2)
    } else {
        Seq::empty()
    }
}

/// Finds the first `::` separator, if any.
pub fn find_sep(s: &[u8]) -> (r: Option<usize>)
    ensures
        match r {
            Some(i) => sep_index(s@) == i,
            None => sep_index(s@) == -1,
        },
{
    let n = s.len();
    if n < 2 {
        return None;
    }
    let mut i: usize = 0;
    while i + 1 < n
        invariant
            n == s@.len(),
            i + 1 <= n,
            forall|j: int| 0 <= j < i ==> !sep_at(s@, j),
        decreases n - i,
    {
        if *slice_index_get(s, i) == COLON && *slice_index_get(s, i + 1) == COLON {
            proof {
                lemma_sep_index(s@);
                assert(sep_at(s@, i as int));
                let r = sep_index(s@);
                if r == -1 {
                    assert(!sep_at(s@, i as int));
                } else if r < i {
                    assert(!sep_at(s@, r));
                } else if r > i {
                    assert(!sep_at(s@, i as int));
                }
            }
            return Some(i);
        }
        i = i + 1;
    }
    proof {
        lemma_sep_index(s@);
        let r = sep_index(s@);
        if r >= 0 {
            assert(sep_at(s@, r));
            assert(!sep_at(s@, r));
        }
    }
    None
}

/// Compares two byte strings for equality.
pub fn bytes_eq(a: &[u8], b: &[u8]) -> (r: bool)
    ensures
        r == (a@ == b@),
{
    if a.len() != b.len() {
        assert(a@.len() != b@.len());
        return false;
    }
    let n = a.len();
    let mut i: usize = 0;
    while i < n
        invariant
            n == a@.len(),
            n == b@.len(),
            i <= n,
            forall|j: int| 0 <= j < i ==> a@[j] == b@[j],
        decreases n - i,
    {
        if *slice_index_get(a, i) != *slice_index_get(b, i) {
            return false;
        }
        i = i + 1;
    }
    proof {
        assert(a@ =~= b@);
    }
    true
}

} // verus!
