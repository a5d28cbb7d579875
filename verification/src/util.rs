//! Byte-level search helpers shared by the header tokenizer and the
//! multipart decomposer.

use vstd::prelude::*;

verus! {

/// The position of the first occurrence of byte `b` in `s`, if any.
pub open spec fn find_byte(s: Seq<u8>, b: u8) -> Option<int>
    decreases s.len(),
{
    if s.len() == 0 {
        None
    } else if s[0] == b {
        Some(0int)
    } else {
        match find_byte(s.drop_first(), b) {
            Some(i) => Some(i + 1),
            None => None,
        }
    }
}

/// `find_byte` names the first occurrence: the byte is there, and no earlier
/// position holds it.
pub proof fn lemma_find_byte(s: Seq<u8>, b: u8)
    ensures
        match find_byte(s, b) {
            Some(i) => 0 <= i < s.len() && s[i] == b && forall|j: int| 0 <= j < i ==> s[j] != b,
            None => forall|j: int| 0 <= j < s.len() ==> s[j] != b,
        },
    decreases s.len(),
{
    if s.len() > 0 && s[0] != b {
        let t = s.drop_first();
        lemma_find_byte(t, b);
        assert(forall|j: int| 0 <= j < t.len() ==> t[j] == s[j + 1]);
        match find_byte(t, b) {
            Some(i) => {
                assert(s[i + 1] == t[i]);
                assert(forall|j: int| 1 <= j < i + 1 ==> s[j] == t[j - 1] && t[j - 1] != b);
            },
            None => {
                assert(forall|j: int| 1 <= j < s.len() ==> s[j] == t[j - 1] && t[j - 1] != b);
            },
        }
    }
}

/// Copy the byte range `[a, b)` of `v` into a fresh vector.
pub fn byte_subvec(v: &[u8], a: usize, b: usize) -> (r: Vec<u8>)
    requires
        a <= b <= v@.len(),
    ensures
        r@ == v@.subrange(a as int, b as int),
{
    let mut out: Vec<u8> = Vec::new();
    let mut i: usize = a;
    while i < b
        invariant
            a <= i <= b <= v@.len(),
            out@ =~= v@.subrange(a as int, i as int),
        decreases b - i,
    {
        out.push(v[i]);
        i = i + 1;
    }
    assert(out@ =~= v@.subrange(a as int, b as int));
    out
}

/// Whether `pat` occurs in `s` starting exactly at position `at`.
pub open spec fn matches_at(s: Seq<u8>, at: int, pat: Seq<u8>) -> bool {
    0 <= at && at + pat.len() <= s.len() && s.subrange(at, at + pat.len()) == pat
}

/// The first position at or after `from` where `pat` occurs in `s`, if any.
pub open spec fn find_sub(s: Seq<u8>, from: int, pat: Seq<u8>) -> Option<int>
    decreases s.len() - from,
{
    if from < 0 || from + pat.len() > s.len() {
        None
    } else if matches_at(s, from, pat) {
        Some(from)
    } else if from >= s.len() {
        None
    } else {
        find_sub(s, from + 1, pat)
    }
}

/// `find_sub` names the first occurrence at or after `from`.
pub proof fn lemma_find_sub(s: Seq<u8>, from: int, pat: Seq<u8>)
    requires
        from >= 0,
        pat.len() >= 1,
    ensures
        match find_sub(s, from, pat) {
            Some(i) => from <= i && matches_at(s, i, pat) && forall|j: int|
                from <= j < i ==> !matches_at(s, j, pat),
            None => forall|j: int| from <= j ==> !matches_at(s, j, pat),
        },
    decreases s.len() - from,
{
    if from + pat.len() > s.len() {
        assert(forall|j: int| from <= j ==> !matches_at(s, j, pat));
    } else if !matches_at(s, from, pat) {
        lemma_find_sub(s, from + 1, pat);
    }
}

/// Find the first occurrence of the byte string `pat` in `s` at or after
/// `from`, by literal substring search.
pub fn find_from_u8(s: &[u8], from: usize, pat: &[u8]) -> (r: Option<usize>)
    requires
        pat@.len() >= 1,
    ensures
        r == match find_sub(s@, from as int, pat@) {
            Some(i) => Some(i as usize),
            None => None::<usize>,
        },
        r matches Some(i) ==> from <= i && i + pat@.len() <= s@.len(),
{
    proof {
        lemma_find_sub(s@, from as int, pat@);
    }
    if pat.len() > s.len() || from > s.len() - pat.len() {
        proof {
            assert(forall|j: int|
                from <= j ==> j + pat@.len() > s@.len() && !matches_at(s@, j, pat@));
        }
        return None;
    }
    let mut i: usize = from;
    while i <= s.len() - pat.len()
        invariant
            from <= i,
            pat@.len() <= s@.len(),
            forall|j: int| from <= j < i ==> !matches_at(s@, j, pat@),
        decreases s.len() - i,
    {
        let mut k: usize = 0;
        let mut hit: bool = true;
        while k < pat.len()
            invariant
                k <= pat@.len(),
                i + pat@.len() <= s@.len(),
                hit ==> s@.subrange(i as int, i + k) =~= pat@.subrange(0, k as int),
                !hit ==> !matches_at(s@, i as int, pat@),
            decreases pat.len() - k,
        {
            proof {
                assert(s@.subrange(i as int, i + k + 1).drop_last() =~= s@.subrange(
                    i as int,
                    i + k,
                ));
                assert(pat@.subrange(0, k + 1).drop_last() =~= pat@.subrange(0, k as int));
                assert(s@.subrange(i as int, i + k + 1).last() == s@[i + k]);
                assert(pat@.subrange(0, k + 1).last() == pat@[k as int]);
            }
            if s[i + k] != pat[k] {
                if hit {
                    proof {
                        assert(s@.subrange(i as int, i + pat@.len() as int)[k as int] == s@[i + k]);
                        assert(matches_at(s@, i as int, pat@) ==> s@[i + k] == pat@[k as int]);
                    }
                }
                hit = false;
            }
            k = k + 1;
        }
        if hit {
            proof {
                assert(pat@.subrange(0, pat@.len() as int) =~= pat@);
                assert(matches_at(s@, i as int, pat@));
            }
            return Some(i);
        }
        i = i + 1;
    }
    proof {
        assert(forall|j: int| from <= j < i ==> !matches_at(s@, j, pat@));
        assert(forall|j: int| i <= j ==> j + pat@.len() > s@.len() && !matches_at(s@, j, pat@));
    }
    None
}

} // verus!
