//! Byte-string scanning: first and last occurrence of a byte, copying a
//! range, and equality of byte vectors, each with an exact specification.

use vstd::prelude::*;

verus! {

/// Index of the first occurrence of `b` in `s` at or after `from`;
/// `s.len()` when there is none.
pub open spec fn first_index_from(s: Seq<u8>, from: int, b: u8) -> int
    decreases s.len() - from,
{
    if from < 0 || from >= s.len() {
        s.len() as int
    } else if s[from] == b {
        from
    } else {
        first_index_from(s, from + 1, b)
    }
}

/// Index of the last occurrence of `b` in `s`; `-1` when there is none.
pub open spec fn last_index_of(s: Seq<u8>, b: u8) -> int
    decreases s.len(),
{
    if s.len() == 0 {
        -1
    } else if s[s.len() - 1] == b {
        s.len() - 1
    } else {
        last_index_of(s.drop_last(), b)
    }
}

/// `first_index_from` returns the least index of `b` in `s[from..]`.
pub proof fn lemma_first_index_from(s: Seq<u8>, from: int, b: u8)
    requires
        0 <= from <= s.len(),
    ensures
        from <= first_index_from(s, from, b) <= s.len(),
        first_index_from(s, from, b) < s.len() ==> s[first_index_from(s, from, b)] == b,
        forall|j: int| from <= j < first_index_from(s, from, b) ==> s[j] != b,
    decreases s.len() - from,
{
    if from < s.len() && s[from] != b {
        lemma_first_index_from(s, from + 1, b);
    }
}

/// An index that carries `b` and has no earlier occurrence is exactly
/// `first_index_from`.
pub proof fn lemma_first_index_from_is(s: Seq<u8>, from: int, b: u8, i: int)
    requires
        0 <= from <= i < s.len(),
        s[i] == b,
        forall|j: int| from <= j < i ==> s[j] != b,
    ensures
        first_index_from(s, from, b) == i,
    decreases i - from,
{
    if from < i {
        lemma_first_index_from_is(s, from + 1, b, i);
    }
}

/// `last_index_of` returns the greatest index of `b` in `s`.
pub proof fn lemma_last_index_of(s: Seq<u8>, b: u8)
    ensures
        -1 <= last_index_of(s, b) < s.len(),
        last_index_of(s, b) >= 0 ==> s[last_index_of(s, b)] == b,
        forall|j: int| last_index_of(s, b) < j < s.len() ==> s[j] != b,
    decreases s.len(),
{
    if s.len() > 0 && s[s.len() - 1] != b {
        lemma_last_index_of(s.drop_last(), b);
        assert(forall|j: int| 0 <= j < s.len() - 1 ==> s.drop_last()[j] == s[j]);
    }
}

/// An index that carries `b` and has no later occurrence is exactly
/// `last_index_of`.
pub proof fn lemma_last_index_of_is(s: Seq<u8>, b: u8, i: int)
    requires
        0 <= i < s.len(),
        s[i] == b,
        forall|j: int| i < j < s.len() ==> s[j] != b,
    ensures
        last_index_of(s, b) == i,
    decreases s.len(),
{
    if i < s.len() - 1 {
        assert(forall|j: int| 0 <= j < s.len() - 1 ==> s.drop_last()[j] == s[j]);
        lemma_last_index_of_is(s.drop_last(), b, i);
    }
}

/// First occurrence of `b` in `s` at or after `from`, as executable code.
pub fn find_byte_from(s: &Vec<u8>, from: usize, b: u8) -> (r: usize)
    requires
        from <= s.len(),
    ensures
        r as int == first_index_from(s@, from as int, b),
{
    let mut i = from;
    while i < s.len()
        invariant
            from <= i <= s.len(),
            first_index_from(s@, from as int, b) == first_index_from(s@, i as int, b),
        decreases s.len() - i,
    {
        if s[i] == b {
            return i;
        }
        i = i + 1;
    }
    i
}

/// Last occurrence of `b` in `s`, as executable code.
pub fn rfind_byte(s: &Vec<u8>, b: u8) -> (r: Option<usize>)
    ensures
        match r {
            Some(i) => i as int == last_index_of(s@, b) && i < s.len(),
            None => last_index_of(s@, b) == -1,
        },
{
    let mut i = s.len();
    proof {
        assert(s@.take(s.len() as int) =~= s@);
    }
    while i > 0
        invariant
            i <= s.len(),
            last_index_of(s@, b) == last_index_of(s@.take(i as int), b),
        decreases i,
    {
        let j = i - 1;
        if s[j] == b {
            proof {
                assert(s@.take(i as int).len() == i as int);
                assert(s@.take(i as int)[i as int - 1] == s@[j as int]);
            }
            return Some(j);
        }
        proof {
            assert(s@.take(i as int)[i as int - 1] == s@[j as int]);
            assert(s@.take(i as int).drop_last() =~= s@.take(j as int));
        }
        i = j;
    }
    None
}

/// Copy of `s[start..end]`.
pub fn subvec(s: &Vec<u8>, start: usize, end: usize) -> (r: Vec<u8>)
    requires
        start <= end,
        end <= s.len(),
    ensures
        r@ == s@.subrange(start as int, end as int),
{
    let mut r: Vec<u8> = Vec::new();
    proof {
        assert(r@ =~= s@.subrange(start as int, start as int));
    }
    let mut i = start;
    while i < end
        invariant
            start <= i <= end,
            end <= s.len(),
            r@ == s@.subrange(start as int, i as int),
        decreases end - i,
    {
        r.push(s[i]);
        proof {
            assert(s@.subrange(start as int, i as int + 1) =~= s@.subrange(
                start as int,
                i as int,
            ).push(s@[i as int]));
        }
        i = i + 1;
    }
    r
}

/// Copy of the whole byte vector.
pub fn clone_bytes(s: &Vec<u8>) -> (r: Vec<u8>)
    ensures
        r@ == s@,
{
    let r = subvec(s, 0, s.len());
    proof {
        assert(s@.subrange(0, s.len() as int) =~= s@);
    }
    r
}

/// Equality of two byte vectors.
pub fn bytes_eq(a: &Vec<u8>, b: &Vec<u8>) -> (r: bool)
    ensures
        r <==> a@ == b@,
{
    if a.len() != b.len() {
        return false;
    }
    let mut i: usize = 0;
    while i < a.len()
        invariant
            i <= a.len(),
            a@.len() == b@.len(),
            forall|j: int| 0 <= j < i ==> a@[j] == b@[j],
        decreases a.len() - i,
    {
        if a[i] != b[i] {
            return false;
        }
        i = i + 1;
    }
    proof {
        assert(a@ =~= b@);
    }
    true
}

} // verus!
