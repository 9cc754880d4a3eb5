//! Byte-sequence helpers: first-occurrence search for a byte pattern and for
//! a single byte, and copying a range of a buffer.

use vstd::prelude::*;

verus! {

/// Whether `pat` occurs in `hay` starting exactly at `at`.
pub open spec fn is_match(hay: Seq<u8>, pat: Seq<u8>, at: int) -> bool {
    &&& 0 <= at
    &&& at + pat.len() <= hay.len()
    &&& hay.subrange(at, at + pat.len()) == pat
}

/// The first position at or after `from` where `pat` occurs in `hay`.
pub open spec fn find_sub(hay: Seq<u8>, pat: Seq<u8>, from: int) -> Option<int>
    decreases hay.len() + 1 - from when 0 <= from
{
    if from + pat.len() > hay.len() {
        None
    } else if is_match(hay, pat, from) {
        Some(from)
    } else {
        find_sub(hay, pat, from + 1)
    }
}

/// What `find_sub` promises of its result.
pub proof fn lemma_find_sub(hay: Seq<u8>, pat: Seq<u8>, from: int)
    requires
        0 <= from,
    ensures
        match find_sub(hay, pat, from) {
            Some(i) => from <= i && is_match(hay, pat, i) && forall|k: int|
                from <= k < i ==> !is_match(hay, pat, k),
            None => forall|k: int| from <= k ==> !is_match(hay, pat, k),
        },
    decreases hay.len() + 1 - from,
{
    if from + pat.len() > hay.len() {
        assert forall|k: int| from <= k implies !is_match(hay, pat, k) by {}
    } else if is_match(hay, pat, from) {
    } else {
        lemma_find_sub(hay, pat, from + 1);
    }
}

/// The first position at or after `from` where the byte `b` stands in `s`.
pub open spec fn find_byte(s: Seq<u8>, b: u8, from: int) -> Option<int>
    decreases s.len() - from when 0 <= from
{
    if from >= s.len() {
        None
    } else if s[from] == b {
        Some(from)
    } else {
        find_byte(s, b, from + 1)
    }
}

/// What `find_byte` promises of its result.
pub proof fn lemma_find_byte(s: Seq<u8>, b: u8, from: int)
    requires
        0 <= from,
    ensures
        match find_byte(s, b, from) {
            Some(i) => from <= i < s.len() && s[i] == b && forall|k: int|
                from <= k < i ==> s[k] != b,
            None => forall|k: int| from <= k < s.len() ==> s[k] != b,
        },
    decreases s.len() - from,
{
    if from < s.len() && s[from] != b {
        lemma_find_byte(s, b, from + 1);
    }
}

/// Whether `pat` occurs in `hay` at position `at`.
fn bytes_match_at(hay: &Vec<u8>, pat: &Vec<u8>, at: usize) -> (r: bool)
    requires
        at + pat@.len() <= hay@.len(),
    ensures
        r == is_match(hay@, pat@, at as int),
{
    let plen = pat.len();
    let hlen = hay.len();
    let mut j: usize = 0;
    while j < plen
        invariant
            0 <= j <= plen,
            plen == pat@.len(),
            hlen == hay@.len(),
            at + plen <= hlen,
            forall|k: int| 0 <= k < j ==> hay@[at + k] == pat@[k],
        decreases plen - j,
    {
        if hay[at + j] != pat[j] {
            proof {
                let sub = hay@.subrange(at as int, at + pat@.len());
                assert(sub[j as int] != pat@[j as int]);
            }
            return false;
        }
        j = j + 1;
    }
    proof {
        assert(hay@.subrange(at as int, at + pat@.len()) =~= pat@);
    }
    true
}

/// Searches `hay` for the first occurrence of `pat` at or after `from`.
pub fn find_subsequence(hay: &Vec<u8>, pat: &Vec<u8>, from: usize) -> (r: Option<usize>)
    ensures
        match r {
            Some(i) => Some(i as int) == find_sub(hay@, pat@, from as int),
            None => find_sub(hay@, pat@, from as int) is None,
        },
{
    let hlen = hay.len();
    let plen = pat.len();
    if plen == 0 {
        if from <= hlen {
            proof {
                assert(hay@.subrange(from as int, from as int) =~= pat@);
            }
            return Some(from);
        } else {
            return None;
        }
    }
    if plen > hlen || from > hlen - plen {
        proof {
            lemma_find_sub_none_past_end(hay@, pat@, from as int);
        }
        return None;
    }
    let last = hlen - plen;
    let mut i: usize = from;
    while i <= last
        invariant
            from <= i,
            i <= last + 1,
            last == hlen - plen,
            1 <= plen <= hlen,
            hlen == hay@.len(),
            plen == pat@.len(),
            find_sub(hay@, pat@, from as int) == find_sub(hay@, pat@, i as int),
        decreases last + 1 - i,
    {
        if bytes_match_at(hay, pat, i) {
            return Some(i);
        }
        i = i + 1;
    }
    proof {
        assert(find_sub(hay@, pat@, i as int) is None);
    }
    None
}

proof fn lemma_find_sub_none_past_end(hay: Seq<u8>, pat: Seq<u8>, from: int)
    requires
        0 <= from,
        from + pat.len() > hay.len(),
    ensures
        find_sub(hay, pat, from) is None,
{
}

/// Searches `hay` for the first occurrence of the byte `b` at or after `from`.
pub fn find_byte_in(hay: &Vec<u8>, b: u8, from: usize) -> (r: Option<usize>)
    ensures
        match r {
            Some(i) => Some(i as int) == find_byte(hay@, b, from as int),
            None => find_byte(hay@, b, from as int) is None,
        },
{
    let hlen = hay.len();
    if from >= hlen {
        return None;
    }
    let mut i: usize = from;
    while i < hlen
        invariant
            from <= i <= hlen,
            hlen == hay@.len(),
            find_byte(hay@, b, from as int) == find_byte(hay@, b, i as int),
        decreases hlen - i,
    {
        if hay[i] == b {
            return Some(i);
        }
        i = i + 1;
    }
    None
}

/// Copies `v[a..b]` into a fresh vector.
pub fn copy_range(v: &Vec<u8>, a: usize, b: usize) -> (r: Vec<u8>)
    requires
        a <= b <= v@.len(),
    ensures
        r@ == v@.subrange(a as int, b as int),
{
    let mut out: Vec<u8> = Vec::new();
    let mut i: usize = a;
    while i < b
        invariant
            a <= i <= b,
            b <= v@.len(),
            out@ =~= v@.subrange(a as int, i as int),
        decreases b - i,
    {
        out.push(v[i]);
        proof {
            assert(out@ =~= v@.subrange(a as int, i + 1));
        }
        i = i + 1;
    }
    proof {
        assert(out@ =~= v@.subrange(a as int, b as int));
    }
    out
}

} // verus!
