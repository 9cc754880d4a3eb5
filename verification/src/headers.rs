//! The header mapping and the options-style header value parser.
//!
//! `HeaderMap` is a last-wins string mapping viewed as a
//! `Map<Seq<char>, Seq<char>>`.  `parse_options_header` tokenizes a value of
//! the form `token; key=value; key=value` into its primary token and its
//! parameter mapping.

use vstd::prelude::*;

verus! {

use vstd::pervasive::VecAdditionalExecFns;
use vstd::string::StrSliceExecFns;
use crate::errors::MultipartError;
use crate::strutil::find_char;
use crate::strutil::find_char_in;
use crate::strutil::lemma_find_char;
use crate::strutil::str_eq;
use crate::strutil::trim;
use crate::strutil::trim_spec;

/// One key and its value.
pub struct HeaderEntry {
    pub key: String,
    pub value: String,
}

/// The mapping that a sequence of entries denotes: later entries win.
pub open spec fn map_of(s: Seq<HeaderEntry>) -> Map<Seq<char>, Seq<char>>
    decreases s.len(),
{
    if s.len() == 0 {
        Map::empty()
    } else {
        map_of(s.drop_last()).insert(s.last().key@, s.last().value@)
    }
}

/// A string-to-string mapping with unique keys, used both for the accumulated
/// headers of a part and for the parameters of an options-style header value.
pub struct HeaderMap {
    entries: Vec<HeaderEntry>,
}

impl View for HeaderMap {
    type V = Map<Seq<char>, Seq<char>>;

    closed spec fn view(&self) -> Map<Seq<char>, Seq<char>> {
        map_of(self.entries@)
    }
}

proof fn lemma_map_of_contains(s: Seq<HeaderEntry>, k: Seq<char>)
    ensures
        map_of(s).contains_key(k) <==> exists|i: int| 0 <= i < s.len() && s[i].key@ == k,
    decreases s.len(),
{
    if s.len() > 0 {
        lemma_map_of_contains(s.drop_last(), k);
        if s.last().key@ == k {
            assert(s[s.len() - 1].key@ == k);
        } else if map_of(s).contains_key(k) {
            let i = choose|i: int| 0 <= i < s.drop_last().len() && s.drop_last()[i].key@ == k;
            assert(s[i].key@ == k);
        } else {
            if exists|i: int| 0 <= i < s.len() && s[i].key@ == k {
                let i = choose|i: int| 0 <= i < s.len() && s[i].key@ == k;
                assert(i < s.len() - 1);
                assert(s.drop_last()[i].key@ == k);
            }
        }
    }
}

spec fn unique_keys(s: Seq<HeaderEntry>) -> bool {
    forall|i: int, j: int| 0 <= i < j < s.len() ==> s[i].key@ != s[j].key@
}

proof fn lemma_map_of_get(s: Seq<HeaderEntry>, i: int)
    requires
        unique_keys(s),
        0 <= i < s.len(),
    ensures
        map_of(s).contains_key(s[i].key@),
        map_of(s)[s[i].key@] == s[i].value@,
    decreases s.len(),
{
    lemma_map_of_contains(s, s[i].key@);
    if i == s.len() - 1 {
    } else {
        assert(unique_keys(s.drop_last()));
        lemma_map_of_get(s.drop_last(), i);
        assert(s.drop_last()[i] == s[i]);
        assert(s.last().key@ != s[i].key@);
    }
}

impl HeaderMap {
    /// The entries carry pairwise distinct keys.
    pub closed spec fn wf(&self) -> bool {
        unique_keys(self.entries@)
    }

    /// An empty mapping.
    pub fn new() -> (r: HeaderMap)
        ensures
            r.wf(),
            r@ == Map::<Seq<char>, Seq<char>>::empty(),
    {
        HeaderMap { entries: Vec::new() }
    }

    /// The number of keys held.
    pub fn len(&self) -> (r: usize)
        requires
            self.wf(),
        ensures
            r == self@.dom().len(),
    {
        proof {
            lemma_dom_len(self.entries@);
        }
        self.entries.len()
    }

    /// Looks a key up.
    pub fn get<'a>(&'a self, key: &str) -> (r: Option<&'a String>)
        requires
            self.wf(),
        ensures
            match r {
                Some(v) => self@.contains_key(key@) && v@ == self@[key@],
                None => !self@.contains_key(key@),
            },
    {
        let n = self.entries.len();
        let mut i: usize = 0;
        while i < n
            invariant
                0 <= i <= n,
                n == self.entries@.len(),
                self.wf(),
                forall|k: int| 0 <= k < i ==> self.entries@[k].key@ != key@,
            decreases n - i,
        {
            if str_eq(self.entries[i].key.as_str(), key) {
                proof {
                    lemma_map_of_get(self.entries@, i as int);
                }
                return Some(&self.entries[i].value);
            }
            i = i + 1;
        }
        proof {
            lemma_map_of_contains(self.entries@, key@);
        }
        None
    }

    /// Inserts a key and its value; an existing binding of the key is
    /// replaced.
    pub fn insert(&mut self, key: String, value: String)
        requires
            old(self).wf(),
        ensures
            final(self).wf(),
            final(self)@ == old(self)@.insert(key@, value@),
    {
        let n = self.entries.len();
        let mut idx: usize = n;
        let mut i: usize = 0;
        while i < n
            invariant
                0 <= i <= n,
                self.entries@ == old(self).entries@,
                n == self.entries@.len(),
                self.wf(),
                idx <= n,
                idx == n ==> forall|k: int| 0 <= k < i ==> self.entries@[k].key@ != key@,
                idx < n ==> self.entries@[idx as int].key@ == key@,
            decreases n - i,
        {
            if idx == n && str_eq(self.entries[i].key.as_str(), key.as_str()) {
                idx = i;
            }
            i = i + 1;
        }
        let ghost before = self.entries@;
        if idx < n {
            self.entries.set(idx, HeaderEntry { key, value });
            proof {
                let e = self.entries@[idx as int];
                assert(self.entries@ =~= before.update(idx as int, e));
                lemma_map_of_update(before, idx as int, e);
                assert forall|a: int, b: int|
                    0 <= a < b < self.entries@.len() implies self.entries@[a].key@
                    != self.entries@[b].key@ by {
                    if a != idx && b != idx {
                        assert(before[a].key@ != before[b].key@);
                    }
                }
            }
        } else {
            self.entries.push(HeaderEntry { key, value });
            proof {
                let e = self.entries@.last();
                lemma_map_of_push(before, e);
                assert forall|a: int, b: int|
                    0 <= a < b < self.entries@.len() implies self.entries@[a].key@
                    != self.entries@[b].key@ by {
                    if b == self.entries@.len() - 1 {
                        assert(self.entries@[a] == before[a]);
                    }
                }
            }
        }
    }
}

proof fn lemma_map_of_push(s: Seq<HeaderEntry>, e: HeaderEntry)
    ensures
        map_of(s.push(e)) == map_of(s).insert(e.key@, e.value@),
{
    assert(s.push(e).drop_last() =~= s);
    assert(s.push(e).last() == e);
}

proof fn lemma_map_of_update(s: Seq<HeaderEntry>, i: int, e: HeaderEntry)
    requires
        unique_keys(s),
        0 <= i < s.len(),
        s[i].key@ == e.key@,
    ensures
        map_of(s.update(i, e)) == map_of(s).insert(e.key@, e.value@),
    decreases s.len(),
{
    let t = s.update(i, e);
    if i == s.len() - 1 {
        assert(t.drop_last() =~= s.drop_last());
        assert(t.last() == e);
        assert(map_of(s.drop_last()).insert(s[i].key@, s[i].value@).insert(e.key@, e.value@)
            =~= map_of(s.drop_last()).insert(e.key@, e.value@));
    } else {
        assert(t.last() == s.last());
        assert(t.drop_last() =~= s.drop_last().update(i, e));
        assert(unique_keys(s.drop_last()));
        assert(s.drop_last()[i] == s[i]);
        lemma_map_of_update(s.drop_last(), i, e);
        assert(s.last().key@ != e.key@);
        assert(map_of(s.drop_last()).insert(e.key@, e.value@).insert(s.last().key@, s.last().value@)
            =~= map_of(s.drop_last()).insert(s.last().key@, s.last().value@).insert(
            e.key@,
            e.value@,
        ));
    }
}

proof fn lemma_dom_len(s: Seq<HeaderEntry>)
    requires
        unique_keys(s),
    ensures
        map_of(s).dom().len() == s.len(),
        map_of(s).dom().finite(),
    decreases s.len(),
{
    if s.len() > 0 {
        assert(unique_keys(s.drop_last()));
        lemma_dom_len(s.drop_last());
        lemma_map_of_contains(s.drop_last(), s.last().key@);
        assert(!map_of(s.drop_last()).contains_key(s.last().key@));
        assert(map_of(s).dom() =~= map_of(s.drop_last()).dom().insert(s.last().key@));
        vstd::set::axiom_set_insert_len(map_of(s.drop_last()).dom(), s.last().key@);
    }
}

/// What one `key=value` parameter segment denotes: both sides of the first
/// `=` trimmed, or a failure when the segment has no `=`.
pub open spec fn param_segment(s: Seq<char>) -> Option<(Seq<char>, Seq<char>)> {
    match find_char(s, '=', 0) {
        None => None,
        Some(j) => Some(
            (trim_spec(s.subrange(0, j)), trim_spec(s.subrange(j + 1, s.len() as int))),
        ),
    }
}

/// The parameter mapping that the segments of `s` after position `p` denote,
/// on top of `acc`; `None` when some segment has no `=`.
pub open spec fn params_from(s: Seq<char>, p: int, acc: Map<Seq<char>, Seq<char>>) -> Option<
    Map<Seq<char>, Seq<char>>,
>
    decreases s.len() + 1 - p when 0 <= p <= s.len() via params_from_decreases
{
    match find_char(s, ';', p) {
        Some(e) => match param_segment(s.subrange(p, e)) {
            None => None,
            Some((k, v)) => params_from(s, e + 1, acc.insert(k, v)),
        },
        None => match param_segment(s.subrange(p, s.len() as int)) {
            None => None,
            Some((k, v)) => Some(acc.insert(k, v)),
        },
    }
}

#[via_fn]
proof fn params_from_decreases(s: Seq<char>, p: int, acc: Map<Seq<char>, Seq<char>>) {
    if 0 <= p <= s.len() {
        lemma_find_char(s, ';', p);
    }
}

/// What `parse_options_header` returns: the trimmed first segment as the
/// token, and the `key=value` segments after it as a mapping in which later
/// duplicate keys win; `None` when a parameter segment has no `=`.
pub open spec fn parse_options_spec(s: Seq<char>) -> Option<(Seq<char>, Map<Seq<char>, Seq<char>>)> {
    match find_char(s, ';', 0) {
        None => Some((trim_spec(s), Map::empty())),
        Some(e) => match params_from(s, e + 1, Map::empty()) {
            None => None,
            Some(m) => Some((trim_spec(s.subrange(0, e)), m)),
        },
    }
}

/// Tokenizes an options-style header value of the form
/// `token; key=value; key=value` into the primary token and the parameter
/// mapping; both the token and each key and value are trimmed, and later
/// duplicate keys overwrite earlier ones.  Fails with `MalformedHeaderValue`
/// when a parameter segment carries no `=`.
pub fn parse_options_header(value: String) -> (r: Result<(String, HeaderMap), MultipartError>)
    ensures
        match parse_options_spec(value@) {
            Some((token, params)) => match r {
                Ok(p) => p.0@ == token && p.1@ == params && p.1.wf(),
                Err(_) => false,
            },
            None => r == Err::<(String, HeaderMap), MultipartError>(
                MultipartError::MalformedHeaderValue,
            ),
        },
{
    let s = value.as_str();
    let len = s.unicode_len();
    let first = find_char_in(s, ';', 0);
    match first {
        None => Ok((trim(s), HeaderMap::new())),
        Some(e) => {
            let token = trim(s.substring_char(0, e));
            let mut params = HeaderMap::new();
            let mut p: usize = e + 1;
            loop
                invariant
                    0 <= p <= len,
                    len == s@.len(),
                    s@ == value@,
                    Some(e as int) == find_char(s@, ';', 0),
                    e < len,
                    token@ == trim_spec(s@.subrange(0, e as int)),
                    params.wf(),
                    params_from(s@, p as int, params@) == params_from(
                        s@,
                        e + 1,
                        Map::<Seq<char>, Seq<char>>::empty(),
                    ),
                decreases len - p,
            {
                let next = find_char_in(s, ';', p);
                let seg_end = match next {
                    Some(e2) => e2,
                    None => len,
                };
                let seg = s.substring_char(p, seg_end);
                let eqpos = find_char_in(seg, '=', 0);
                match eqpos {
                    None => {
                        proof {
                            assert(param_segment(seg@) is None);
                            assert(params_from(s@, p as int, params@) is None);
                            assert(parse_options_spec(value@) is None);
                        }
                        return Err(MultipartError::MalformedHeaderValue);
                    },
                    Some(j) => {
                        let k = trim(seg.substring_char(0, j));
                        let v = trim(seg.substring_char(j + 1, seg_end - p));
                        proof {
                            assert(param_segment(seg@) == Some((k@, v@)));
                        }
                        let ghost params_before = params@;
                        params.insert(k, v);
                        match next {
                            None => {
                                proof {
                                    assert(params_from(s@, p as int, params_before) == Some(
                                        params@,
                                    ));
                                    assert(parse_options_spec(value@) == Some(
                                        (token@, params@),
                                    ));
                                }
                                return Ok((token, params));
                            },
                            Some(e2) => {
                                proof {
                                    assert(params_from(s@, p as int, params_before)
                                        == params_from(s@, e2 + 1, params@));
                                }
                                p = e2 + 1;
                            },
                        }
                    },
                }
            }
        },
    }
}

} // verus!
