//! Chunk-boundary invariance: feeding a multipart body in chunks, however it
//! is cut, yields the same completed parts, the same header events, and the
//! same per-part body data as feeding it whole.
//!
//! The development compares the incremental run with the one-shot run over
//! the model of `crate::multipart`.  Body chunks may be emitted at different
//! granularity between runs, so event queues are compared through a
//! normalization that concatenates each part's body runs.

use vstd::prelude::*;

verus! {

use crate::bytes_util::find_sub;
use crate::bytes_util::is_match;
use crate::bytes_util::lemma_find_sub;
use crate::errors::MultipartError;
use crate::multipart::EventView;
use crate::multipart::MultipartState;
use crate::multipart::ParserModel;
use crate::multipart::step_of;
use crate::multipart::drive;
use crate::multipart::lemma_step_progress;
use crate::multipart::wf_model;
use crate::multipart::dash_boundary_of;
use crate::multipart::delimiter_of;
use crate::multipart::parse_header_line;
use crate::bytes_util::find_byte;
use crate::form_data::build_spec;
use crate::form_data::FormDataView;

/// `m` with `c` appended to its input, as one `parse` call leaves the buffer
/// before its transition loop runs.
pub open spec fn fed(m: ParserModel, c: Seq<u8>) -> ParserModel {
    ParserModel { buffer: m.buffer + c, need_data: false, ..m }
}

/// Occurrences found in a buffer stay where they are when the buffer grows,
/// and a buffer without an occurrence can gain one only overlapping its end.
pub proof fn lemma_find_sub_extend(h1: Seq<u8>, c: Seq<u8>, pat: Seq<u8>, from: int)
    requires
        0 <= from,
    ensures
        match find_sub(h1, pat, from) {
            Some(i) => find_sub(h1 + c, pat, from) == Some(i),
            None => match find_sub(h1 + c, pat, from) {
                Some(k) => k + pat.len() > h1.len(),
                None => true,
            },
        },
    decreases h1.len() + 1 - from,
{
    let h2 = h1 + c;
    assert forall|x: int| 0 <= x && x + pat.len() <= h1.len() implies is_match(h1, pat, x)
        == is_match(h2, pat, x) by {
        assert(h1.subrange(x, x + pat.len()) =~= h2.subrange(x, x + pat.len()));
    }
    if from + pat.len() > h1.len() {
        if find_sub(h2, pat, from) matches Some(k) {
            lemma_find_sub(h2, pat, from);
        }
    } else if is_match(h1, pat, from) {
    } else {
        lemma_find_sub_extend(h1, c, pat, from + 1);
    }
}

/// The normalized event list, except for a trailing run of partial body
/// chunks: header lines stay, and each complete body chunk carries the
/// concatenation of the partial runs before it, starting from `pending`.
pub open spec fn cdone(es: Seq<EventView>, pending: Seq<u8>) -> Seq<EventView>
    decreases es.len(),
{
    if es.len() == 0 {
        Seq::empty()
    } else {
        let rest = es.drop_first();
        match es[0] {
            EventView::HeaderLine { name, value } => (if pending.len() > 0 {
                seq![EventView::BodyChunk { data: pending, complete: false }]
            } else {
                Seq::empty()
            }) + seq![EventView::HeaderLine { name, value }] + cdone(rest, Seq::empty()),
            EventView::BodyChunk { data, complete } => {
                if complete {
                    seq![EventView::BodyChunk { data: pending + data, complete: true }] + cdone(
                        rest,
                        Seq::empty(),
                    )
                } else {
                    cdone(rest, pending + data)
                }
            },
        }
    }
}

/// The data of the trailing run of partial body chunks, starting from
/// `pending`.
pub open spec fn cpend(es: Seq<EventView>, pending: Seq<u8>) -> Seq<u8>
    decreases es.len(),
{
    if es.len() == 0 {
        pending
    } else {
        let rest = es.drop_first();
        match es[0] {
            EventView::HeaderLine { .. } => cpend(rest, Seq::empty()),
            EventView::BodyChunk { data, complete } => {
                if complete {
                    cpend(rest, Seq::empty())
                } else {
                    cpend(rest, pending + data)
                }
            },
        }
    }
}

/// Normalization is a fold: it splits over concatenation.
pub proof fn lemma_cfold_append(e1: Seq<EventView>, e2: Seq<EventView>, p: Seq<u8>)
    ensures
        cdone(e1 + e2, p) == cdone(e1, p) + cdone(e2, cpend(e1, p)),
        cpend(e1 + e2, p) == cpend(e2, cpend(e1, p)),
    decreases e1.len(),
{
    if e1.len() == 0 {
        assert(e1 + e2 =~= e2);
        assert(cdone(e1, p) + cdone(e2, cpend(e1, p)) =~= cdone(e2, p));
    } else {
        let es = e1 + e2;
        assert(es[0] == e1[0]);
        assert(es.drop_first() =~= e1.drop_first() + e2);
        match e1[0] {
            EventView::HeaderLine { .. } => {
                lemma_cfold_append(e1.drop_first(), e2, Seq::empty());
                assert(cdone(e1 + e2, p) =~= cdone(e1, p) + cdone(e2, cpend(e1, p)));
            },
            EventView::BodyChunk { data, complete } => {
                if complete {
                    lemma_cfold_append(e1.drop_first(), e2, Seq::empty());
                    assert(cdone(e1 + e2, p) =~= cdone(e1, p) + cdone(e2, cpend(e1, p)));
                } else {
                    lemma_cfold_append(e1.drop_first(), e2, p + data);
                }
            },
        }
    }
}

/// Two event queues that normalize alike, trailing partial run included.
pub open spec fn events_equiv(x: Seq<EventView>, y: Seq<EventView>) -> bool {
    &&& cdone(x, Seq::empty()) == cdone(y, Seq::empty())
    &&& cpend(x, Seq::empty()) == cpend(y, Seq::empty())
}

/// Appending the same events to equivalent queues keeps them equivalent.
pub proof fn lemma_events_equiv_append(x: Seq<EventView>, y: Seq<EventView>, d: Seq<EventView>)
    requires
        events_equiv(x, y),
    ensures
        events_equiv(x + d, y + d),
{
    lemma_cfold_append(x, d, Seq::empty());
    lemma_cfold_append(y, d, Seq::empty());
}

/// Equality of everything the parser computes, except the event queue and,
/// in the terminal state, the dead consumption offset.
pub open spec fn core_eq(a: ParserModel, b: ParserModel) -> bool {
    &&& a.boundary == b.boundary
    &&& a.max_size == b.max_size
    &&& a.state == b.state
    &&& a.buffer == b.buffer
    &&& a.need_data == b.need_data
    &&& a.headers == b.headers
    &&& a.current == b.current
    &&& a.parts == b.parts
    &&& (a.state == MultipartState::End || a.offset == b.offset)
}

/// The simulation relation between an incremental run and the one-shot run.
pub open spec fn sim(a: ParserModel, b: ParserModel) -> bool {
    &&& core_eq(a, b)
    &&& events_equiv(a.events, b.events)
}

/// A step reads everything but the event queue, and only appends to the
/// event queue: on models with equal cores it decides alike and appends
/// alike.
pub proof fn lemma_step_parallel(a: ParserModel, b: ParserModel)
    requires
        wf_model(a),
        wf_model(b),
        core_eq(a, b),
        a.state != MultipartState::End,
    ensures
        ({
            let (a2, ea) = step_of(a);
            let (b2, eb) = step_of(b);
            &&& ea == eb
            &&& core_eq(a2, b2)
            &&& a2.events == a.events + a2.events.skip(a.events.len() as int)
            &&& b2.events == b.events + b2.events.skip(b.events.len() as int)
            &&& a2.events.skip(a.events.len() as int) == b2.events.skip(b.events.len() as int)
        }),
{
    let (a2, ea) = step_of(a);
    let (b2, eb) = step_of(b);
    assert forall|es: Seq<EventView>, x: EventView| #[trigger] es.push(x).skip(es.len() as int)
        =~= seq![x] by {}
    assert forall|es: Seq<EventView>| #[trigger] es.skip(es.len() as int) =~= Seq::<
        EventView,
    >::empty() by {}
    assert(a2.events == a.events + a2.events.skip(a.events.len() as int)
        && b2.events == b.events + b2.events.skip(b.events.len() as int) && a2.events.skip(
        a.events.len() as int,
    ) == b2.events.skip(b.events.len() as int)) by {
        assert forall|es: Seq<EventView>, x: EventView| #[trigger] es.push(x) =~= es + seq![x] by {}
        assert forall|es: Seq<EventView>| es =~= es + #[trigger] es.skip(es.len() as int) by {}
    }
}

/// The transition loop on models with equal cores: same error, equal cores,
/// and the same events appended.
pub proof fn lemma_drive_parallel(a: ParserModel, b: ParserModel)
    requires
        wf_model(a),
        wf_model(b),
        core_eq(a, b),
    ensures
        ({
            let (a2, ea) = drive(a);
            let (b2, eb) = drive(b);
            &&& ea == eb
            &&& core_eq(a2, b2)
            &&& a2.events == a.events + a2.events.skip(a.events.len() as int)
            &&& b2.events == b.events + b2.events.skip(b.events.len() as int)
            &&& a2.events.skip(a.events.len() as int) == b2.events.skip(b.events.len() as int)
        }),
    decreases a.buffer.len() - a.offset,
{
    if a.state == MultipartState::End {
        assert(drive(a) == (a, None::<MultipartError>));
        assert(drive(b) == (b, None::<MultipartError>));
        assert(a.events =~= a.events + a.events.skip(a.events.len() as int));
        assert(b.events =~= b.events + b.events.skip(b.events.len() as int));
        assert(a.events.skip(a.events.len() as int) =~= b.events.skip(b.events.len() as int));
    } else {
        lemma_step_parallel(a, b);
        lemma_step_progress(a);
        lemma_step_progress(b);
        let (a1, ea) = step_of(a);
        let (b1, eb) = step_of(b);
        if ea is Some || a1.need_data || a1.state == MultipartState::End {
        } else {
            lemma_drive_parallel(a1, b1);
            let a2 = drive(a).0;
            let b2 = drive(b).0;
            assert(a2.events =~= a.events + a2.events.skip(a.events.len() as int));
            assert(b2.events =~= b.events + b2.events.skip(b.events.len() as int));
            assert(a2.events.skip(a.events.len() as int) =~= b2.events.skip(
                b.events.len() as int,
            ));
        }
    }
}


/// What `cdone` and `cpend` do to one pushed complete body chunk.
proof fn lemma_canon_push_complete(es: Seq<EventView>, d: Seq<u8>)
    ensures
        cdone(es.push(EventView::BodyChunk { data: d, complete: true }), Seq::empty()) == cdone(
            es,
            Seq::empty(),
        ) + seq![
            EventView::BodyChunk { data: cpend(es, Seq::empty()) + d, complete: true },
        ],
        cpend(es.push(EventView::BodyChunk { data: d, complete: true }), Seq::empty())
            == Seq::<u8>::empty(),
{
    let x = EventView::BodyChunk { data: d, complete: true };
    assert(es.push(x) =~= es + seq![x]);
    lemma_cfold_append(es, seq![x], Seq::empty());
    let p = cpend(es, Seq::empty());
    assert(seq![x][0] == x);
    assert(seq![x].drop_first() =~= Seq::<EventView>::empty());
    assert(cdone(Seq::empty(), Seq::empty()) =~= Seq::<EventView>::empty());
    assert(cdone(seq![x], p) =~= seq![EventView::BodyChunk { data: p + d, complete: true }]
        + cdone(Seq::empty(), Seq::empty()));
    assert(cdone(seq![x], p) =~= seq![EventView::BodyChunk { data: p + d, complete: true }]);
    assert(cpend(seq![x], p) == cpend(Seq::empty(), Seq::empty()));
    assert(cpend(seq![x], p) =~= Seq::<u8>::empty());
}

/// What `cdone` and `cpend` do to one pushed partial body chunk.
proof fn lemma_canon_push_partial(es: Seq<EventView>, d: Seq<u8>)
    ensures
        cdone(es.push(EventView::BodyChunk { data: d, complete: false }), Seq::empty()) == cdone(
            es,
            Seq::empty(),
        ),
        cpend(es.push(EventView::BodyChunk { data: d, complete: false }), Seq::empty()) == cpend(
            es,
            Seq::empty(),
        ) + d,
{
    let x = EventView::BodyChunk { data: d, complete: false };
    assert(es.push(x) =~= es + seq![x]);
    lemma_cfold_append(es, seq![x], Seq::empty());
    let p = cpend(es, Seq::empty());
    assert(seq![x][0] == x);
    assert(seq![x].drop_first() =~= Seq::<EventView>::empty());
    assert(cdone(seq![x], p) == cdone(Seq::empty(), p + d));
    assert(cdone(Seq::empty(), p + d) =~= Seq::<EventView>::empty());
    assert(cdone(es, Seq::empty()) + cdone(seq![x], p) =~= cdone(es, Seq::empty()));
    assert(cpend(seq![x], p) == cpend(Seq::empty(), p + d));
}

/// The conditions a step must meet so that fuller input cannot revise its
/// decision and no error fires: a dash-boundary or delimiter found with its
/// two trailing bytes present is genuine (`CRLF`, or the close marker at the
/// very end of the input), header lines are free of bare `LF` and decode,
/// part construction succeeds, and a part is checked out while a body
/// streams.
pub open spec fn step_safe(m: ParserModel) -> bool {
    let blen = m.buffer.len() as int;
    match m.state {
        MultipartState::Preamble => {
            let db = dash_boundary_of(m.boundary);
            let dlen = db.len() as int;
            match find_sub(m.buffer, db, m.offset) {
                Some(i) => {
                    &&& (i + dlen + 1 <= blen && i + dlen + 2 > blen ==> m.buffer[i + dlen]
                        != 10u8)
                    &&& (i + dlen + 2 <= blen ==> ((m.buffer[i + dlen] == 13u8 && m.buffer[i
                        + dlen + 1] == 10u8) || (m.buffer[i + dlen] == 45u8 && m.buffer[i + dlen
                        + 1] == 45u8 && i + dlen + 2 == blen)))
                },
                None => true,
            }
        },
        MultipartState::Header => {
            match find_sub(m.buffer, seq![13u8, 10u8], m.offset) {
                Some(j) => {
                    &&& (j == m.offset ==> build_spec(m.headers) is Ok)
                    &&& (j != m.offset ==> parse_header_line(m.buffer.subrange(m.offset, j))
                        is Ok && find_byte(m.buffer.subrange(m.offset, j), 10u8, 0) is None)
                },
                None => find_byte(m.buffer, 10u8, m.offset) is None,
            }
        },
        MultipartState::Body => {
            let dl = delimiter_of(m.boundary);
            let dllen = dl.len() as int;
            &&& m.current is Some
            &&& match find_sub(m.buffer, dl, m.offset) {
                Some(k) => {
                    &&& k + dllen + 2 <= blen
                    &&& ((m.buffer[k + dllen] == 13u8 && m.buffer[k + dllen + 1] == 10u8) || (
                    m.buffer[k + dllen] == 45u8 && m.buffer[k + dllen + 1] == 45u8 && k + dllen
                        + 2 == blen))
                },
                None => true,
            }
        },
        MultipartState::End => true,
    }
}

/// `step_safe` along every step the transition loop takes on this input.
pub open spec fn pref_safe(m: ParserModel) -> bool
    decreases m.buffer.len() - m.offset when wf_model(m) via pref_safe_decreases
{
    if m.state == MultipartState::End {
        true
    } else {
        let s = step_of(m);
        step_safe(m) && (s.1 is None && !s.0.need_data && s.0.state != MultipartState::End
            ==> pref_safe(s.0))
    }
}

#[via_fn]
proof fn pref_safe_decreases(m: ParserModel) {
    if wf_model(m) && m.state != MultipartState::End {
        lemma_step_progress(m);
    }
}

/// `step_safe` and `pref_safe` never read the event queue.
pub proof fn lemma_pref_safe_parallel(a: ParserModel, b: ParserModel)
    requires
        wf_model(a),
        wf_model(b),
        core_eq(a, b),
    ensures
        pref_safe(a) == pref_safe(b),
    decreases a.buffer.len() - a.offset,
{
    if a.state != MultipartState::End {
        lemma_step_parallel(a, b);
        lemma_step_progress(a);
        lemma_step_progress(b);
        assert(step_safe(a) == step_safe(b));
        let (a1, ea) = step_of(a);
        let (b1, eb) = step_of(b);
        if ea is None && !a1.need_data && a1.state != MultipartState::End {
            lemma_pref_safe_parallel(a1, b1);
        }
    }
}

/// A safe input drives without error.
pub proof fn lemma_pref_safe_no_error(m: ParserModel)
    requires
        wf_model(m),
        pref_safe(m),
    ensures
        drive(m).1 is None,
    decreases m.buffer.len() - m.offset,
{
    if m.state != MultipartState::End {
        lemma_step_progress(m);
        let (m1, e) = step_of(m);
        match m.state {
            MultipartState::Preamble => {
                lemma_find_sub(m.buffer, crate::multipart::dash_boundary_of(m.boundary), m.offset);
            },
            MultipartState::Header => {
                lemma_find_sub(m.buffer, seq![13u8, 10u8], m.offset);
            },
            MultipartState::Body => {
                lemma_find_sub(m.buffer, crate::multipart::delimiter_of(m.boundary), m.offset);
            },
            MultipartState::End => {},
        }
        assert(e is None);
        if !m1.need_data && m1.state != MultipartState::End {
            lemma_pref_safe_no_error(m1);
        }
    }
}


/// Occurrences are unchanged when the search starts later, as long as no
/// occurrence is skipped.
proof fn lemma_find_sub_advance(h: Seq<u8>, pat: Seq<u8>, from: int, to: int)
    requires
        0 <= from <= to,
        forall|x: int| from <= x < to ==> !is_match(h, pat, x),
    ensures
        find_sub(h, pat, to) == find_sub(h, pat, from),
    decreases to - from,
{
    if from == to {
    } else if from + pat.len() > h.len() {
        assert(find_sub(h, pat, from) is None);
        assert(to + pat.len() > h.len());
        assert(find_sub(h, pat, to) is None);
    } else {
        assert(!is_match(h, pat, from));
        lemma_find_sub_advance(h, pat, from + 1, to);
    }
}

/// What `lemma_ext` guarantees: the prefix quiesces cleanly, safety carries
/// over, and the one-shot continuation simulates the resumed one.
pub open spec fn ext_post(m: ParserModel, c: Seq<u8>) -> bool {
    let q = drive(m);
    let full = drive(fed(m, c));
    let cont = drive(fed(q.0, c));
    &&& q.1 is None
    &&& q.0.state != MultipartState::End
    &&& q.0.need_data == true
    &&& wf_model(q.0)
    &&& q.0.buffer == m.buffer
    &&& q.0.boundary == m.boundary
    &&& q.0.max_size == m.max_size
    &&& pref_safe(fed(q.0, c))
    &&& full.1 == cont.1
    &&& sim(full.0, cont.0)
}

/// The transition loop commutes with quiescing on a prefix: driving the
/// whole input equals, up to the simulation relation, first driving the
/// prefix to its need-more-data point and then driving on with the rest.
pub proof fn lemma_ext(m: ParserModel, c: Seq<u8>)
    requires
        wf_model(m),
        m.state != MultipartState::End,
        m.need_data == false,
        c.len() > 0,
        pref_safe(fed(m, c)),
    ensures
        ext_post(m, c),
    decreases m.buffer.len() - m.offset, 1int,
{
    match m.state {
        MultipartState::Preamble => lemma_ext_preamble(m, c),
        MultipartState::Header => lemma_ext_header(m, c),
        MultipartState::Body => lemma_ext_body(m, c),
        MultipartState::End => {},
    }
}

#[verifier::rlimit(60)]
proof fn lemma_ext_preamble(m: ParserModel, c: Seq<u8>)
    requires
        wf_model(m),
        m.state == MultipartState::Preamble,
        m.need_data == false,
        c.len() > 0,
        pref_safe(fed(m, c)),
    ensures
        ext_post(m, c),
    decreases m.buffer.len() - m.offset, 0int,
{
    let mfed = fed(m, c);
    let len1 = m.buffer.len() as int;
    let len2 = mfed.buffer.len() as int;
    let o = m.offset;
    lemma_step_progress(m);
    lemma_step_progress(mfed);
    assert(forall|x: int| 0 <= x < len1 ==> mfed.buffer[x] == m.buffer[x]);
    let (m1, e1) = step_of(m);
    let (f1, g1) = step_of(mfed);
    let db = dash_boundary_of(m.boundary);
    let dlen = db.len() as int;
    lemma_find_sub_extend(m.buffer, c, db, o);
    lemma_find_sub(m.buffer, db, o);
    lemma_find_sub(mfed.buffer, db, o);
    assert(step_safe(mfed));
    match find_sub(m.buffer, db, o) {
        Some(i) => {
            assert(find_sub(mfed.buffer, db, o) == Some(i));
            if i + dlen + 2 <= len1 && m.buffer[i + dlen] == 13u8 && m.buffer[i + dlen + 1]
                == 10u8 {
                // The preamble ends inside the prefix: both runs take the
                // same transition to the header state.
                assert(f1 =~~= fed(m1, c));
                assert(drive(m) == drive(m1));
                assert(drive(mfed) == drive(fed(m1, c)));
                lemma_ext(m1, c);
            } else if i + dlen + 2 <= len1 && m.buffer[i + dlen] == 45u8 && m.buffer[i + dlen
                + 1] == 45u8 {
                // A close marker strictly inside the whole input is ruled
                // out by safety.
                assert(false);
            } else {
                assert(i + dlen + 2 > len1 || (m.buffer[i + dlen] != 13u8 && m.buffer[i + dlen]
                    != 45u8));
                if i + dlen + 1 <= len1 && m.buffer[i + dlen] == 10u8 {
                    assert(i + dlen + 2 <= len2 ==> mfed.buffer[i + dlen] != 10u8);
                    assert(false);
                }
                if i + dlen + 2 <= len1 {
                    assert(mfed.buffer[i + dlen] == m.buffer[i + dlen]);
                    assert(false);
                }
                assert(m1 == crate::multipart::skip_preamble(m));
                assert(m1.need_data);
                assert(drive(m) == (m1, None::<MultipartError>));
                assert(o <= m1.offset <= i);
                lemma_ext_preamble_requiesce(m, c, i);
            }
        },
        None => {
            assert(m1 == crate::multipart::skip_preamble(m));
            assert(drive(m) == (m1, None::<MultipartError>));
            match find_sub(mfed.buffer, db, o) {
                Some(k) => {
                    assert(k + dlen > len1);
                    assert(m1.offset <= k) by {
                        if len1 >= dlen + 4 {
                            assert(m1.offset == (if len1 - (dlen + 4) > o {
                                len1 - (dlen + 4)
                            } else {
                                o
                            }));
                        }
                    }
                    lemma_ext_preamble_requiesce(m, c, k);
                },
                None => {
                    assert(forall|x: int| o <= x ==> !is_match(mfed.buffer, db, x));
                    assert(o <= m1.offset);
                    lemma_find_sub_advance(mfed.buffer, db, o, m1.offset);
                    let y = fed(m1, c);
                    let y1 = step_of(y).0;
                    assert(f1 == crate::multipart::skip_preamble(mfed));
                    assert(y1 == crate::multipart::skip_preamble(y));
                    assert(f1.offset == y1.offset);
                    assert(f1 =~~= y1);
                    assert(drive(mfed) == (f1, None::<MultipartError>));
                    assert(drive(y) == (y1, None::<MultipartError>));
                    assert(pref_safe(y));
                },
            }
        },
    }
}

/// The preamble search from the withheld offset still sees the same first
/// occurrence, and the runs re-converge on it.
#[verifier::rlimit(60)]
proof fn lemma_ext_preamble_requiesce(m: ParserModel, c: Seq<u8>, i: int)
    requires
        wf_model(m),
        m.state == MultipartState::Preamble,
        m.need_data == false,
        c.len() > 0,
        pref_safe(fed(m, c)),
        find_sub(fed(m, c).buffer, dash_boundary_of(m.boundary), m.offset) == Some(i),
        step_of(m).0 == crate::multipart::skip_preamble(m),
        step_of(m).1 is None,
        m.offset <= crate::multipart::skip_preamble(m).offset <= i,
    ensures
        ext_post(m, c),
{
    let mfed = fed(m, c);
    let len1 = m.buffer.len() as int;
    let len2 = mfed.buffer.len() as int;
    let o = m.offset;
    let db = dash_boundary_of(m.boundary);
    let dlen = db.len() as int;
    lemma_step_progress(m);
    lemma_step_progress(mfed);
    assert(forall|x: int| 0 <= x < len1 ==> mfed.buffer[x] == m.buffer[x]);
    let m1 = step_of(m).0;
    let (f1, g1) = step_of(mfed);
    let y = fed(m1, c);
    let op = m1.offset;
    assert(y.buffer == mfed.buffer);
    lemma_find_sub(mfed.buffer, db, o);
    assert(forall|x: int| o <= x < op ==> !is_match(mfed.buffer, db, x));
    lemma_find_sub_advance(mfed.buffer, db, o, op);
    assert(find_sub(y.buffer, db, op) == Some(i));
    lemma_step_progress(y);
    let (y1, h1) = step_of(y);
    assert(step_safe(mfed));
    assert(drive(m) == (m1, None::<MultipartError>));
    if i + dlen + 2 <= len2 && mfed.buffer[i + dlen] == 13u8 && mfed.buffer[i + dlen + 1]
        == 10u8 {
        assert(g1 is None && h1 is None);
        assert(f1 =~~= y1);
        assert(!f1.need_data && f1.state != MultipartState::End);
        assert(drive(mfed) == drive(f1));
        assert(drive(y) == drive(y1));
        assert(pref_safe(f1));
        lemma_pref_safe_parallel(f1, y1);
        assert(pref_safe(y));
        assert(sim(drive(mfed).0, drive(y).0));
    } else if i + dlen + 2 <= len2 && mfed.buffer[i + dlen] == 45u8 && mfed.buffer[i + dlen + 1]
        == 45u8 {
        assert(g1 is None && h1 is None);
        assert(f1.state == MultipartState::End);
        assert(y1.state == MultipartState::End);
        assert(drive(mfed) == (f1, None::<MultipartError>));
        assert(drive(y) == (y1, None::<MultipartError>));
        assert(core_eq(f1, y1));
        assert(f1.events == y1.events);
        assert(pref_safe(y));
    } else {
        assert(i + dlen + 1 <= len2 && i + dlen + 2 > len2 ==> mfed.buffer[i + dlen] != 10u8);
        assert(g1 is None && h1 is None);
        assert(f1 == crate::multipart::skip_preamble(mfed));
        assert(y1 == crate::multipart::skip_preamble(y));
        assert(f1.offset == y1.offset);
        assert(f1 =~~= y1);
        assert(f1.need_data);
        assert(drive(mfed) == (f1, None::<MultipartError>));
        assert(drive(y) == (y1, None::<MultipartError>));
        assert(pref_safe(y));
    }
}

#[verifier::rlimit(60)]
proof fn lemma_ext_header(m: ParserModel, c: Seq<u8>)
    requires
        wf_model(m),
        m.state == MultipartState::Header,
        m.need_data == false,
        c.len() > 0,
        pref_safe(fed(m, c)),
    ensures
        ext_post(m, c),
    decreases m.buffer.len() - m.offset, 0int,
{
    let mfed = fed(m, c);
    let len1 = m.buffer.len() as int;
    let o = m.offset;
    lemma_step_progress(m);
    lemma_step_progress(mfed);
    assert(forall|x: int| 0 <= x < len1 ==> mfed.buffer[x] == m.buffer[x]);
    let (m1, e1) = step_of(m);
    let (f1, g1) = step_of(mfed);
    let crlf = seq![13u8, 10u8];
    lemma_find_sub_extend(m.buffer, c, crlf, o);
    lemma_find_sub(m.buffer, crlf, o);
    lemma_find_sub(mfed.buffer, crlf, o);
    assert(step_safe(mfed));
    match find_sub(m.buffer, crlf, o) {
        Some(j) => {
            assert(find_sub(mfed.buffer, crlf, o) == Some(j));
            assert(mfed.buffer.subrange(o, j) =~= m.buffer.subrange(o, j));
            if j == o {
                assert(build_spec(m.headers) is Ok);
                assert(f1 =~~= fed(m1, c));
                assert(drive(m) == drive(m1));
                assert(drive(mfed) == drive(fed(m1, c)));
                lemma_ext(m1, c);
            } else {
                assert(parse_header_line(m.buffer.subrange(o, j)) is Ok);
                assert(f1 =~~= fed(m1, c));
                assert(drive(m) == drive(m1));
                assert(drive(mfed) == drive(fed(m1, c)));
                lemma_ext(m1, c);
            }
        },
        None => {
            // No line can end in the prefix, and a bare LF there would sit
            // inside a line of the whole input, which safety rules out.
            crate::bytes_util::lemma_find_byte(m.buffer, 10u8, o);
            if let Some(p) = find_byte(m.buffer, 10u8, o) {
                match find_sub(mfed.buffer, crlf, o) {
                    Some(j2) => {
                        assert(j2 + 2 > len1);
                        assert(find_byte(mfed.buffer.subrange(o, j2), 10u8, 0) is None);
                        crate::bytes_util::lemma_find_byte(mfed.buffer.subrange(o, j2), 10u8, 0);
                        if p < j2 {
                            assert(mfed.buffer.subrange(o, j2)[p - o] == 10u8);
                            assert(false);
                        } else {
                            assert(p == j2);
                            assert(is_match(mfed.buffer, crlf, j2));
                            assert(mfed.buffer.subrange(j2, j2 + 2)[0] == 13u8);
                            assert(mfed.buffer[j2] == 13u8);
                            assert(false);
                        }
                    },
                    None => {
                        crate::bytes_util::lemma_find_byte(mfed.buffer, 10u8, o);
                        assert(mfed.buffer[p] == 10u8);
                        assert(false);
                    },
                }
            }
            assert(m1 =~~= (ParserModel { need_data: true, ..m }));
            assert(fed(m1, c) =~~= mfed);
            assert(drive(m) == (m1, None::<MultipartError>));
            assert(pref_safe(fed(m1, c)));
        },
    }
}

#[verifier::rlimit(60)]
proof fn lemma_ext_body(m: ParserModel, c: Seq<u8>)
    requires
        wf_model(m),
        m.state == MultipartState::Body,
        m.need_data == false,
        c.len() > 0,
        pref_safe(fed(m, c)),
    ensures
        ext_post(m, c),
    decreases m.buffer.len() - m.offset, 0int,
{
    let mfed = fed(m, c);
    let len1 = m.buffer.len() as int;
    let len2 = mfed.buffer.len() as int;
    let o = m.offset;
    lemma_step_progress(m);
    lemma_step_progress(mfed);
    assert(forall|x: int| 0 <= x < len1 ==> mfed.buffer[x] == m.buffer[x]);
    let (m1, e1) = step_of(m);
    let (f1, g1) = step_of(mfed);
    let dl = delimiter_of(m.boundary);
    let dllen = dl.len() as int;
    lemma_find_sub_extend(m.buffer, c, dl, o);
    lemma_find_sub(m.buffer, dl, o);
    lemma_find_sub(mfed.buffer, dl, o);
    assert(step_safe(mfed));
    match find_sub(m.buffer, dl, o) {
        Some(k) => {
            assert(find_sub(mfed.buffer, dl, o) == Some(k));
            if k + dllen + 2 <= len1 && m.buffer[k + dllen] == 13u8 && m.buffer[k + dllen + 1]
                == 10u8 {
                assert(mfed.buffer.subrange(o, k) =~= m.buffer.subrange(o, k));
                assert(f1 =~~= fed(m1, c));
                assert(drive(m) == drive(m1));
                assert(drive(mfed) == drive(fed(m1, c)));
                lemma_ext(m1, c);
            } else if k + dllen + 2 <= len1 && m.buffer[k + dllen] == 45u8 && m.buffer[k + dllen
                + 1] == 45u8 {
                assert(k + dllen + 2 == len2);
                assert(false);
            } else {
                // The tail is cut by the prefix border; safety rules that
                // cut out unless the tail is wholly absent, in which case
                // the prefix waits without consuming.
                assert(k + dllen + 2 > len1);
                assert(m1 =~~= (ParserModel { need_data: true, ..m }));
                assert(fed(m1, c) =~~= mfed);
                assert(drive(m) == (m1, None::<MultipartError>));
                assert(pref_safe(fed(m1, c)));
            }
        },
        None => {
            if len1 - o > dllen + 3 {
                lemma_ext_body_emit(m, c);
            } else {
                assert(m1 =~~= (ParserModel { need_data: true, ..m }));
                assert(fed(m1, c) =~~= mfed);
                assert(drive(m) == (m1, None::<MultipartError>));
                assert(pref_safe(fed(m1, c)));
            }
        },
    }
}

/// The prefix emits a windowed partial body chunk; the fuller input emits
/// the same bytes inside a larger chunk, and the two runs re-converge after
/// one step.
#[verifier::rlimit(100)]
proof fn lemma_ext_body_emit(m: ParserModel, c: Seq<u8>)
    requires
        wf_model(m),
        m.state == MultipartState::Body,
        m.need_data == false,
        c.len() > 0,
        pref_safe(fed(m, c)),
        find_sub(m.buffer, delimiter_of(m.boundary), m.offset) is None,
        m.buffer.len() - m.offset > delimiter_of(m.boundary).len() + 3,
    ensures
        ext_post(m, c),
{
    let mfed = fed(m, c);
    let len1 = m.buffer.len() as int;
    let len2 = mfed.buffer.len() as int;
    let o = m.offset;
    let dl = delimiter_of(m.boundary);
    let dllen = dl.len() as int;
    lemma_step_progress(m);
    lemma_step_progress(mfed);
    assert(forall|x: int| 0 <= x < len1 ==> mfed.buffer[x] == m.buffer[x]);
    let (m1, e1) = step_of(m);
    let (f1, g1) = step_of(mfed);
    lemma_find_sub_extend(m.buffer, c, dl, o);
    lemma_find_sub(m.buffer, dl, o);
    lemma_find_sub(mfed.buffer, dl, o);
    assert(step_safe(mfed));
    let cut = len1 - (dllen + 3);
    let part = m.current->0;
    let dpre = m.buffer.subrange(o, cut);
    assert(m1.offset == cut);
    assert(m1.need_data);
    assert(drive(m) == (m1, None::<MultipartError>));
    let y = fed(m1, c);
    assert(y.buffer == mfed.buffer);
    lemma_step_progress(y);
    let (y1, h1) = step_of(y);
    assert(forall|x: int| o <= x < cut ==> !is_match(mfed.buffer, dl, x));
    lemma_find_sub_advance(mfed.buffer, dl, o, cut);
    assert(find_sub(y.buffer, dl, cut) == find_sub(mfed.buffer, dl, o));
    assert(mfed.buffer.subrange(o, cut) =~= dpre);
    assert(y.current == Some(FormDataView { data: part.data + dpre, ..part }));
    match find_sub(mfed.buffer, dl, o) {
        Some(k) => {
            assert(k + dllen > len1);
            assert(k + dllen + 2 <= len2);
            let dfull = mfed.buffer.subrange(o, k);
            let dtail = mfed.buffer.subrange(cut, k);
            assert(dpre + dtail =~= dfull);
            assert((part.data + dpre) + dtail =~= part.data + dfull);
            assert((FormDataView { data: (part.data + dpre) + dtail, ..part }) =~~= (FormDataView {
                data: part.data + dfull,
                ..part
            }));
            lemma_canon_push_complete(mfed.events, dfull);
            lemma_canon_push_partial(m.events, dpre);
            lemma_canon_push_complete(y.events, dtail);
            assert((cpend(m.events, Seq::empty()) + dpre) + dtail =~= cpend(m.events, Seq::empty())
                + dfull);
            if mfed.buffer[k + dllen] == 13u8 && mfed.buffer[k + dllen + 1] == 10u8 {
                assert(g1 is None && h1 is None);
                assert(f1.parts =~= y1.parts);
                assert(core_eq(f1, y1));
                assert(events_equiv(f1.events, y1.events));
                assert(!f1.need_data && f1.state != MultipartState::End);
                assert(drive(mfed) == drive(f1));
                assert(drive(y) == drive(y1));
                assert(pref_safe(f1));
                lemma_pref_safe_parallel(f1, y1);
                assert(pref_safe(y));
                lemma_drive_parallel(f1, y1);
                lemma_events_equiv_append(
                    f1.events,
                    y1.events,
                    drive(f1).0.events.skip(f1.events.len() as int),
                );
                assert(drive(f1).0.events =~= f1.events + drive(f1).0.events.skip(
                    f1.events.len() as int,
                ));
                assert(drive(y1).0.events =~= y1.events + drive(y1).0.events.skip(
                    y1.events.len() as int,
                ));
                assert(sim(drive(mfed).0, drive(y).0));
            } else {
                assert(mfed.buffer[k + dllen] == 45u8 && mfed.buffer[k + dllen + 1] == 45u8 && k
                    + dllen + 2 == len2);
                assert(g1 is None && h1 is None);
                assert(f1.state == MultipartState::End);
                assert(y1.state == MultipartState::End);
                assert(f1.parts =~= y1.parts);
                assert(core_eq(f1, y1));
                assert(events_equiv(f1.events, y1.events));
                assert(drive(mfed) == (f1, None::<MultipartError>));
                assert(drive(y) == (y1, None::<MultipartError>));
                assert(pref_safe(y));
                assert(sim(drive(mfed).0, drive(y).0));
            }
        },
        None => {
            let cut2 = len2 - (dllen + 3);
            assert(len2 - o > dllen + 3);
            assert(len2 - cut > dllen + 3);
            assert(f1.offset == cut2 && y1.offset == cut2);
            let dfull = mfed.buffer.subrange(o, cut2);
            let dtail = mfed.buffer.subrange(cut, cut2);
            assert(dpre + dtail =~= dfull);
            assert((part.data + dpre) + dtail =~= part.data + dfull);
            assert((FormDataView { data: (part.data + dpre) + dtail, ..part }) =~~= (FormDataView {
                data: part.data + dfull,
                ..part
            }));
            assert(core_eq(f1, y1));
            lemma_canon_push_partial(mfed.events, dfull);
            lemma_canon_push_partial(m.events, dpre);
            lemma_canon_push_partial(y.events, dtail);
            assert((cpend(m.events, Seq::empty()) + dpre) + dtail =~= cpend(m.events, Seq::empty())
                + dfull);
            assert(events_equiv(f1.events, y1.events));
            assert(f1.need_data && y1.need_data);
            assert(drive(mfed) == (f1, None::<MultipartError>));
            assert(drive(y) == (y1, None::<MultipartError>));
            assert(pref_safe(y));
            assert(sim(drive(mfed).0, drive(y).0));
        },
    }
}


/// The concatenation of a list of chunks.
pub open spec fn concat_chunks(cs: Seq<Seq<u8>>) -> Seq<u8>
    decreases cs.len(),
{
    if cs.len() == 0 {
        Seq::empty()
    } else {
        cs[0] + concat_chunks(cs.drop_first())
    }
}

/// The result of one `parse` call per chunk, in order, stopping at the
/// first error.
pub open spec fn feed_all(m: ParserModel, cs: Seq<Seq<u8>>) -> (ParserModel, Option<
    MultipartError,
>)
    decreases cs.len(),
{
    if cs.len() == 0 {
        (m, None)
    } else {
        let r = crate::multipart::spec_parse(m, cs[0]);
        if r.1 is Some {
            r
        } else {
            feed_all(r.0, cs.drop_first())
        }
    }
}

proof fn lemma_sim_trans(a: ParserModel, b: ParserModel, c: ParserModel)
    requires
        sim(a, b),
        sim(b, c),
    ensures
        sim(a, c),
{
}

proof fn lemma_chain(m: ParserModel, cs: Seq<Seq<u8>>)
    requires
        wf_model(m),
        m.state != MultipartState::End,
        cs.len() > 0,
        forall|i: int| 0 <= i < cs.len() ==> cs[i].len() > 0,
        pref_safe(fed(m, concat_chunks(cs))),
        m.max_size matches Some(mx) ==> m.buffer.len() + concat_chunks(cs).len() <= mx,
    ensures
        ({
            let one = drive(fed(m, concat_chunks(cs)));
            let many = feed_all(m, cs);
            &&& one.1 is None
            &&& many.1 is None
            &&& sim(one.0, many.0)
        }),
    decreases cs.len(),
{
    let c0 = cs[0];
    let rest = cs.drop_first();
    let whole = concat_chunks(cs);
    assert(whole == c0 + concat_chunks(rest));
    assert(whole.len() >= c0.len());
    let r = crate::multipart::spec_parse(m, c0);
    assert(m.max_size matches Some(mx) ==> m.buffer.len() + c0.len() <= mx);
    assert(r == drive(fed(m, c0)));
    if rest.len() == 0 {
        assert(concat_chunks(rest) =~= Seq::<u8>::empty());
        assert(whole =~= c0);
        lemma_pref_safe_no_error(fed(m, c0));
        assert(r.1 is None);
        assert(feed_all(r.0, rest) == (r.0, None::<MultipartError>));
        assert(feed_all(m, cs) == (r.0, None::<MultipartError>));
        assert(sim(r.0, r.0));
    } else {
        let crest = concat_chunks(rest);
        assert(crest == rest[0] + concat_chunks(rest.drop_first()));
        assert(rest[0] == cs[1]);
        assert(crest.len() > 0);
        assert(fed(fed(m, c0), crest) =~~= fed(m, whole));
        lemma_ext(fed(m, c0), crest);
        let q = drive(fed(m, c0));
        assert(q == r);
        assert(r.1 is None);
        assert(feed_all(m, cs) == feed_all(r.0, rest));
        assert(forall|i: int| 0 <= i < rest.len() ==> rest[i] == cs[i + 1]);
        assert(forall|i: int| 0 <= i < rest.len() ==> rest[i].len() > 0);
        assert(r.0.buffer == m.buffer + c0);
        assert(r.0.max_size == m.max_size);
        lemma_chain(r.0, rest);
        let one = drive(fed(m, whole));
        let mid = drive(fed(r.0, crest));
        let many = feed_all(r.0, rest);
        assert(one.1 == mid.1);
        assert(mid.1 is None);
        assert(sim(one.0, mid.0));
        assert(sim(mid.0, many.0));
        lemma_sim_trans(one.0, mid.0, many.0);
    }
}

/// Chunk-boundary invariance: however a safe stream is cut into nonempty
/// chunks, feeding the chunks in order succeeds, and yields the same final
/// state, the same completed parts, and the same events as feeding the
/// whole stream in one call, with each part's body runs compared through
/// their concatenation.  A safe stream is one whose one-shot run meets
/// `pref_safe`: every dash-boundary and delimiter it finds with two
/// trailing bytes in reach is followed by `CRLF` or by the close marker at
/// the very end of the input, header lines are free of bare `LF`, and every
/// part builds.
pub proof fn lemma_chunk_invariance(b: Seq<u8>, max: Option<usize>, cs: Seq<Seq<u8>>)
    requires
        1 <= b.len() <= 70,
        cs.len() > 0,
        forall|i: int| 0 <= i < cs.len() ==> cs[i].len() > 0,
        max matches Some(mx) ==> concat_chunks(cs).len() <= mx,
        pref_safe(fed(crate::multipart::init_model(b, max), concat_chunks(cs))),
    ensures
        ({
            let one = crate::multipart::spec_parse(
                crate::multipart::init_model(b, max),
                concat_chunks(cs),
            );
            let many = feed_all(crate::multipart::init_model(b, max), cs);
            &&& one.1 is None
            &&& many.1 is None
            &&& many.0.state == one.0.state
            &&& many.0.parts == one.0.parts
            &&& many.0.headers == one.0.headers
            &&& many.0.current == one.0.current
            &&& cdone(many.0.events, Seq::empty()) == cdone(one.0.events, Seq::empty())
            &&& cpend(many.0.events, Seq::empty()) == cpend(one.0.events, Seq::empty())
        }),
{
    let m0 = crate::multipart::init_model(b, max);
    lemma_chain(m0, cs);
    assert(crate::multipart::spec_parse(m0, concat_chunks(cs)) == drive(fed(m0, concat_chunks(
        cs,
    ))));
}

/// Two chunkings of the same safe stream cannot be told apart: same final
/// state, same completed parts, and the same header lines and per-part body
/// data.
pub proof fn lemma_chunking_independent(
    b: Seq<u8>,
    max: Option<usize>,
    cs1: Seq<Seq<u8>>,
    cs2: Seq<Seq<u8>>,
)
    requires
        1 <= b.len() <= 70,
        cs1.len() > 0,
        cs2.len() > 0,
        forall|i: int| 0 <= i < cs1.len() ==> cs1[i].len() > 0,
        forall|i: int| 0 <= i < cs2.len() ==> cs2[i].len() > 0,
        concat_chunks(cs1) == concat_chunks(cs2),
        max matches Some(mx) ==> concat_chunks(cs1).len() <= mx,
        pref_safe(fed(crate::multipart::init_model(b, max), concat_chunks(cs1))),
    ensures
        ({
            let r1 = feed_all(crate::multipart::init_model(b, max), cs1);
            let r2 = feed_all(crate::multipart::init_model(b, max), cs2);
            &&& r1.1 is None
            &&& r2.1 is None
            &&& r1.0.state == r2.0.state
            &&& r1.0.parts == r2.0.parts
            &&& cdone(r1.0.events, Seq::empty()) == cdone(r2.0.events, Seq::empty())
            &&& cpend(r1.0.events, Seq::empty()) == cpend(r2.0.events, Seq::empty())
        }),
{
    lemma_chunk_invariance(b, max, cs1);
    lemma_chunk_invariance(b, max, cs2);
}


/// The chunking of a stream into single bytes.
pub open spec fn byte_chunks(s: Seq<u8>) -> Seq<Seq<u8>> {
    Seq::new(s.len(), |i: int| seq![s[i]])
}

proof fn lemma_concat_byte_chunks(s: Seq<u8>)
    ensures
        concat_chunks(byte_chunks(s)) == s,
    decreases s.len(),
{
    if s.len() == 0 {
        assert(byte_chunks(s) =~= Seq::<Seq<u8>>::empty());
        assert(concat_chunks(byte_chunks(s)) =~= s);
    } else {
        assert(byte_chunks(s).drop_first() =~= byte_chunks(s.drop_first()));
        lemma_concat_byte_chunks(s.drop_first());
        assert(byte_chunks(s)[0] == seq![s[0]]);
        assert(seq![s[0]] + s.drop_first() =~= s);
    }
}

/// Feeding a safe complete stream in one call and feeding it byte by byte
/// yield the same final state, the same completed parts, and the same
/// header lines and per-part body data.
pub proof fn lemma_bytewise_equals_whole(b: Seq<u8>, max: Option<usize>, s: Seq<u8>)
    requires
        1 <= b.len() <= 70,
        s.len() > 0,
        max matches Some(mx) ==> s.len() <= mx,
        pref_safe(fed(crate::multipart::init_model(b, max), s)),
    ensures
        ({
            let one = crate::multipart::spec_parse(crate::multipart::init_model(b, max), s);
            let many = feed_all(crate::multipart::init_model(b, max), byte_chunks(s));
            &&& one.1 is None
            &&& many.1 is None
            &&& many.0.state == one.0.state
            &&& many.0.parts == one.0.parts
            &&& cdone(many.0.events, Seq::empty()) == cdone(one.0.events, Seq::empty())
            &&& cpend(many.0.events, Seq::empty()) == cpend(one.0.events, Seq::empty())
        }),
{
    lemma_concat_byte_chunks(s);
    assert(forall|i: int| 0 <= i < byte_chunks(s).len() ==> #[trigger] byte_chunks(s)[i].len()
        > 0);
    lemma_chunk_invariance(b, max, byte_chunks(s));
}

} // verus!
