//! Laws of the parser, stated and proved over the model that the executable
//! functions are specified against.

use vstd::prelude::*;

verus! {

use crate::bytes_util::find_sub;
use crate::errors::MultipartError;
use crate::form_data::FormDataView;
use crate::form_data::build_spec;
use crate::headers::parse_options_spec;
use crate::multipart::EventView;
use crate::multipart::MultipartState;
use crate::multipart::ParserModel;
use crate::multipart::dash_boundary_of;
use crate::multipart::header_step;
use crate::multipart::init_model;
use crate::multipart::spec_parse;
use crate::multipart::wf_model;
use crate::multipart::drive;
use crate::multipart::step_of;

/// Feeding a parser that reached the end state fails with the terminal-state
/// error and changes nothing, whatever the chunk; since the state is
/// unchanged, so does every later call.
pub proof fn lemma_feed_after_end(m: ParserModel, chunk: Seq<u8>)
    requires
        m.state == MultipartState::End,
    ensures
        spec_parse(m, chunk) == (m, Some(MultipartError::TerminalState)),
{
}

/// A stream whose first dash-boundary occurrence is immediately followed by
/// `--` reaches the end state with no completed parts and no events.
pub proof fn lemma_empty_stream(b: Seq<u8>, max: Option<usize>, body: Seq<u8>)
    requires
        1 <= b.len() <= 70,
        max matches Some(mx) ==> body.len() <= mx,
        ({
            let db = dash_boundary_of(b);
            &&& find_sub(body, db, 0) matches Some(i) && i + db.len() + 2 <= body.len()
                && body[i + db.len()] == 45u8 && body[i + db.len() + 1] == 45u8
        }),
    ensures
        ({
            let r = spec_parse(init_model(b, max), body);
            &&& r.1 is None
            &&& r.0.state == MultipartState::End
            &&& r.0.events == Seq::<EventView>::empty()
            &&& r.0.parts == Seq::<FormDataView>::empty()
        }),
{
    let m0 = init_model(b, max);
    let m1 = ParserModel { buffer: m0.buffer + body, need_data: false, ..m0 };
    assert(m1.buffer =~= body);
    assert(wf_model(m1));
}

/// A header mapping without `content-disposition` fails part construction
/// with `MissingContentDisposition`, whenever its `content-type` header, if
/// any, is itself well formed.
pub proof fn lemma_missing_disposition(h: Map<Seq<char>, Seq<char>>)
    requires
        !h.contains_key("content-disposition"@),
        h.contains_key("content-type"@) ==> parse_options_spec(h["content-type"@]) is Some,
    ensures
        build_spec(h) == Err::<FormDataView, MultipartError>(
            MultipartError::MissingContentDisposition,
        ),
{
}

/// In the header state, the blank line that ends a header block without
/// `content-disposition` makes the feed call fail with
/// `MissingContentDisposition` at that moment.
pub proof fn lemma_missing_disposition_at_blank_line(m: ParserModel)
    requires
        m.state == MultipartState::Header,
        find_sub(m.buffer, seq![13u8, 10u8], m.offset) == Some(m.offset),
        !m.headers.contains_key("content-disposition"@),
        m.headers.contains_key("content-type"@) ==> parse_options_spec(
            m.headers["content-type"@],
        ) is Some,
    ensures
        header_step(m).1 == Some(MultipartError::MissingContentDisposition),
{
    lemma_missing_disposition(m.headers);
}

/// A part is checked out for mutation exactly while a body streams in.
pub open spec fn part_checked_out(m: ParserModel) -> bool {
    m.current is Some <==> m.state == MultipartState::Body
}

proof fn lemma_step_part_checked_out(m: ParserModel)
    requires
        wf_model(m),
        part_checked_out(m),
        m.state != MultipartState::End,
    ensures
        step_of(m).1 is Some || part_checked_out(step_of(m).0),
        step_of(m).1 != Some(MultipartError::MissingCurrentPart),
{
}

proof fn lemma_drive_part_checked_out(m: ParserModel)
    requires
        wf_model(m),
        part_checked_out(m),
    ensures
        drive(m).1 is Some || part_checked_out(drive(m).0),
        drive(m).1 != Some(MultipartError::MissingCurrentPart),
    decreases m.buffer.len() - m.offset,
{
    if m.state != MultipartState::End {
        lemma_step_part_checked_out(m);
        crate::multipart::lemma_step_progress(m);
        let (m1, e) = step_of(m);
        if e is None && !m1.need_data && m1.state != MultipartState::End {
            lemma_drive_part_checked_out(m1);
        }
    }
}

/// The missing-part error can never surface: a fresh parser has no part
/// checked out, and every feed call keeps a part checked out exactly while
/// a body streams, so body bytes always find their part.
pub proof fn lemma_no_missing_current_part(m: ParserModel, chunk: Seq<u8>)
    requires
        wf_model(m),
        part_checked_out(m),
    ensures
        spec_parse(m, chunk).1 != Some(MultipartError::MissingCurrentPart),
        spec_parse(m, chunk).1 is Some || part_checked_out(spec_parse(m, chunk).0),
{
    if m.state != MultipartState::End && !(m.max_size matches Some(mx) && m.buffer.len()
        + chunk.len() > mx) {
        let m1 = ParserModel { buffer: m.buffer + chunk, need_data: false, ..m };
        lemma_drive_part_checked_out(m1);
    }
}


proof fn lemma_step_appends_only(m: ParserModel)
    requires
        wf_model(m),
        m.state != MultipartState::End,
    ensures
        ({
            let r = step_of(m);
            &&& r.0.events.len() >= m.events.len()
            &&& r.0.events.subrange(0, m.events.len() as int) =~= m.events
            &&& r.0.parts.len() >= m.parts.len()
            &&& r.0.parts.subrange(0, m.parts.len() as int) =~= m.parts
        }),
{
    let r = step_of(m);
    assert forall|es: Seq<EventView>, x: EventView| #[trigger] es.push(x).subrange(
        0,
        es.len() as int,
    ) =~= es by {}
    assert forall|ps: Seq<FormDataView>, x: FormDataView| #[trigger] ps.push(x).subrange(
        0,
        ps.len() as int,
    ) =~= ps by {}
    assert(r.0.events.subrange(0, m.events.len() as int) =~= m.events);
    assert(r.0.parts.subrange(0, m.parts.len() as int) =~= m.parts);
}

proof fn lemma_drive_appends_only(m: ParserModel)
    requires
        wf_model(m),
    ensures
        ({
            let r = drive(m);
            &&& r.0.events.len() >= m.events.len()
            &&& r.0.events.subrange(0, m.events.len() as int) == m.events
            &&& r.0.parts.len() >= m.parts.len()
            &&& r.0.parts.subrange(0, m.parts.len() as int) == m.parts
        }),
    decreases m.buffer.len() - m.offset,
{
    if m.state != MultipartState::End {
        lemma_step_appends_only(m);
        crate::multipart::lemma_step_progress(m);
        let (m1, e) = step_of(m);
        if e is None && !m1.need_data && m1.state != MultipartState::End {
            lemma_drive_appends_only(m1);
            let r = drive(m);
            assert(r.0.events.subrange(0, m.events.len() as int) =~= m1.events.subrange(
                0,
                m.events.len() as int,
            ));
            assert(r.0.parts.subrange(0, m.parts.len() as int) =~= m1.parts.subrange(
                0,
                m.parts.len() as int,
            ));
        }
    }
}

/// Nothing queued is ever retracted: a feed call, successful or failed,
/// only appends to the event and part queues, so events pushed before an
/// error stay visible.
pub proof fn lemma_feed_appends_only(m: ParserModel, chunk: Seq<u8>)
    requires
        wf_model(m),
    ensures
        ({
            let r = spec_parse(m, chunk);
            &&& r.0.events.len() >= m.events.len()
            &&& r.0.events.subrange(0, m.events.len() as int) == m.events
            &&& r.0.parts.len() >= m.parts.len()
            &&& r.0.parts.subrange(0, m.parts.len() as int) == m.parts
        }),
{
    let r = spec_parse(m, chunk);
    if m.state == MultipartState::End || (m.max_size matches Some(mx) && m.buffer.len()
        + chunk.len() > mx) {
        assert(r.0.events.subrange(0, m.events.len() as int) =~= m.events);
        assert(r.0.parts.subrange(0, m.parts.len() as int) =~= m.parts);
    } else {
        let m1 = ParserModel { buffer: m.buffer + chunk, need_data: false, ..m };
        lemma_drive_appends_only(m1);
    }
}

} // verus!
