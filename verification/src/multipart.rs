//! The multipart state machine: boundary detection, header tokenization,
//! body extraction, and the event and part queues.
//!
//! The executable parser is specified against `ParserModel`, a mathematical
//! image of its whole state, and `spec_parse`, the function that one `parse`
//! call computes on that image.  The transition loop mirrors the wire grammar
//! of RFC 2046 section 5.1.1: a preamble up to the first dash-boundary, then
//! alternating header blocks and bodies, until the close delimiter.

use vstd::prelude::*;

verus! {

use vstd::utf8::decode_utf8;
use vstd::utf8::valid_utf8;
use crate::bytes_util::copy_range;
use crate::bytes_util::find_byte;
use crate::bytes_util::find_byte_in;
use crate::bytes_util::find_sub;
use crate::bytes_util::find_subsequence;
use crate::bytes_util::lemma_find_byte;
use crate::bytes_util::lemma_find_sub;
use crate::errors::MultipartError;
use crate::form_data::BytesWrapper;
use crate::form_data::FormData;
use crate::form_data::FormDataView;
use crate::form_data::build_spec;
use crate::headers::HeaderMap;
use crate::strutil::lower_of;
use crate::strutil::to_lowercase_str;
use crate::strutil::trim;
use crate::strutil::trim_spec;
use crate::strutil::str_eq;
use crate::strutil::utf8_to_str;

/// The decode state of the parser.  `Preamble` and `End` are visited at most
/// once; `Header` and `Body` alternate once per part.  `End` is terminal.
#[derive(Clone, Copy, Debug, PartialEq, Eq, Structural)]
pub enum MultipartState {
    Preamble,
    Header,
    Body,
    End,
}

/// One low-level parse event, emitted in strict arrival order.
#[derive(Debug, Clone)]
pub enum MultipartPart {
    /// One decoded header line: the name lowercased, the value trimmed.
    Header { name: String, value: String },
    /// A run of body bytes of the current part.  `complete` marks the final
    /// run of that part's body; runs must be concatenated in emission order.
    Body { data: BytesWrapper, complete: bool },
}

/// The mathematical shape of one parse event.
#[verifier::ext_equal]
pub enum EventView {
    HeaderLine { name: Seq<char>, value: Seq<char> },
    BodyChunk { data: Seq<u8>, complete: bool },
}

impl View for MultipartPart {
    type V = EventView;

    open spec fn view(&self) -> EventView {
        match self {
            MultipartPart::Header { name, value } => EventView::HeaderLine {
                name: name@,
                value: value@,
            },
            MultipartPart::Body { data, complete } => EventView::BodyChunk {
                data: data@,
                complete: *complete,
            },
        }
    }
}

/// The mathematical image of the parser's whole state.
#[verifier::ext_equal]
pub struct ParserModel {
    /// The boundary token handed to the constructor.
    pub boundary: Seq<u8>,
    /// The optional ceiling on the total buffered input.
    pub max_size: Option<usize>,
    /// The decode state.
    pub state: MultipartState,
    /// Every byte fed so far.
    pub buffer: Seq<u8>,
    /// How many bytes of `buffer` are consumed.
    pub offset: int,
    /// The queue of parse events not yet drained.
    pub events: Seq<EventView>,
    /// Whether the transition loop must wait for more bytes.
    pub need_data: bool,
    /// The header mapping of the part being read.
    pub headers: Map<Seq<char>, Seq<char>>,
    /// The part checked out for mutation while its body streams in.
    pub current: Option<FormDataView>,
    /// The queue of completed parts not yet drained.
    pub parts: Seq<FormDataView>,
}

/// `--` followed by the boundary.
pub open spec fn dash_boundary_of(b: Seq<u8>) -> Seq<u8> {
    seq![45u8, 45u8] + b
}

/// `CRLF` followed by the dash-boundary.
pub open spec fn delimiter_of(b: Seq<u8>) -> Seq<u8> {
    seq![13u8, 10u8, 45u8, 45u8] + b
}

/// The bounds every reachable model keeps.
pub open spec fn wf_model(m: ParserModel) -> bool {
    &&& 1 <= m.boundary.len() <= 70
    &&& 0 <= m.offset <= m.buffer.len()
}

/// What decoding one header line yields: the bytes before the first `:` are
/// the name (UTF-8 decoded, trimmed, lowercased), the bytes after it the
/// value (UTF-8 decoded, trimmed).
pub open spec fn parse_header_line(line: Seq<u8>) -> Result<
    (Seq<char>, Seq<char>),
    MultipartError,
> {
    match find_byte(line, 58u8, 0) {
        None => Err(MultipartError::MalformedHeader),
        Some(ci) => {
            let key_bytes = line.subrange(0, ci);
            let val_bytes = line.subrange(ci + 1, line.len() as int);
            if !valid_utf8(key_bytes) {
                Err(MultipartError::InvalidUtf8)
            } else if !valid_utf8(val_bytes) {
                Err(MultipartError::InvalidUtf8)
            } else {
                Ok(
                    (
                        lower_of(trim_spec(decode_utf8(key_bytes))),
                        trim_spec(decode_utf8(val_bytes)),
                    ),
                )
            }
        },
    }
}

/// The sliding-window advance of the preamble search: all but the last
/// `dash-boundary length + 4` bytes are consumed, so that a boundary cut by
/// the chunk border is still found once more bytes arrive.
pub open spec fn skip_preamble(m: ParserModel) -> ParserModel {
    let dlen = dash_boundary_of(m.boundary).len() as int;
    let cand = if m.buffer.len() >= dlen + 4 {
        m.buffer.len() - (dlen + 4)
    } else {
        0
    };
    let off = if cand > m.offset {
        cand
    } else {
        m.offset
    };
    ParserModel { offset: off, need_data: true, ..m }
}

/// One step of the `Preamble` state: search the unconsumed buffer for the
/// dash-boundary and inspect the two bytes after it.
pub open spec fn preamble_step(m: ParserModel) -> (ParserModel, Option<MultipartError>) {
    let db = dash_boundary_of(m.boundary);
    let dlen = db.len() as int;
    let blen = m.buffer.len() as int;
    match find_sub(m.buffer, db, m.offset) {
        Some(i) => {
            if i + dlen + 2 <= blen && m.buffer[i + dlen] == 13u8 && m.buffer[i + dlen + 1]
                == 10u8 {
                (
                    ParserModel { offset: i + dlen + 2, state: MultipartState::Header, ..m },
                    None,
                )
            } else if i + dlen + 2 <= blen && m.buffer[i + dlen] == 45u8 && m.buffer[i + dlen + 1]
                == 45u8 {
                (ParserModel { state: MultipartState::End, ..m }, None)
            } else if i + dlen + 1 <= blen && m.buffer[i + dlen] == 10u8 {
                (m, Some(MultipartError::InvalidLineBreak))
            } else if i + dlen + 2 <= blen && m.buffer[i + dlen] == 13u8 {
                (ParserModel { offset: i + dlen + 1, ..m }, None)
            } else {
                (skip_preamble(m), None)
            }
        },
        None => (skip_preamble(m), None),
    }
}

/// One step of the `Header` state: search for `CRLF`; a blank line builds
/// the part, any other line is one header.
pub open spec fn header_step(m: ParserModel) -> (ParserModel, Option<MultipartError>) {
    match find_sub(m.buffer, seq![13u8, 10u8], m.offset) {
        Some(j) => {
            if j == m.offset {
                let m2 = ParserModel { offset: j + 2, ..m };
                match build_spec(m.headers) {
                    Err(e) => (m2, Some(e)),
                    Ok(part) => (
                        ParserModel {
                            state: MultipartState::Body,
                            headers: Map::empty(),
                            current: Some(part),
                            ..m2
                        },
                        None,
                    ),
                }
            } else {
                let m2 = ParserModel { offset: j + 2, ..m };
                match parse_header_line(m.buffer.subrange(m.offset, j)) {
                    Err(e) => (m2, Some(e)),
                    Ok((name, value)) => (
                        ParserModel {
                            events: m.events.push(EventView::HeaderLine { name, value }),
                            headers: m.headers.insert(name, value),
                            ..m2
                        },
                        None,
                    ),
                }
            }
        },
        None => {
            if find_byte(m.buffer, 10u8, m.offset) is Some {
                (m, Some(MultipartError::InvalidLineBreak))
            } else {
                (ParserModel { need_data: true, ..m }, None)
            }
        },
    }
}

/// Appends body bytes to the checked-out part; a complete append moves the
/// part to the completed queue.
pub open spec fn insert_data_spec(m: ParserModel, data: Seq<u8>, complete: bool) -> (
    ParserModel,
    Option<MultipartError>,
) {
    match m.current {
        None => (m, Some(MultipartError::MissingCurrentPart)),
        Some(p) => {
            let p2 = FormDataView { data: p.data + data, ..p };
            if complete {
                (ParserModel { parts: m.parts.push(p2), current: None, ..m }, None)
            } else {
                (ParserModel { current: Some(p2), ..m }, None)
            }
        },
    }
}

/// One step of the `Body` state: search for the full delimiter; its two
/// trailing bytes decide between the next part and the end of the stream,
/// and without a find, all but a delimiter-sized tail is emitted as a
/// partial body chunk.
pub open spec fn body_step(m: ParserModel) -> (ParserModel, Option<MultipartError>) {
    let dl = delimiter_of(m.boundary);
    let dllen = dl.len() as int;
    let blen = m.buffer.len() as int;
    match find_sub(m.buffer, dl, m.offset) {
        Some(k) => {
            if k + dllen + 2 <= blen && m.buffer[k + dllen] == 13u8 && m.buffer[k + dllen + 1]
                == 10u8 {
                let data = m.buffer.subrange(m.offset, k);
                let m2 = ParserModel {
                    events: m.events.push(EventView::BodyChunk { data, complete: true }),
                    ..m
                };
                let ins = insert_data_spec(m2, data, true);
                match ins.1 {
                    Some(e) => (ins.0, Some(e)),
                    None => (
                        ParserModel {
                            offset: k + dllen + 2,
                            state: MultipartState::Header,
                            ..ins.0
                        },
                        None,
                    ),
                }
            } else if k + dllen + 2 <= blen && m.buffer[k + dllen] == 45u8 && m.buffer[k + dllen
                + 1] == 45u8 {
                let data = m.buffer.subrange(m.offset, k);
                let ins = insert_data_spec(m, data, true);
                match ins.1 {
                    Some(e) => (ins.0, Some(e)),
                    None => (
                        ParserModel {
                            events: ins.0.events.push(
                                EventView::BodyChunk { data, complete: true },
                            ),
                            offset: k + dllen + 2,
                            state: MultipartState::End,
                            ..ins.0
                        },
                        None,
                    ),
                }
            } else {
                (ParserModel { need_data: true, ..m }, None)
            }
        },
        None => {
            if blen - m.offset > dllen + 3 {
                let cut = blen - (dllen + 3);
                let data = m.buffer.subrange(m.offset, cut);
                let ins = insert_data_spec(m, data, false);
                match ins.1 {
                    Some(e) => (ins.0, Some(e)),
                    None => (
                        ParserModel {
                            events: ins.0.events.push(
                                EventView::BodyChunk { data, complete: false },
                            ),
                            offset: cut,
                            need_data: true,
                            ..ins.0
                        },
                        None,
                    ),
                }
            } else {
                (ParserModel { need_data: true, ..m }, None)
            }
        },
    }
}

/// The transition of the current state.
pub open spec fn step_of(m: ParserModel) -> (ParserModel, Option<MultipartError>) {
    match m.state {
        MultipartState::Preamble => preamble_step(m),
        MultipartState::Header => header_step(m),
        MultipartState::Body => body_step(m),
        MultipartState::End => (m, None),
    }
}

/// Every step keeps the buffer and the configuration, never moves the
/// consumption offset backwards or past the buffer, and moves it strictly
/// forward whenever the loop continues.
pub proof fn lemma_step_progress(m: ParserModel)
    requires
        wf_model(m),
        m.state != MultipartState::End,
    ensures
        ({
            let (m2, e) = step_of(m);
            &&& m2.buffer == m.buffer
            &&& m2.boundary == m.boundary
            &&& m2.max_size == m.max_size
            &&& m.offset <= m2.offset <= m2.buffer.len()
            &&& wf_model(m2)
            &&& (e is None && !m2.need_data && m2.state != MultipartState::End ==> m2.offset
                > m.offset)
        }),
{
    match m.state {
        MultipartState::Preamble => {
            lemma_find_sub(m.buffer, dash_boundary_of(m.boundary), m.offset);
        },
        MultipartState::Header => {
            lemma_find_sub(m.buffer, seq![13u8, 10u8], m.offset);
        },
        MultipartState::Body => {
            lemma_find_sub(m.buffer, delimiter_of(m.boundary), m.offset);
        },
        MultipartState::End => {},
    }
}

/// Runs state transitions until an error, a need for more bytes, or the end
/// state.
pub open spec fn drive(m: ParserModel) -> (ParserModel, Option<MultipartError>)
    decreases m.buffer.len() - m.offset when wf_model(m) via drive_decreases
{
    if m.state == MultipartState::End {
        (m, None)
    } else {
        let s = step_of(m);
        if s.1 is Some {
            s
        } else if s.0.need_data || s.0.state == MultipartState::End {
            (s.0, None)
        } else {
            drive(s.0)
        }
    }
}

#[via_fn]
proof fn drive_decreases(m: ParserModel) {
    if wf_model(m) && m.state != MultipartState::End {
        lemma_step_progress(m);
    }
}

/// What one `parse` call computes on the model: feeding after the end state
/// or past the size ceiling is refused with the buffer untouched; otherwise
/// the chunk is appended and the transition loop runs.
pub open spec fn spec_parse(m: ParserModel, chunk: Seq<u8>) -> (ParserModel, Option<
    MultipartError,
>) {
    if m.state == MultipartState::End {
        (m, Some(MultipartError::TerminalState))
    } else if m.max_size matches Some(max) && m.buffer.len() + chunk.len() > max {
        (m, Some(MultipartError::SizeExceeded))
    } else {
        drive(ParserModel { buffer: m.buffer + chunk, need_data: false, ..m })
    }
}

/// The model of a freshly constructed parser.
pub open spec fn init_model(b: Seq<u8>, max: Option<usize>) -> ParserModel {
    ParserModel {
        boundary: b,
        max_size: max,
        state: MultipartState::Preamble,
        buffer: Seq::empty(),
        offset: 0,
        events: Seq::empty(),
        need_data: false,
        headers: Map::empty(),
        current: None,
        parts: Seq::empty(),
    }
}

/// Whether the constructor accepts the requested header charset: only
/// `utf-8`, which is also the default.
pub open spec fn charset_ok(hc: Option<&str>) -> bool {
    match hc {
        None => true,
        Some(s) => s@ == "utf-8"@,
    }
}

/// `Ok(())` exactly when no error came out of a step.
pub open spec fn res_of(e: Option<MultipartError>) -> Result<(), MultipartError> {
    match e {
        None => Ok(()),
        Some(x) => Err(x),
    }
}


/// The streaming multipart parser: it owns the input buffer, the decode
/// state, and the event and part queues.
pub struct MultipartParser {
    boundary: Vec<u8>,
    max_size: Option<usize>,
    header_charset: String,
    state: MultipartState,
    buffer: Vec<u8>,
    dash_boundary: Vec<u8>,
    delimiter: Vec<u8>,
    offset: usize,
    events: Vec<MultipartPart>,
    need_data: bool,
    current_headers: HeaderMap,
    current_part: Option<FormData>,
    parts: Vec<FormData>,
}

impl View for MultipartParser {
    type V = ParserModel;

    closed spec fn view(&self) -> ParserModel {
        ParserModel {
            boundary: self.boundary@,
            max_size: self.max_size,
            state: self.state,
            buffer: self.buffer@,
            offset: self.offset as int,
            events: Seq::new(self.events@.len(), |i: int| self.events@[i]@),
            need_data: self.need_data,
            headers: self.current_headers@,
            current: match self.current_part {
                Some(p) => Some(p@),
                None => None,
            },
            parts: Seq::new(self.parts@.len(), |i: int| self.parts@[i]@),
        }
    }
}

impl MultipartParser {
    /// The representation carries the derived search patterns and stays
    /// inside its buffer.
    pub closed spec fn wf(&self) -> bool {
        &&& self.dash_boundary@ == dash_boundary_of(self.boundary@)
        &&& self.delimiter@ == delimiter_of(self.boundary@)
        &&& 1 <= self.boundary@.len() <= 70
        &&& self.offset <= self.buffer@.len()
        &&& self.current_headers.wf()
    }

    /// Builds a parser for one request body.  The boundary must be 1 to 70
    /// bytes, per RFC 2046; the header charset, when given, must be
    /// `utf-8`.
    pub fn new(boundary: Vec<u8>, max_size: Option<usize>, header_charset: Option<&str>) -> (r:
        Result<MultipartParser, MultipartError>)
        ensures
            match r {
                Ok(p) => 1 <= boundary@.len() <= 70 && charset_ok(header_charset) && p.wf()
                    && p@ == init_model(boundary@, max_size),
                Err(e) => (e == MultipartError::InvalidBoundaryLength && !(1 <= boundary@.len()
                    <= 70)) || (e == MultipartError::UnsupportedCharset && 1 <= boundary@.len()
                    <= 70 && !charset_ok(header_charset)),
            },
    {
        if boundary.len() < 1 || boundary.len() > 70 {
            return Err(MultipartError::InvalidBoundaryLength);
        }
        let cs_ok = match header_charset {
            Some(cs) => str_eq(cs, "utf-8"),
            None => true,
        };
        if !cs_ok {
            return Err(MultipartError::UnsupportedCharset);
        }
        let mut db: Vec<u8> = Vec::new();
        db.push(45);
        db.push(45);
        db.extend_from_slice(boundary.as_slice());
        let mut dl: Vec<u8> = Vec::new();
        dl.push(13);
        dl.push(10);
        dl.push(45);
        dl.push(45);
        dl.extend_from_slice(boundary.as_slice());
        proof {
            assert(db@ =~= dash_boundary_of(boundary@));
            assert(dl@ =~= delimiter_of(boundary@));
        }
        let p = MultipartParser {
            boundary,
            max_size,
            header_charset: String::from_str("utf-8"),
            state: MultipartState::Preamble,
            buffer: Vec::new(),
            dash_boundary: db,
            delimiter: dl,
            offset: 0,
            events: Vec::new(),
            need_data: false,
            current_headers: HeaderMap::new(),
            current_part: None,
            parts: Vec::new(),
        };
        proof {
            assert(p@ =~~= init_model(p.boundary@, max_size));
        }
        Ok(p)
    }

    /// The current decode state.
    pub fn state(&self) -> (r: MultipartState)
        ensures
            r == self@.state,
    {
        self.state
    }

    /// Removes and returns the oldest completed part, if any.
    pub fn next_part(&mut self) -> (r: Option<FormData>)
        requires
            old(self).wf(),
        ensures
            final(self).wf(),
            old(self)@.parts.len() == 0 ==> r is None && final(self)@ == old(self)@,
            old(self)@.parts.len() > 0 ==> (match r {
                Some(p) => p@ == old(self)@.parts[0],
                None => false,
            }) && final(self)@ == (ParserModel {
                parts: old(self)@.parts.drop_first(),
                ..old(self)@
            }),
    {
        if self.parts.is_empty() {
            None
        } else {
            let p = self.parts.remove(0);
            proof {
                assert(self@.parts =~= old(self)@.parts.drop_first());
                assert(final(self)@ =~~= (ParserModel {
                    parts: old(self)@.parts.drop_first(),
                    ..old(self)@
                }));
            }
            Some(p)
        }
    }

    /// Removes and returns the oldest queued parse event, if any.
    pub fn next_event(&mut self) -> (r: Option<MultipartPart>)
        requires
            old(self).wf(),
        ensures
            final(self).wf(),
            old(self)@.events.len() == 0 ==> r is None && final(self)@ == old(self)@,
            old(self)@.events.len() > 0 ==> (match r {
                Some(ev) => ev@ == old(self)@.events[0],
                None => false,
            }) && final(self)@ == (ParserModel {
                events: old(self)@.events.drop_first(),
                ..old(self)@
            }),
    {
        if self.events.is_empty() {
            None
        } else {
            let ev = self.events.remove(0);
            proof {
                assert(self@.events =~= old(self)@.events.drop_first());
                assert(final(self)@ =~~= (ParserModel {
                    events: old(self)@.events.drop_first(),
                    ..old(self)@
                }));
            }
            Some(ev)
        }
    }

    /// Feeds one chunk of body bytes and runs the transition loop until it
    /// needs more bytes, reaches the end state, or hits a wire-format
    /// error.  Feeding after the end state, or past the size ceiling,
    /// is refused with the buffer untouched.
    pub fn parse(&mut self, data: Vec<u8>) -> (r: Result<(), MultipartError>)
        requires
            old(self).wf(),
        ensures
            final(self).wf(),
            final(self)@ == spec_parse(old(self)@, data@).0,
            r == res_of(spec_parse(old(self)@, data@).1),
    {
        if self.state == MultipartState::End {
            return Err(MultipartError::TerminalState);
        }
        match self.max_size {
            Some(max) => {
                if self.buffer.len() > max || data.len() > max - self.buffer.len() {
                    return Err(MultipartError::SizeExceeded);
                }
            },
            None => {},
        }
        self.buffer.extend_from_slice(data.as_slice());
        self.need_data = false;
        let ghost m0 = self@;
        proof {
            assert(m0 =~~= (ParserModel {
                buffer: old(self)@.buffer + data@,
                need_data: false,
                ..old(self)@
            }));
            assert(spec_parse(old(self)@, data@) == drive(m0));
        }
        loop
            invariant_except_break
                !self.need_data,
                self@.state != MultipartState::End,
                drive(self@) == drive(m0),
            invariant
                self.wf(),
                spec_parse(old(self)@, data@) == drive(m0),
            ensures
                self.wf(),
                (self@, None::<MultipartError>) == drive(m0),
            decreases self.buffer@.len() - self@.offset,
        {
            let ghost m_pre = self@;
            let res = match self.state {
                MultipartState::Preamble => self.handle_preamble(),
                MultipartState::Header => self.handle_header(),
                MultipartState::Body => self.handle_body(),
                MultipartState::End => {
                    break ;
                },
            };
            proof {
                lemma_step_progress(m_pre);
            }
            match res {
                Err(e) => {
                    proof {
                        assert(drive(m_pre) == (self@, Some(e)));
                    }
                    return Err(e);
                },
                Ok(()) => {},
            }
            if self.need_data {
                proof {
                    assert(drive(m_pre) == (self@, None::<MultipartError>));
                }
                break ;
            }
            if self.state == MultipartState::End {
                proof {
                    assert(drive(m_pre) == (self@, None::<MultipartError>));
                }
                break ;
            }
            proof {
                assert(drive(self@) == drive(m0));
            }
        }
        Ok(())
    }

    /// The sliding-window advance of the preamble search.
    fn skip_data(&mut self)
        requires
            old(self).wf(),
        ensures
            final(self).wf(),
            final(self)@ == skip_preamble(old(self)@),
    {
        let dlen4 = self.dash_boundary.len() + 4;
        let blen = self.buffer.len();
        let cand = if blen >= dlen4 {
            blen - dlen4
        } else {
            0
        };
        if cand > self.offset {
            self.offset = cand;
        }
        self.need_data = true;
        proof {
            assert(self@ =~~= skip_preamble(old(self)@));
        }
    }

    /// The `Preamble` handler.
    fn handle_preamble(&mut self) -> (r: Result<(), MultipartError>)
        requires
            old(self).wf(),
            old(self)@.state == MultipartState::Preamble,
        ensures
            final(self).wf(),
            final(self)@ == preamble_step(old(self)@).0,
            r == res_of(preamble_step(old(self)@).1),
    {
        let ghost m0 = self@;
        let dlen = self.dash_boundary.len();
        let blen = self.buffer.len();
        let found = find_subsequence(&self.buffer, &self.dash_boundary, self.offset);
        proof {
            lemma_find_sub(self.buffer@, self.dash_boundary@, self.offset as int);
        }
        match found {
            Some(i) => {
                let avail = blen - (i + dlen);
                if avail >= 2 && self.buffer[i + dlen] == 13 && self.buffer[i + dlen + 1] == 10 {
                    self.offset = i + dlen + 2;
                    self.state = MultipartState::Header;
                    proof {
                        assert(self@ =~~= preamble_step(m0).0);
                    }
                    return Ok(());
                }
                if avail >= 2 && self.buffer[i + dlen] == 45 && self.buffer[i + dlen + 1] == 45 {
                    self.state = MultipartState::End;
                    proof {
                        assert(self@ =~~= preamble_step(m0).0);
                    }
                    return Ok(());
                }
                if avail >= 1 && self.buffer[i + dlen] == 10 {
                    return Err(MultipartError::InvalidLineBreak);
                }
                if avail >= 2 && self.buffer[i + dlen] == 13 {
                    self.offset = i + dlen + 1;
                    proof {
                        assert(self@ =~~= preamble_step(m0).0);
                    }
                    return Ok(());
                }
                self.skip_data();
                proof {
                    assert(self@ =~~= preamble_step(m0).0);
                }
                Ok(())
            },
            None => {
                self.skip_data();
                proof {
                    assert(self@ =~~= preamble_step(m0).0);
                }
                Ok(())
            },
        }
    }

    /// Decodes one raw header line into its lowercased name and trimmed
    /// value.
    fn build_header(line: &Vec<u8>) -> (r: Result<(String, String), MultipartError>)
        ensures
            match parse_header_line(line@) {
                Ok((n, v)) => match r {
                    Ok(p) => p.0@ == n && p.1@ == v,
                    Err(_) => false,
                },
                Err(e) => r == Err::<(String, String), MultipartError>(e),
            },
    {
        let n = line.len();
        let ci = match find_byte_in(line, 58, 0) {
            Some(c) => c,
            None => {
                return Err(MultipartError::MalformedHeader);
            },
        };
        proof {
            lemma_find_byte(line@, 58u8, 0);
        }
        let key_slice = vstd::slice::slice_subrange(line.as_slice(), 0, ci);
        let val_slice = vstd::slice::slice_subrange(line.as_slice(), ci + 1, n);
        let key_str = match utf8_to_str(key_slice) {
            Some(ks) => ks,
            None => {
                return Err(MultipartError::InvalidUtf8);
            },
        };
        let val_str = match utf8_to_str(val_slice) {
            Some(vs) => vs,
            None => {
                return Err(MultipartError::InvalidUtf8);
            },
        };
        let key_trimmed = trim(key_str);
        let name = to_lowercase_str(key_trimmed.as_str());
        let value = trim(val_str);
        Ok((name, value))
    }

    /// The `Header` handler.
    fn handle_header(&mut self) -> (r: Result<(), MultipartError>)
        requires
            old(self).wf(),
            old(self)@.state == MultipartState::Header,
        ensures
            final(self).wf(),
            final(self)@ == header_step(old(self)@).0,
            r == res_of(header_step(old(self)@).1),
    {
        let ghost m0 = self@;
        let blen = self.buffer.len();
        let mut crlf: Vec<u8> = Vec::new();
        crlf.push(13);
        crlf.push(10);
        proof {
            assert(crlf@ =~= seq![13u8, 10u8]);
        }
        let found = find_subsequence(&self.buffer, &crlf, self.offset);
        proof {
            lemma_find_sub(self.buffer@, crlf@, self.offset as int);
        }
        match found {
            Some(j) => {
                if j == self.offset {
                    self.offset = j + 2;
                    match FormData::from_headers(&self.current_headers) {
                        Err(e) => {
                            proof {
                                assert(self@ =~~= header_step(m0).0);
                            }
                            Err(e)
                        },
                        Ok(part) => {
                            self.current_headers = HeaderMap::new();
                            self.current_part = Some(part);
                            self.state = MultipartState::Body;
                            proof {
                                assert(self@ =~~= header_step(m0).0);
                            }
                            Ok(())
                        },
                    }
                } else {
                    let line = copy_range(&self.buffer, self.offset, j);
                    self.offset = j + 2;
                    match Self::build_header(&line) {
                        Err(e) => {
                            proof {
                                assert(self@ =~~= header_step(m0).0);
                            }
                            Err(e)
                        },
                        Ok((name, value)) => {
                            self.events.push(
                                MultipartPart::Header {
                                    name: name.clone(),
                                    value: value.clone(),
                                },
                            );
                            self.current_headers.insert(name, value);
                            proof {
                                assert(self@ =~~= header_step(m0).0);
                            }
                            Ok(())
                        },
                    }
                }
            },
            None => {
                match find_byte_in(&self.buffer, 10, self.offset) {
                    Some(_) => Err(MultipartError::InvalidLineBreak),
                    None => {
                        self.need_data = true;
                        proof {
                            assert(self@ =~~= header_step(m0).0);
                        }
                        Ok(())
                    },
                }
            },
        }
    }

    /// Appends body bytes to the checked-out part; a complete append moves
    /// the part to the completed queue.
    fn insert_data(&mut self, data: Vec<u8>, complete: bool) -> (r: Result<(), MultipartError>)
        requires
            old(self).wf(),
        ensures
            final(self).wf(),
            final(self)@ == insert_data_spec(old(self)@, data@, complete).0,
            r == res_of(insert_data_spec(old(self)@, data@, complete).1),
    {
        let ghost m0 = self@;
        match self.current_part.take() {
            None => Err(MultipartError::MissingCurrentPart),
            Some(mut part) => {
                part.append_data(data);
                if complete {
                    self.parts.push(part);
                } else {
                    self.current_part = Some(part);
                }
                proof {
                    assert(self@ =~~= insert_data_spec(m0, data@, complete).0);
                }
                Ok(())
            },
        }
    }

    /// The `Body` handler.
    fn handle_body(&mut self) -> (r: Result<(), MultipartError>)
        requires
            old(self).wf(),
            old(self)@.state == MultipartState::Body,
        ensures
            final(self).wf(),
            final(self)@ == body_step(old(self)@).0,
            r == res_of(body_step(old(self)@).1),
    {
        let ghost m0 = self@;
        let dllen = self.delimiter.len();
        let blen = self.buffer.len();
        let found = find_subsequence(&self.buffer, &self.delimiter, self.offset);
        proof {
            lemma_find_sub(self.buffer@, self.delimiter@, self.offset as int);
        }
        match found {
            Some(k) => {
                let avail = blen - (k + dllen);
                if avail >= 2 && self.buffer[k + dllen] == 13 && self.buffer[k + dllen + 1] == 10 {
                    let data = copy_range(&self.buffer, self.offset, k);
                    let data2 = copy_range(&self.buffer, self.offset, k);
                    self.events.push(MultipartPart::Body {
                        data: BytesWrapper(data),
                        complete: true,
                    });
                    match self.insert_data(data2, true) {
                        Err(e) => {
                            proof {
                                assert(self@ =~~= body_step(m0).0);
                            }
                            return Err(e);
                        },
                        Ok(()) => {},
                    }
                    self.offset = k + dllen + 2;
                    self.state = MultipartState::Header;
                    proof {
                        assert(self@ =~~= body_step(m0).0);
                    }
                    Ok(())
                } else if avail >= 2 && self.buffer[k + dllen] == 45 && self.buffer[k + dllen + 1]
                    == 45 {
                    let data = copy_range(&self.buffer, self.offset, k);
                    let data2 = copy_range(&self.buffer, self.offset, k);
                    match self.insert_data(data, true) {
                        Err(e) => {
                            proof {
                                assert(self@ =~~= body_step(m0).0);
                            }
                            return Err(e);
                        },
                        Ok(()) => {},
                    }
                    self.events.push(MultipartPart::Body {
                        data: BytesWrapper(data2),
                        complete: true,
                    });
                    self.offset = k + dllen + 2;
                    self.state = MultipartState::End;
                    proof {
                        assert(self@ =~~= body_step(m0).0);
                    }
                    Ok(())
                } else {
                    self.need_data = true;
                    proof {
                        assert(self@ =~~= body_step(m0).0);
                    }
                    Ok(())
                }
            },
            None => {
                if blen - self.offset > dllen + 3 {
                    let cut = blen - (dllen + 3);
                    let data = copy_range(&self.buffer, self.offset, cut);
                    let data2 = copy_range(&self.buffer, self.offset, cut);
                    match self.insert_data(data, false) {
                        Err(e) => {
                            proof {
                                assert(self@ =~~= body_step(m0).0);
                            }
                            return Err(e);
                        },
                        Ok(()) => {},
                    }
                    self.events.push(MultipartPart::Body {
                        data: BytesWrapper(data2),
                        complete: false,
                    });
                    self.offset = cut;
                }
                self.need_data = true;
                proof {
                    assert(self@ =~~= body_step(m0).0);
                }
                Ok(())
            },
        }
    }
}

} // verus!
