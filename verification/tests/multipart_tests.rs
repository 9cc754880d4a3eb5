use multipart_parser::FormData;
use multipart_parser::MultipartError;
use multipart_parser::MultipartParser;
use multipart_parser::MultipartPart;
use multipart_parser::MultipartState;

fn new_parser(boundary: &[u8]) -> MultipartParser {
    MultipartParser::new(boundary.to_vec(), None, Some("utf-8")).unwrap()
}

fn drain_parts(p: &mut MultipartParser) -> Vec<FormData> {
    let mut out = Vec::new();
    while let Some(part) = p.next_part() {
        out.push(part);
    }
    out
}

fn drain_events(p: &mut MultipartParser) -> Vec<MultipartPart> {
    let mut out = Vec::new();
    while let Some(ev) = p.next_event() {
        out.push(ev);
    }
    out
}

#[test]
fn boundary_length_bounds() {
    assert_eq!(
        MultipartParser::new(Vec::new(), None, Some("utf-8")).err(),
        Some(MultipartError::InvalidBoundaryLength)
    );
    assert_eq!(
        MultipartParser::new(vec![b'a'; 71], None, Some("utf-8")).err(),
        Some(MultipartError::InvalidBoundaryLength)
    );
    assert!(MultipartParser::new(vec![b'a'; 1], None, Some("utf-8")).is_ok());
    assert!(MultipartParser::new(vec![b'a'; 70], None, Some("utf-8")).is_ok());
}

#[test]
fn charset_constraint() {
    assert!(MultipartParser::new(b"X".to_vec(), None, Some("utf-8")).is_ok());
    assert!(MultipartParser::new(b"X".to_vec(), None, None).is_ok());
    assert_eq!(
        MultipartParser::new(b"X".to_vec(), None, Some("latin-1")).err(),
        Some(MultipartError::UnsupportedCharset)
    );
}

#[test]
fn single_field_stream() {
    let mut p = new_parser(b"X");
    let input = b"--X\r\nContent-Disposition: form-data; name=\"a\"\r\n\r\nhello\r\n--X--\r\n";
    p.parse(input.to_vec()).unwrap();
    assert_eq!(p.state(), MultipartState::End);
    let parts = drain_parts(&mut p);
    assert_eq!(parts.len(), 1);
    match &parts[0] {
        FormData::Field { name, content_type, charset, data } => {
            assert_eq!(name, "\"a\"");
            assert_eq!(content_type, "text/plain");
            assert_eq!(charset, "utf-8");
            assert_eq!(data.0, b"hello".to_vec());
        }
        other => panic!("expected a field, got {:?}", other),
    }
}

#[test]
fn single_file_stream() {
    let mut p = new_parser(b"X");
    let input = b"--X\r\nContent-Disposition: form-data; name=\"a\"; filename=\"f.txt\"\r\nContent-Type: text/plain\r\n\r\nfile body\r\n--X--\r\n";
    p.parse(input.to_vec()).unwrap();
    assert_eq!(p.state(), MultipartState::End);
    let parts = drain_parts(&mut p);
    assert_eq!(parts.len(), 1);
    match &parts[0] {
        FormData::File { name, filename, content_type, charset, data } => {
            assert_eq!(name, "\"a\"");
            assert_eq!(filename, "\"f.txt\"");
            assert_eq!(content_type, "text/plain");
            assert_eq!(charset, "utf-8");
            assert_eq!(data.0, b"file body".to_vec());
        }
        other => panic!("expected a file, got {:?}", other),
    }
}

#[test]
fn empty_stream_reaches_end() {
    let mut p = new_parser(b"X");
    p.parse(b"--X--".to_vec()).unwrap();
    assert_eq!(p.state(), MultipartState::End);
    assert!(p.next_part().is_none());
    assert!(p.next_event().is_none());
}

#[test]
fn empty_stream_with_preamble() {
    let mut p = new_parser(b"BND");
    p.parse(b"this preamble is discarded--BND--".to_vec()).unwrap();
    assert_eq!(p.state(), MultipartState::End);
    assert!(p.next_part().is_none());
    assert!(p.next_event().is_none());
}

#[test]
fn missing_content_disposition_fails_at_blank_line() {
    let mut p = new_parser(b"X");
    assert_eq!(
        p.parse(b"--X\r\nContent-Type: text/plain\r\n\r\n".to_vec()),
        Err(MultipartError::MissingContentDisposition)
    );
}

#[test]
fn feeding_after_end_fails_every_time() {
    let mut p = new_parser(b"X");
    p.parse(b"--X--".to_vec()).unwrap();
    assert_eq!(p.state(), MultipartState::End);
    assert_eq!(p.parse(b"more".to_vec()), Err(MultipartError::TerminalState));
    assert_eq!(p.parse(b"more".to_vec()), Err(MultipartError::TerminalState));
    assert_eq!(p.parse(Vec::new()), Err(MultipartError::TerminalState));
    assert_eq!(p.state(), MultipartState::End);
}

fn field_summary(p: &FormData) -> (String, String, String, Option<String>, Vec<u8>) {
    match p {
        FormData::Field { name, content_type, charset, data } => (
            name.clone(),
            content_type.clone(),
            charset.clone(),
            None,
            data.0.clone(),
        ),
        FormData::File { name, filename, content_type, charset, data } => (
            name.clone(),
            content_type.clone(),
            charset.clone(),
            Some(filename.clone()),
            data.0.clone(),
        ),
    }
}

fn run_chunked(input: &[u8], sizes: &[usize]) -> (Vec<(String, String, String, Option<String>, Vec<u8>)>, Vec<(String, String)>, Vec<Vec<u8>>) {
    let mut p = new_parser(b"X");
    let mut fed = 0;
    let mut i = 0;
    while fed < input.len() {
        let step = if sizes.is_empty() { input.len() } else { sizes[i % sizes.len()].max(1) };
        let hi = (fed + step).min(input.len());
        p.parse(input[fed..hi].to_vec()).unwrap();
        fed = hi;
        i += 1;
    }
    assert_eq!(p.state(), MultipartState::End);
    let parts: Vec<_> = drain_parts(&mut p).iter().map(field_summary).collect();
    let mut headers = Vec::new();
    let mut bodies = Vec::new();
    let mut current: Vec<u8> = Vec::new();
    for ev in drain_events(&mut p) {
        match ev {
            MultipartPart::Header { name, value } => headers.push((name, value)),
            MultipartPart::Body { data, complete } => {
                current.extend_from_slice(&data.0);
                if complete {
                    bodies.push(std::mem::take(&mut current));
                }
            }
        }
    }
    (parts, headers, bodies)
}

#[test]
fn chunking_does_not_change_the_outcome() {
    let input = b"--X\r\nContent-Disposition: form-data; name=\"a\"\r\n\r\nhello world, this body is long enough to be windowed\r\n--X\r\nContent-Disposition: form-data; name=\"b\"\r\n\r\nsecond\r\n--X--";
    let whole = run_chunked(input, &[]);
    let bytewise = run_chunked(input, &[1]);
    let threes = run_chunked(input, &[3]);
    let sevens = run_chunked(input, &[7, 2, 11]);
    assert_eq!(whole, bytewise);
    assert_eq!(whole, threes);
    assert_eq!(whole, sevens);
    assert_eq!(whole.0.len(), 2);
    assert_eq!(whole.0[0].4, b"hello world, this body is long enough to be windowed".to_vec());
    assert_eq!(whole.0[1].4, b"second".to_vec());
    assert_eq!(whole.1.len(), 2);
    assert_eq!(whole.2, vec![
        b"hello world, this body is long enough to be windowed".to_vec(),
        b"second".to_vec(),
    ]);
}

#[test]
fn split_inside_the_delimiter() {
    let input = b"--X\r\nContent-Disposition: form-data; name=\"a\"\r\n\r\nhello\r\n--X--";
    let whole = run_chunked(input, &[]);
    // Cut the stream exactly inside the closing delimiter "\r\n--X".
    let cut = input.len() - 4;
    let mut p = new_parser(b"X");
    p.parse(input[..cut].to_vec()).unwrap();
    assert_eq!(p.state(), MultipartState::Body);
    p.parse(input[cut..].to_vec()).unwrap();
    assert_eq!(p.state(), MultipartState::End);
    let parts: Vec<_> = drain_parts(&mut p).iter().map(field_summary).collect();
    assert_eq!(parts, whole.0);
}

#[test]
fn long_body_emits_partial_chunks() {
    let body = vec![b'z'; 4096];
    let mut input = b"--X\r\nContent-Disposition: form-data; name=\"a\"\r\n\r\n".to_vec();
    input.extend_from_slice(&body);
    input.extend_from_slice(b"\r\n--X--");
    let mut p = new_parser(b"X");
    for chunk in input.chunks(100) {
        p.parse(chunk.to_vec()).unwrap();
    }
    assert_eq!(p.state(), MultipartState::End);
    let parts = drain_parts(&mut p);
    assert_eq!(parts.len(), 1);
    match &parts[0] {
        FormData::Field { data, .. } => assert_eq!(data.0, body),
        other => panic!("expected a field, got {:?}", other),
    }
    let events = drain_events(&mut p);
    let mut partials = 0;
    let mut total = Vec::new();
    for ev in &events {
        if let MultipartPart::Body { data, complete } = ev {
            total.extend_from_slice(&data.0);
            if !complete {
                partials += 1;
            }
        }
    }
    assert!(partials > 1);
    assert_eq!(total, body);
}

#[test]
fn size_ceiling_is_enforced_before_buffering() {
    let mut p = MultipartParser::new(b"X".to_vec(), Some(10), Some("utf-8")).unwrap();
    assert_eq!(p.parse(vec![b'a'; 11]), Err(MultipartError::SizeExceeded));
    // The refused chunk was not buffered: ten more bytes still fit.
    p.parse(vec![b'a'; 10]).unwrap();
    assert_eq!(p.parse(vec![b'a'; 1]), Err(MultipartError::SizeExceeded));
}

#[test]
fn bare_lf_after_boundary_is_rejected() {
    let mut p = new_parser(b"X");
    assert_eq!(p.parse(b"--X\nrest".to_vec()), Err(MultipartError::InvalidLineBreak));
}

#[test]
fn bare_lf_in_header_is_rejected() {
    let mut p = new_parser(b"X");
    assert_eq!(
        p.parse(b"--X\r\nbroken line\n".to_vec()),
        Err(MultipartError::InvalidLineBreak)
    );
}

#[test]
fn header_without_colon_is_rejected() {
    let mut p = new_parser(b"X");
    assert_eq!(
        p.parse(b"--X\r\nno colon here\r\n".to_vec()),
        Err(MultipartError::MalformedHeader)
    );
}

#[test]
fn header_with_invalid_utf8_is_rejected() {
    let mut p = new_parser(b"X");
    let mut input = b"--X\r\n".to_vec();
    input.extend_from_slice(&[0xff, 0xfe]);
    input.extend_from_slice(b"key: value\r\n");
    assert_eq!(p.parse(input), Err(MultipartError::InvalidUtf8));
}

#[test]
fn disposition_token_must_be_form_data() {
    let mut p = new_parser(b"X");
    assert_eq!(
        p.parse(b"--X\r\nContent-Disposition: attachment; name=\"a\"\r\n\r\n".to_vec()),
        Err(MultipartError::InvalidContentDisposition)
    );
}

#[test]
fn missing_name_parameter_is_rejected() {
    let mut p = new_parser(b"X");
    assert_eq!(
        p.parse(b"--X\r\nContent-Disposition: form-data; x=y\r\n\r\n".to_vec()),
        Err(MultipartError::MissingNameParameter)
    );
}

#[test]
fn malformed_options_value_is_rejected_at_build() {
    let mut p = new_parser(b"X");
    assert_eq!(
        p.parse(b"--X\r\nContent-Type: text/plain; noequals\r\n\r\n".to_vec()),
        Err(MultipartError::MalformedHeaderValue)
    );
}

#[test]
fn header_events_are_lowercased_and_trimmed() {
    let mut p = new_parser(b"X");
    p.parse(b"--X\r\n  CoNtEnT-TyPe :  text/plain  \r\n".to_vec()).unwrap();
    let events = drain_events(&mut p);
    assert_eq!(events.len(), 1);
    match &events[0] {
        MultipartPart::Header { name, value } => {
            assert_eq!(name, "content-type");
            assert_eq!(value, "text/plain");
        }
        other => panic!("expected a header event, got {:?}", other),
    }
}

#[test]
fn duplicate_headers_keep_the_last_value() {
    let mut p = new_parser(b"X");
    let input = b"--X\r\nContent-Disposition: form-data; name=\"first\"\r\nContent-Disposition: form-data; name=\"second\"\r\n\r\nbody\r\n--X--";
    p.parse(input.to_vec()).unwrap();
    let parts = drain_parts(&mut p);
    assert_eq!(parts.len(), 1);
    match &parts[0] {
        FormData::Field { name, .. } => assert_eq!(name, "\"second\""),
        other => panic!("expected a field, got {:?}", other),
    }
}

#[test]
fn charset_parameter_is_taken_from_content_type() {
    let mut p = new_parser(b"X");
    let input = b"--X\r\nContent-Disposition: form-data; name=\"a\"\r\nContent-Type: text/html; charset=ascii\r\n\r\nbody\r\n--X--";
    p.parse(input.to_vec()).unwrap();
    let parts = drain_parts(&mut p);
    match &parts[0] {
        FormData::Field { content_type, charset, .. } => {
            assert_eq!(content_type, "text/html");
            assert_eq!(charset, "ascii");
        }
        other => panic!("expected a field, got {:?}", other),
    }
}

#[test]
fn queues_drain_in_fifo_order() {
    let mut p = new_parser(b"X");
    let input = b"--X\r\nA: 1\r\nB: 2\r\n\r\nbody\r\n--X--";
    assert_eq!(
        p.parse(input.to_vec()),
        Err(MultipartError::MissingContentDisposition)
    );
    // Events pushed before the failure stay visible, in arrival order.
    let events = drain_events(&mut p);
    assert_eq!(events.len(), 2);
    match (&events[0], &events[1]) {
        (
            MultipartPart::Header { name: n0, .. },
            MultipartPart::Header { name: n1, .. },
        ) => {
            assert_eq!(n0, "a");
            assert_eq!(n1, "b");
        }
        other => panic!("expected two header events, got {:?}", other),
    }
    assert!(p.next_event().is_none());
}

#[test]
fn append_data_concatenates() {
    let mut part = FormData::Field {
        name: String::from("n"),
        content_type: String::from("text/plain"),
        charset: String::from("utf-8"),
        data: multipart_parser::BytesWrapper(Vec::new()),
    };
    part.append_data(b"ab".to_vec());
    part.append_data(b"cd".to_vec());
    match &part {
        FormData::Field { data, .. } => assert_eq!(data.0, b"abcd".to_vec()),
        other => panic!("expected a field, got {:?}", other),
    }
}
