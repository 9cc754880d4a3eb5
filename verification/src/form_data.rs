//! The materialized record of one form part: a plain field or an uploaded
//! file, with its metadata and its accumulated body bytes.

use vstd::prelude::*;

verus! {

use vstd::string::StringExecFns;
use crate::errors::MultipartError;
use crate::headers::HeaderMap;
use crate::headers::parse_options_header;
use crate::headers::parse_options_spec;
use crate::strutil::str_eq;

/// A raw byte payload.
#[derive(Debug, Clone)]
pub struct BytesWrapper(pub Vec<u8>);

impl View for BytesWrapper {
    type V = Seq<u8>;

    open spec fn view(&self) -> Seq<u8> {
        self.0@
    }
}

/// The mathematical shape of a form part: its metadata as character
/// sequences, its body as a byte sequence.  A part is a file exactly when it
/// carries a filename.
#[verifier::ext_equal]
pub struct FormDataView {
    pub name: Seq<char>,
    pub filename: Option<Seq<char>>,
    pub content_type: Seq<char>,
    pub charset: Seq<char>,
    pub data: Seq<u8>,
}

/// One decoded part of a multipart body: a plain form field, or a file
/// upload with its filename.
#[derive(Debug, Clone)]
pub enum FormData {
    Field {
        /// The name of the form field, from the `name` parameter of the
        /// part's `Content-Disposition` header.
        name: String,
        /// The part's content type; `text/plain` when the part carries no
        /// `Content-Type` header.
        content_type: String,
        /// The charset for decoding the part, from the `charset` parameter
        /// of the `Content-Type` header; `utf-8` when absent.
        charset: String,
        /// The body bytes of the part.
        data: BytesWrapper,
    },
    File {
        /// The name of the form field.
        name: String,
        /// The filename, from the `filename` parameter of the part's
        /// `Content-Disposition` header.
        filename: String,
        /// The part's content type; `text/plain` when absent.
        content_type: String,
        /// The charset for decoding the part; `utf-8` when absent.
        charset: String,
        /// The body bytes of the part.
        data: BytesWrapper,
    },
}

impl View for FormData {
    type V = FormDataView;

    open spec fn view(&self) -> FormDataView {
        match self {
            FormData::Field { name, content_type, charset, data } => FormDataView {
                name: name@,
                filename: None,
                content_type: content_type@,
                charset: charset@,
                data: data@,
            },
            FormData::File { name, filename, content_type, charset, data } => FormDataView {
                name: name@,
                filename: Some(filename@),
                content_type: content_type@,
                charset: charset@,
                data: data@,
            },
        }
    }
}

/// What building a part from its accumulated header mapping yields, as
/// prescribed by RFC 7578: the `content-type` header (defaulting to
/// `text/plain` with no parameters) gives the content type and charset; the
/// `content-disposition` header is required, must carry the token
/// `form-data`, and must carry a `name` parameter; a `filename` parameter
/// makes the part a file.
pub open spec fn build_spec(h: Map<Seq<char>, Seq<char>>) -> Result<FormDataView, MultipartError> {
    let ct = if h.contains_key("content-type"@) {
        parse_options_spec(h["content-type"@])
    } else {
        Some(("text/plain"@, Map::<Seq<char>, Seq<char>>::empty()))
    };
    match ct {
        None => Err(MultipartError::MalformedHeaderValue),
        Some((ct_token, ct_params)) => {
            let charset = if ct_params.contains_key("charset"@) {
                ct_params["charset"@]
            } else {
                "utf-8"@
            };
            if !h.contains_key("content-disposition"@) {
                Err(MultipartError::MissingContentDisposition)
            } else {
                match parse_options_spec(h["content-disposition"@]) {
                    None => Err(MultipartError::MalformedHeaderValue),
                    Some((cd_token, cd_params)) => {
                        if cd_token != "form-data"@ {
                            Err(MultipartError::InvalidContentDisposition)
                        } else if !cd_params.contains_key("name"@) {
                            Err(MultipartError::MissingNameParameter)
                        } else {
                            Ok(
                                FormDataView {
                                    name: cd_params["name"@],
                                    filename: if cd_params.contains_key("filename"@) {
                                        Some(cd_params["filename"@])
                                    } else {
                                        None
                                    },
                                    content_type: ct_token,
                                    charset: charset,
                                    data: Seq::empty(),
                                },
                            )
                        }
                    },
                }
            }
        },
    }
}

impl FormData {
    /// Builds the initial, empty-bodied record of a part from its
    /// accumulated header mapping.
    pub fn from_headers(headers: &HeaderMap) -> (r: Result<FormData, MultipartError>)
        requires
            headers.wf(),
        ensures
            match build_spec(headers@) {
                Ok(v) => match r {
                    Ok(p) => p@ == v,
                    Err(_) => false,
                },
                Err(e) => r == Err::<FormData, MultipartError>(e),
            },
    {
        let (content_type, ct_params) = match headers.get("content-type") {
            Some(v) => match parse_options_header(v.clone()) {
                Ok(pr) => pr,
                Err(err) => {
                    return Err(err);
                },
            },
            None => (String::from_str("text/plain"), HeaderMap::new()),
        };
        let charset = match ct_params.get("charset") {
            Some(c) => c.clone(),
            None => String::from_str("utf-8"),
        };
        let cd_value = match headers.get("content-disposition") {
            Some(v) => v.clone(),
            None => {
                return Err(MultipartError::MissingContentDisposition);
            },
        };
        let (cd_token, cd_params) = match parse_options_header(cd_value) {
            Ok(pr) => pr,
            Err(err) => {
                return Err(err);
            },
        };
        if !str_eq(cd_token.as_str(), "form-data") {
            return Err(MultipartError::InvalidContentDisposition);
        }
        let name = match cd_params.get("name") {
            Some(n) => n.clone(),
            None => {
                return Err(MultipartError::MissingNameParameter);
            },
        };
        match cd_params.get("filename") {
            Some(f) => Ok(
                FormData::File {
                    name,
                    filename: f.clone(),
                    content_type,
                    charset,
                    data: BytesWrapper(Vec::new()),
                },
            ),
            None => Ok(
                FormData::Field { name, content_type, charset, data: BytesWrapper(Vec::new()) },
            ),
        }
    }

    /// Concatenates `data` onto the part's body buffer; no other field
    /// moves.
    pub fn append_data(&mut self, data: Vec<u8>)
        ensures
            final(self)@ == (FormDataView { data: old(self)@.data + data@, ..old(self)@ }),
    {
        match self {
            FormData::Field { data: d, .. } => d.0.extend_from_slice(data.as_slice()),
            FormData::File { data: d, .. } => d.0.extend_from_slice(data.as_slice()),
        }
    }
}

} // verus!
