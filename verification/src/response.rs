//! Responses: the status line and headers parsed from text, byte-exact
//! serialization, the builder that enforces the `Content-Length`
//! invariant, and the adaptor from handler return values to responses.

use vstd::prelude::*;
use vstd::utf8::encode_utf8;

use crate::body::Body;
use crate::error::HttpError;
use crate::header_map::{
    lookup, map_wf, serial_headers, spec_insert, spec_remove, views_of, HeaderMap,
};
use crate::http_status::HttpStatus;
use crate::text::{
    all_digits, dec_chars, dec_val, lines, lines_of, push_str_bytes, render_dec, run_len, skip_run,
    skip_ws, str_eq, trim, trim_spec, ws_len,
};
use crate::version::{parse_version, version_chars, Version};

verus! {

/// The mathematical content of a response header.
pub struct RespHeadModel {
    pub version: Version,
    pub status_code: u16,
    pub reason: Seq<char>,
    pub headers: Seq<(Seq<char>, Seq<char>)>,
}

/// A parsed status line plus headers.
#[derive(Debug)]
pub struct ResponseHeader {
    pub version: Version,
    pub status_code: u16,
    pub reason_phrase: String,
    pub header_map: HeaderMap,
}

impl View for ResponseHeader {
    type V = RespHeadModel;

    open spec fn view(&self) -> RespHeadModel {
        RespHeadModel {
            version: self.version,
            status_code: self.status_code,
            reason: self.reason_phrase@,
            headers: self.header_map@,
        }
    }
}

/// What a status line parses to: `"HTTP/" MAJOR "." MINOR SP CODE`, then
/// the reason phrase as the trimmed remainder of the line.
pub open spec fn parse_status_line(l: Seq<char>) -> Option<(Version, u16, Seq<char>)> {
    let a1 = ws_len(l);
    if !(0 <= a1 <= l.len()) {
        None
    } else {
        let s1 = l.skip(a1);
        let r1 = run_len(s1);
        if !(0 < r1 <= s1.len()) {
            None
        } else {
            let tok1 = s1.take(r1);
            let mid = s1.skip(r1);
            let a2 = ws_len(mid);
            if !(0 <= a2 <= mid.len()) {
                None
            } else {
                let s2 = mid.skip(a2);
                let r2 = run_len(s2);
                if !(0 < r2 <= s2.len()) {
                    None
                } else {
                    let tok2 = s2.take(r2);
                    let rest = s2.skip(r2);
                    if tok1.len() >= 5 && tok1.take(5) == "HTTP/"@ {
                        match parse_version(tok1.skip(5)) {
                            None => None,
                            Some(v) => {
                                if all_digits(tok2) && dec_val(tok2) <= u16::MAX {
                                    Some((v, dec_val(tok2) as u16, trim_spec(rest)))
                                } else {
                                    None
                                }
                            },
                        }
                    } else {
                        None
                    }
                }
            }
        }
    }
}

/// What a response-header text parses to.
pub open spec fn parse_response_text(t: Seq<char>) -> Option<RespHeadModel> {
    let ls = lines_of(t);
    if ls.len() == 0 {
        None
    } else {
        match parse_status_line(ls[0]) {
            None => None,
            Some((v, code, reason)) => Some(
                RespHeadModel {
                    version: v,
                    status_code: code,
                    reason,
                    headers: crate::header_map::add_lines(
                        Seq::<(Seq<char>, Seq<char>)>::empty(),
                        ls.skip(1),
                    ),
                },
            ),
        }
    }
}

impl ResponseHeader {
    /// Parses a status line plus headers out of the header text.
    pub fn from_str(s: &str) -> (r: Result<ResponseHeader, HttpError>)
        ensures
            match r {
                Ok(h) => parse_response_text(s@) == Some(h@) && map_wf(h@.headers),
                Err(_) => parse_response_text(s@) is None,
            },
    {
        let ls = lines(s);
        if ls.len() == 0 {
            return Err(
                HttpError::new("Failed to read response status line", HttpStatus::BadRequest),
            );
        }
        let l: &str = ls[0].as_str();
        let llen = l.unicode_len();
        let a1 = skip_ws(l, 0);
        let e1 = skip_run(l, a1);
        proof {
            assert(l@.skip(0) =~= l@);
            let s1 = l@.skip(a1 as int);
            assert(forall|j: int| 0 <= j < s1.len() ==> s1[j] == l@[j + a1]);
            assert(run_len(s1) == e1 - a1);
        }
        if e1 == a1 {
            return Err(
                HttpError::new("Failed to read response version", HttpStatus::BadRequest),
            );
        }
        let a2 = skip_ws(l, e1);
        let e2 = skip_run(l, a2);
        proof {
            let s1 = l@.skip(a1 as int);
            let mid = s1.skip((e1 - a1) as int);
            assert(mid =~= l@.skip(e1 as int));
            assert(ws_len(mid) == a2 - e1);
            let s2 = mid.skip((a2 - e1) as int);
            assert(s2 =~= l@.skip(a2 as int));
            assert(run_len(s2) == e2 - a2);
        }
        if e2 == a2 {
            return Err(
                HttpError::new("Failed to read response status code", HttpStatus::BadRequest),
            );
        }
        let tok1: &str = l.substring_char(a1, e1);
        proof {
            assert(tok1@ =~= l@.skip(a1 as int).take((e1 - a1) as int));
        }
        let t1len = e1 - a1;
        if t1len < 5 || !str_eq(tok1.substring_char(0, 5), "HTTP/") {
            return Err(
                HttpError::new("Failed to read response version", HttpStatus::BadRequest),
            );
        }
        let version = match Version::from_str(tok1.substring_char(5, t1len)) {
            Some(v) => v,
            None => {
                return Err(
                    HttpError::new("Failed to read response version", HttpStatus::BadRequest),
                );
            },
        };
        proof {
            assert(tok1@.subrange(0, 5) == tok1@.take(5));
            assert(tok1@.subrange(5, tok1@.len() as int) == tok1@.skip(5));
        }
        let tok2: &str = l.substring_char(a2, e2);
        proof {
            assert(tok2@ =~= l@.skip(a2 as int).take((e2 - a2) as int));
        }
        let code = match crate::text::parse_dec_usize(tok2) {
            Some(c) => c,
            None => {
                return Err(
                    HttpError::new("Failed to read response status code", HttpStatus::BadRequest),
                );
            },
        };
        if code > u16::MAX as usize {
            return Err(
                HttpError::new("Failed to read response status code", HttpStatus::BadRequest),
            );
        }
        let reason = trim(l.substring_char(e2, llen));
        proof {
            assert(l@.subrange(e2 as int, l@.len() as int) =~= l@.skip(a2 as int).skip(
                (e2 - a2) as int,
            ));
        }
        let ls_len = ls.len();
        let header_map = HeaderMap::from_lines(&ls[1..ls_len]);
        proof {
            assert(views_of(ls@.skip(1)) =~= lines_of(s@).skip(1)) by {
                assert(forall|j: int|
                    0 <= j < ls@.len() - 1 ==> ls@.skip(1)[j] == #[trigger] ls@[j + 1]);
            }
        }
        Ok(
            ResponseHeader {
                version,
                status_code: code as u16,
                reason_phrase: reason.to_owned(),
                header_map,
            },
        )
    }

    /// The header map of the response.
    pub fn header_map(&self) -> (r: &HeaderMap)
        ensures
            r@ == self@.headers,
    {
        &self.header_map
    }
}

impl Default for ResponseHeader {
    /// `HTTP/1.1 200 OK` with no headers.
    fn default() -> (r: ResponseHeader)
        ensures
            r.version == (Version { major: 1u16, minor: 1u8 }),
            r.status_code == 200u16,
            r.reason_phrase@ == "OK"@,
            r.header_map@ =~= Seq::<(Seq<char>, Seq<char>)>::empty(),
    {
        ResponseHeader {
            version: Version::one_one(),
            status_code: 200,
            reason_phrase: "OK".to_owned(),
            header_map: HeaderMap::empty(),
        }
    }
}

/// A full response: header plus body. The body is always present; it is
/// empty for 204 No Content.
#[derive(Debug)]
pub struct Response {
    pub header: ResponseHeader,
    pub body: Body,
}

/// The serialized form of a response: status line, headers, blank line,
/// body bytes verbatim.
pub open spec fn serial_response(h: RespHeadModel, body: Seq<u8>) -> Seq<u8> {
    encode_utf8("HTTP/"@) + encode_utf8(version_chars(h.version)) + seq![32u8] + encode_utf8(
        dec_chars(h.status_code as int),
    ) + seq![32u8] + encode_utf8(h.reason) + seq![13u8, 10u8] + serial_headers(h.headers) + seq![
        13u8,
        10u8,
    ] + body
}

impl Response {
    pub fn from_header_body(header: ResponseHeader, body: Body) -> (r: Self)
        ensures
            r.header == header,
            r.body == body,
    {
        Response { header, body }
    }

    /// Serializes the response: status line, headers, blank line, body.
    pub fn to_bytes(&self) -> (r: Vec<u8>)
        ensures
            r@ == serial_response(self.header@, self.body.contents@),
    {
        let mut out: Vec<u8> = Vec::new();
        push_str_bytes(&mut out, "HTTP/");
        let v = self.header.version.render();
        push_str_bytes(&mut out, v.as_str());
        out.push(32);
        let code = render_dec(self.header.status_code as usize);
        push_str_bytes(&mut out, code.as_str());
        out.push(32);
        push_str_bytes(&mut out, self.header.reason_phrase.as_str());
        out.push(13);
        out.push(10);
        self.header.header_map.write_to(&mut out);
        out.push(13);
        out.push(10);
        let mut body = vstd::slice::slice_to_vec(self.body.contents.as_slice());
        out.append(&mut body);
        proof {
            assert(out@ =~= serial_response(self.header@, self.body.contents@));
        }
        out
    }
}

/// Builds a response value field by field. `build` enforces the framing
/// invariant: a `Content-Length` header equal to the body length, except
/// for 204 No Content, which gets an empty body and no `Content-Length`.
#[derive(Debug)]
pub struct ResponseBuilder {
    pub header: ResponseHeader,
    pub body: Option<Body>,
}

impl ResponseBuilder {
    pub fn new() -> (r: Self)
        ensures
            r.header.version == (Version { major: 1u16, minor: 1u8 }),
            r.header.status_code == 200u16,
            r.header.reason_phrase@ == "OK"@,
            r.header.header_map@ =~= Seq::<(Seq<char>, Seq<char>)>::empty(),
            r.body is None,
    {
        ResponseBuilder { header: ResponseHeader::default(), body: None }
    }

    pub fn version(self, version: Version) -> (r: Self)
        ensures
            r.header.version == version,
            r.header.status_code == self.header.status_code,
            r.header.reason_phrase == self.header.reason_phrase,
            r.header.header_map == self.header.header_map,
            r.body == self.body,
    {
        let mut header = self.header;
        header.version = version;
        ResponseBuilder { header, body: self.body }
    }

    pub fn status_code(self, code: u16) -> (r: Self)
        ensures
            r.header.status_code == code,
            r.header.version == self.header.version,
            r.header.reason_phrase == self.header.reason_phrase,
            r.header.header_map == self.header.header_map,
            r.body == self.body,
    {
        let mut header = self.header;
        header.status_code = code;
        ResponseBuilder { header, body: self.body }
    }

    pub fn reason_phrase(self, phrase: &str) -> (r: Self)
        ensures
            r.header.reason_phrase@ == phrase@,
            r.header.version == self.header.version,
            r.header.status_code == self.header.status_code,
            r.header.header_map == self.header.header_map,
            r.body == self.body,
    {
        let mut header = self.header;
        header.reason_phrase = phrase.to_owned();
        ResponseBuilder { header, body: self.body }
    }

    /// Sets the status code and canonical reason phrase together.
    pub fn status(self, status: HttpStatus) -> (r: Self)
        ensures
            r.header.status_code as int == crate::http_status::status_code_spec(status),
            r.header.reason_phrase@ == crate::http_status::status_reason_spec(status),
            r.header.version == self.header.version,
            r.header.header_map == self.header.header_map,
            r.body == self.body,
    {
        let code = status.code();
        let phrase = status.reason();
        self.status_code(code).reason_phrase(phrase)
    }

    pub fn header_map(self, header_map: HeaderMap) -> (r: Self)
        ensures
            r.header.header_map == header_map,
            r.header.version == self.header.version,
            r.header.status_code == self.header.status_code,
            r.header.reason_phrase == self.header.reason_phrase,
            r.body == self.body,
    {
        let mut header = self.header;
        header.header_map = header_map;
        ResponseBuilder { header, body: self.body }
    }

    pub fn insert_header_key_val(self, key: &str, val: &str) -> (r: Self)
        ensures
            r.header.header_map@ == spec_insert(self.header.header_map@, key@, val@),
            r.header.version == self.header.version,
            r.header.status_code == self.header.status_code,
            r.header.reason_phrase == self.header.reason_phrase,
            r.body == self.body,
    {
        let mut header = self.header;
        header.header_map.insert_by_str_key_value(key, val);
        ResponseBuilder { header, body: self.body }
    }

    /// Sets the body and records its length as `Content-Length`.
    pub fn body(self, body: &[u8]) -> (r: Self)
        ensures
            r.header.header_map@ == spec_insert(
                self.header.header_map@,
                "Content-Length"@,
                dec_chars(body@.len() as int),
            ),
            r.body matches Some(b) && b.contents@ == body@,
            r.header.version == self.header.version,
            r.header.status_code == self.header.status_code,
            r.header.reason_phrase == self.header.reason_phrase,
    {
        let digits = render_dec(body.len());
        let mut header = self.header;
        header.header_map.insert_by_str_key_value("Content-Length", digits.as_str());
        ResponseBuilder { header, body: Some(Body::new(body)) }
    }

    /// Finishes the response. Any status but 204 gets a `Content-Length`
    /// header equal to the body length (the body empty when unset); 204
    /// gets an empty body and no `Content-Length` header.
    pub fn build(self) -> (r: Response)
        ensures
            r.header.version == self.header.version,
            r.header.status_code == self.header.status_code,
            r.header.reason_phrase == self.header.reason_phrase,
            self.header.status_code != 204 ==> {
                &&& r.body.contents@ == (match self.body {
                    Some(b) => b.contents@,
                    None => Seq::<u8>::empty(),
                })
                &&& r.header.header_map@ == spec_insert(
                    self.header.header_map@,
                    "Content-Length"@,
                    dec_chars(r.body.contents@.len() as int),
                )
            },
            self.header.status_code == 204 ==> {
                &&& r.body.contents@.len() == 0
                &&& r.header.header_map@ == spec_remove(
                    self.header.header_map@,
                    "Content-Length"@,
                )
            },
    {
        let mut header = self.header;
        if header.status_code == 204 {
            header.header_map.remove_by_str_key("Content-Length");
            Response { header, body: Body::empty() }
        } else {
            let body = match self.body {
                Some(b) => b,
                None => Body::empty(),
            };
            let digits = render_dec(body.contents.len());
            header.header_map.insert_by_str_key_value("Content-Length", digits.as_str());
            Response { header, body }
        }
    }
}

impl Default for ResponseBuilder {
    fn default() -> (r: ResponseBuilder)
        ensures
            r.header.status_code == 200u16,
            r.body is None,
    {
        ResponseBuilder::new()
    }
}

/// What a handler may hand back; the dispatch layer turns each shape
/// into a full response.
pub enum HandlerResponse {
    Full(Response),
    Bytes(Vec<u8>),
    Text(String),
    Empty,
    Fallible(Result<Vec<u8>, HttpError>),
}

impl HandlerResponse {
    /// Normalizes a handler's return value: bytes and text become a 200
    /// with that body; unit becomes an empty 200; a failed fallible value
    /// becomes a 400 whose body is the error's description.
    pub fn into_response(self) -> (r: Response)
        ensures
            match self {
                HandlerResponse::Full(resp) => r == resp,
                HandlerResponse::Bytes(b) => r.header.status_code == 200u16
                    && r.body.contents@ == b@ && built_with_length(r),
                HandlerResponse::Text(s) => r.header.status_code == 200u16 && r.body.contents@
                    == encode_utf8(s@) && built_with_length(r),
                HandlerResponse::Empty => r.header.status_code == 200u16 && r.body.contents@.len()
                    == 0 && built_with_length(r),
                HandlerResponse::Fallible(res) => match res {
                    Ok(b) => r.header.status_code == 200u16 && r.body.contents@ == b@
                        && built_with_length(r),
                    Err(e) => r.header.status_code == 400u16 && r.body.contents@ == encode_utf8(
                        e@.0,
                    ) && built_with_length(r),
                },
            },
    {
        match self {
            HandlerResponse::Full(resp) => resp,
            HandlerResponse::Bytes(b) => ResponseBuilder::new().body(b.as_slice()).build(),
            HandlerResponse::Text(s) => ResponseBuilder::new().body(s.as_str().as_bytes()).build(),
            HandlerResponse::Empty => ResponseBuilder::new().build(),
            HandlerResponse::Fallible(res) => match res {
                Ok(b) => ResponseBuilder::new().body(b.as_slice()).build(),
                Err(e) => {
                    let msg: &str = e.message();
                    ResponseBuilder::new().status(
                        HttpStatus::BadRequest,
                    ).body(msg.as_bytes()).build()
                },
            },
        }
    }
}

/// Any response built with a status other than 204 from a header block
/// without duplicate names carries exactly one `Content-Length` entry,
/// and its value is the decimal length of the body. The serializer
/// writes one line per entry, so the serialized form holds exactly one
/// such line.
pub proof fn lemma_response_content_length(m: Seq<(Seq<char>, Seq<char>)>, n: int)
    requires
        map_wf(m),
        n >= 0,
    ensures
        ({
            let m2 = spec_insert(m, "Content-Length"@, dec_chars(n));
            &&& crate::header_map::count_matching(m2, "content-length"@) == 1
            &&& lookup(m2, "content-length"@) == Some(dec_chars(n))
        }),
{
    assert(crate::text::eq_ci("Content-Length"@, "content-length"@)) by {
        reveal_strlit("Content-Length");
        reveal_strlit("content-length");
        let a = "Content-Length"@;
        let b = "content-length"@;
        assert(a.len() == 14 && b.len() == 14);
        assert forall|i: int| 0 <= i < a.len() implies crate::text::fold_scalar(
            #[trigger] a[i] as u32,
        ) == crate::text::fold_scalar(b[i] as u32) by {
            if i == 0 {
                assert(a[0] == 'C' && b[0] == 'c');
            } else if i == 8 {
                assert(a[8] == 'L' && b[8] == 'l');
            } else {
                assert(a[i] == b[i]);
            }
        }
    }
    crate::header_map::lemma_insert_count(m, "Content-Length"@, dec_chars(n), "content-length"@);
    crate::header_map::lemma_lookup_insert(m, "Content-Length"@, dec_chars(n), "content-length"@);
}

/// Whether a response's headers are exactly one `Content-Length` entry
/// carrying its body's length.
pub open spec fn built_with_length(r: Response) -> bool {
    r.header.header_map@ == spec_insert(
        Seq::<(Seq<char>, Seq<char>)>::empty(),
        "Content-Length"@,
        dec_chars(r.body.contents@.len() as int),
    )
}

} // verus!
