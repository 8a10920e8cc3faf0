//! Requests: the request line and headers parsed from text, the body
//! selected per the header map, and byte-exact serialization.

use vstd::prelude::*;
use vstd::utf8::{decode_utf8, encode_utf8, valid_utf8};

use crate::body::{chunked_parse, Body};
use crate::error::{HttpError, HttpInternalError};
use crate::header_item::{find_header_end, first_crlf2};
use crate::header_map::{add_lines, dec_value_of, lookup, map_wf, views_of, HeaderMap};
use crate::http_status::HttpStatus;
use crate::method::{method_chars, parse_method, Method};
use crate::text::{eq_ci, lines, lines_of, push_str_bytes, str_eq, tokenize, tokens};
use crate::version::{parse_version, version_chars, Version};

verus! {

/// The mathematical content of a request header.
pub struct ReqHeadModel {
    pub method: Method,
    pub uri: Seq<char>,
    pub version: Version,
    pub headers: Seq<(Seq<char>, Seq<char>)>,
}

/// A parsed request line plus headers.
#[derive(Debug)]
pub struct RequestHeader {
    pub method: Method,
    pub uri: String,
    pub version: Version,
    pub header_map: HeaderMap,
}

impl View for RequestHeader {
    type V = ReqHeadModel;

    open spec fn view(&self) -> ReqHeadModel {
        ReqHeadModel {
            method: self.method,
            uri: self.uri@,
            version: self.version,
            headers: self.header_map@,
        }
    }
}

/// What a request-header text parses to: the first line is
/// `METHOD SP TARGET SP "HTTP/" MAJOR "." MINOR`, tokenized on
/// whitespace runs; the remaining lines fill the header map.
pub open spec fn parse_request_text(t: Seq<char>) -> Option<ReqHeadModel> {
    let ls = lines_of(t);
    if ls.len() == 0 {
        None
    } else {
        let toks = tokens(ls[0]);
        if toks.len() < 3 {
            None
        } else {
            match parse_method(toks[0]) {
                None => None,
                Some(m) => {
                    let vt = toks[2];
                    if vt.len() >= 5 && vt.take(5) == "HTTP/"@ {
                        match parse_version(vt.skip(5)) {
                            None => None,
                            Some(v) => Some(
                                ReqHeadModel {
                                    method: m,
                                    uri: toks[1],
                                    version: v,
                                    headers: add_lines(
                                        Seq::<(Seq<char>, Seq<char>)>::empty(),
                                        ls.skip(1),
                                    ),
                                },
                            ),
                        }
                    } else {
                        None
                    }
                },
            }
        }
    }
}

impl RequestHeader {
    /// Parses a request line plus headers out of the header text.
    pub fn from_str(s: &str) -> (r: Result<RequestHeader, HttpError>)
        ensures
            match r {
                Ok(h) => parse_request_text(s@) == Some(h@) && map_wf(h@.headers),
                Err(_) => parse_request_text(s@) is None,
            },
    {
        let ls = lines(s);
        if ls.len() == 0 {
            return Err(HttpError::new("Failed to read request line", HttpStatus::BadRequest));
        }
        let toks = tokenize(ls[0].as_str());
        if toks.len() < 1 {
            return Err(HttpError::new("Failed to read request method", HttpStatus::BadRequest));
        }
        let method = match Method::from_str(toks[0].as_str()) {
            Ok(m) => m,
            Err(_) => {
                return Err(
                    HttpError::new("Failed to read request method", HttpStatus::BadRequest),
                );
            },
        };
        if toks.len() < 2 {
            return Err(HttpError::new("Failed to read request path", HttpStatus::BadRequest));
        }
        if toks.len() < 3 {
            return Err(HttpError::new("Failed to read request version", HttpStatus::BadRequest));
        }
        let vt: &str = toks[2].as_str();
        let vt_len = vt.unicode_len();
        if vt_len < 5 || !str_eq(vt.substring_char(0, 5), "HTTP/") {
            return Err(HttpError::new("Failed to read request version", HttpStatus::BadRequest));
        }
        let version = match Version::from_str(vt.substring_char(5, vt_len)) {
            Some(v) => v,
            None => {
                return Err(
                    HttpError::new("Failed to read request version", HttpStatus::BadRequest),
                );
            },
        };
        proof {
            assert(vt@.subrange(0, 5) == vt@.take(5));
            assert(vt@.subrange(5, vt@.len() as int) == vt@.skip(5));
        }
        let ls_len = ls.len();
        let header_map = HeaderMap::from_lines(&ls[1..ls_len]);
        let uri = toks[1].clone();
        proof {
            assert(views_of(ls@.skip(1)) =~= lines_of(s@).skip(1)) by {
                assert(forall|j: int|
                    0 <= j < ls@.len() - 1 ==> ls@.skip(1)[j] == #[trigger] ls@[j + 1]);
            }
        }
        Ok(RequestHeader { method, uri, version, header_map })
    }

    /// The header map of the request.
    pub fn header_map(&self) -> (r: &HeaderMap)
        ensures
            r@ == self@.headers,
    {
        &self.header_map
    }
}

impl Default for RequestHeader {
    /// `GET / HTTP/1.1` with no headers.
    fn default() -> (r: RequestHeader)
        ensures
            r.method == Method::GET,
            r.uri@ == "/"@,
            r.version == (Version { major: 1u16, minor: 1u8 }),
            r.header_map@ =~= Seq::<(Seq<char>, Seq<char>)>::empty(),
    {
        RequestHeader {
            method: Method::GET,
            uri: "/".to_owned(),
            version: Version::one_one(),
            header_map: HeaderMap::empty(),
        }
    }
}

/// A full request: header plus body.
#[derive(Debug)]
pub struct Request {
    pub header: RequestHeader,
    pub body: Body,
}

/// What a buffered request parses to: the header text runs up to the
/// first CR LF CR LF and must be UTF-8; the body is a fixed
/// `Content-Length` run, a chunked encoding, or empty, per the headers.
/// The result carries the parsed header, the body bytes, and how much
/// of the input the request spans.
pub open spec fn parse_request_bytes(b: Seq<u8>) -> Option<(ReqHeadModel, Seq<u8>, int)> {
    let e = first_crlf2(b);
    if e < 0 {
        None
    } else {
        let head_bytes = b.take(e + 4);
        if !valid_utf8(head_bytes) {
            None
        } else {
            match parse_request_text(decode_utf8(head_bytes)) {
                None => None,
                Some(h) => match dec_value_of(lookup(h.headers, "content-length"@)) {
                    Some(n) => if b.len() >= e + 4 + n {
                        Some((h, b.subrange(e + 4, e + 4 + n), e + 4 + n))
                    } else {
                        None
                    },
                    None => if lookup(h.headers, "transfer-encoding"@) matches Some(v) && eq_ci(
                        v,
                        "chunked"@,
                    ) {
                        match chunked_parse(b.skip(e + 4)) {
                            Some((body, used)) => Some((h, body, e + 4 + used)),
                            None => None,
                        }
                    } else {
                        Some((h, Seq::<u8>::empty(), e + 4))
                    },
                },
            }
        }
    }
}

impl Request {
    pub fn from_header_body(header: RequestHeader, body: Body) -> (r: Self)
        ensures
            r.header == header,
            r.body == body,
    {
        Request { header, body }
    }

    /// Parses one full request from the front of the input. `DataTimeout`
    /// means the header terminator never arrived; other failures carry a
    /// message. On success, also returns how many input bytes the
    /// request spans.
    pub fn from_bytes(bytes: &[u8]) -> (r: Result<(Request, usize), HttpInternalError>)
        ensures
            match r {
                Ok((req, used)) => parse_request_bytes(bytes@) == Some(
                    (req.header@, req.body.contents@, used as int),
                ) && map_wf(req.header@.headers),
                Err(e) => {
                    &&& parse_request_bytes(bytes@) is None
                    &&& (e matches HttpInternalError::DataTimeout <==> first_crlf2(bytes@) < 0)
                },
            },
    {
        let len = bytes.len();
        let e = match find_header_end(bytes) {
            Some(e) => e,
            None => {
                return Err(HttpInternalError::DataTimeout);
            },
        };
        proof {
            crate::header_item::lemma_first_crlf2(bytes@);
        }
        let head_bytes = crate::body::slice_range(bytes, 0, e + 4);
        proof {
            assert(head_bytes@ == bytes@.take(e + 4));
        }
        let head_text = match crate::text::utf8_to_string(head_bytes) {
            Some(s) => s,
            None => {
                return Err(HttpInternalError::new("Failed to decode the header as UTF-8."));
            },
        };
        let header = match RequestHeader::from_str(head_text.as_str()) {
            Ok(h) => h,
            Err(he) => {
                return Err(HttpInternalError::from_http(&he));
            },
        };
        let rest = crate::body::slice_range(bytes, e + 4, len);
        proof {
            assert(rest@ == bytes@.skip(e + 4));
            assert(rest@ == bytes@.subrange(e + 4, len as int));
        }
        match header.header_map.get_by_str_key_as("content-length") {
            Some(n) => {
                let body = match Body::from_fixed_length(rest, n) {
                    Ok(b) => b,
                    Err(e) => {
                        return Err(e);
                    },
                };
                proof {
                    assert(body.contents@ =~= bytes@.subrange(e + 4, e + 4 + n));
                }
                Ok((Request { header, body }, e + 4 + n))
            },
            None => {
                if header.header_map.contains_by_str_key_value("transfer-encoding", "chunked") {
                    match Body::from_chunked_encoding(rest) {
                        Ok((body, used)) => {
                            proof {
                                crate::body::lemma_chunked_parse_used(rest@);
                            }
                            Ok((Request { header, body }, e + 4 + used))
                        },
                        Err(err) => Err(err),
                    }
                } else {
                    Ok((Request { header, body: Body::empty() }, e + 4))
                }
            },
        }
    }

    /// Serializes the request: request line, headers, blank line, body.
    pub fn to_bytes(&self) -> (r: Vec<u8>)
        ensures
            r@ == serial_request(self.header@, self.body.contents@),
    {
        let mut out: Vec<u8> = Vec::new();
        push_str_bytes(&mut out, self.header.method.as_str());
        out.push(32);
        push_str_bytes(&mut out, self.header.uri.as_str());
        out.push(32);
        push_str_bytes(&mut out, "HTTP/");
        let v = self.header.version.render();
        push_str_bytes(&mut out, v.as_str());
        out.push(13);
        out.push(10);
        self.header.header_map.write_to(&mut out);
        out.push(13);
        out.push(10);
        let mut body = vstd::slice::slice_to_vec(self.body.contents.as_slice());
        out.append(&mut body);
        proof {
            assert(out@ =~= serial_request(self.header@, self.body.contents@));
        }
        out
    }
}

/// The serialized form of a request.
pub open spec fn serial_request(h: ReqHeadModel, body: Seq<u8>) -> Seq<u8> {
    encode_utf8(method_chars(h.method)) + seq![32u8] + encode_utf8(h.uri) + seq![32u8]
        + encode_utf8("HTTP/"@) + encode_utf8(version_chars(h.version)) + seq![13u8, 10u8]
        + crate::header_map::serial_headers(h.headers) + seq![13u8, 10u8] + body
}

// ---------------------------------------------------------------------------
// The round trip: a canonical request survives serialize-then-parse
// ---------------------------------------------------------------------------

/// The first line a request header serializes to.
pub open spec fn first_line_text(h: ReqHeadModel) -> Seq<char> {
    method_chars(h.method) + seq![' '] + h.uri + seq![' '] + "HTTP/"@ + version_chars(h.version)
}

/// The characters a request header serializes to, blank line included.
pub open spec fn serial_request_text(h: ReqHeadModel) -> Seq<char> {
    first_line_text(h) + seq!['\r', '\n'] + crate::header_map::serial_headers_text(h.headers)
        + seq!['\r', '\n']
}

/// A canonical request header: the target non-empty ASCII without
/// whitespace, a one-digit minor version, and a duplicate-free header
/// block of canonical ASCII entries.
pub open spec fn canonical_head(h: ReqHeadModel) -> bool {
    &&& h.uri.len() > 0
    &&& forall|j: int| 0 <= j < h.uri.len() ==> !crate::text::is_ws(#[trigger] h.uri[j])
    &&& vstd::utf8::is_ascii_chars(h.uri)
    &&& crate::version::version_wf(h.version)
    &&& map_wf(h.headers)
    &&& forall|i: int|
        0 <= i < h.headers.len() ==> crate::header_map::entry_wf(#[trigger] h.headers[i])
            && vstd::utf8::is_ascii_chars(h.headers[i].0) && vstd::utf8::is_ascii_chars(
            h.headers[i].1,
        )
}

/// A canonical request: a canonical header whose `Content-Length` entry
/// carries exactly the body's length.
pub open spec fn canonical_request(h: ReqHeadModel, body: Seq<u8>) -> bool {
    &&& canonical_head(h)
    &&& body.len() <= usize::MAX
    &&& lookup(h.headers, "content-length"@) == Some(
        crate::text::dec_chars(body.len() as int),
    )
}

/// The "HTTP/" literal: its five characters, ASCII and whitespace-free.
proof fn lemma_http_literal()
    ensures
        "HTTP/"@.len() == 5,
        "HTTP/"@ =~= seq!['H', 'T', 'T', 'P', '/'],
        vstd::utf8::is_ascii_chars("HTTP/"@),
        forall|j: int| 0 <= j < 5 ==> !crate::text::is_ws(#[trigger] "HTTP/"@[j]),
        crate::text::clean_line("HTTP/"@),
{
    reveal_strlit("HTTP/");
    let s = "HTTP/"@;
    assert(s =~= seq!['H', 'T', 'T', 'P', '/']);
    assert forall|j: int| 0 <= j < s.len() implies '\0' <= #[trigger] s[j] <= '\u{7f}'
        && !crate::text::is_ws(s[j]) && s[j] != '\r' && s[j] != '\n' by {
        if j == 0 {
        } else if j == 1 {
        } else if j == 2 {
        } else if j == 3 {
        } else {
            assert(s[j] == '/');
        }
    }
}

/// The version text: ASCII, whitespace-free, clean, and at least "x.y".
proof fn lemma_version_text_wf(v: Version)
    ensures
        vstd::utf8::is_ascii_chars(version_chars(v)),
        forall|j: int|
            0 <= j < version_chars(v).len() ==> !crate::text::is_ws(#[trigger] version_chars(v)[j]),
        crate::text::clean_line(version_chars(v)),
        version_chars(v).len() > 0,
{
    let mj = crate::text::dec_chars(v.major as int);
    let mn = crate::text::dec_chars(v.minor as int);
    crate::text::lemma_dec_chars_ascii(v.major as int);
    crate::text::lemma_dec_chars_ascii(v.minor as int);
    let s = version_chars(v);
    assert(s =~= mj + seq!['.'] + mn);
    assert forall|j: int| 0 <= j < s.len() implies '\0' <= #[trigger] s[j] <= '\u{7f}'
        && !crate::text::is_ws(s[j]) && s[j] != '\r' && s[j] != '\n' by {
        if j < mj.len() {
            assert(s[j] == mj[j]);
        } else if j == mj.len() {
            assert(s[j] == '.');
        } else {
            assert(s[j] == mn[j - mj.len() - 1]);
        }
    }
}

/// The serialized bytes are the UTF-8 encoding of the serialized text,
/// then the body verbatim.
#[verifier::rlimit(60)]
pub proof fn lemma_serial_request_encode(h: ReqHeadModel, body: Seq<u8>)
    ensures
        serial_request(h, body) == encode_utf8(serial_request_text(h)) + body,
{
    let sp = seq![' '];
    let crlf = seq!['\r', '\n'];
    let m = method_chars(h.method);
    let u = h.uri;
    let hv = "HTTP/"@;
    let vc = version_chars(h.version);
    let sht = crate::header_map::serial_headers_text(h.headers);
    let text = serial_request_text(h);
    let t6 = sht + crlf;
    let t5 = crlf + t6;
    let t4 = vc + t5;
    let t3 = hv + t4;
    let t2 = sp + t3;
    let t1 = u + t2;
    let t0 = sp + t1;
    assert(text =~= m + t0);
    crate::text::lemma_encode_utf8_concat(m, t0);
    crate::text::lemma_encode_utf8_concat(sp, t1);
    crate::text::lemma_encode_utf8_concat(u, t2);
    crate::text::lemma_encode_utf8_concat(sp, t3);
    crate::text::lemma_encode_utf8_concat(hv, t4);
    crate::text::lemma_encode_utf8_concat(vc, t5);
    crate::text::lemma_encode_utf8_concat(crlf, t6);
    crate::text::lemma_encode_utf8_concat(sht, crlf);
    assert(encode_utf8(sp) =~= seq![32u8]) by {
        crate::header_map::lemma_encode_one(' ', 32);
    }
    assert(encode_utf8(crlf) =~= seq![13u8, 10u8]) by {
        crate::header_map::lemma_encode_two('\r', '\n', 13, 10);
    }
    crate::header_map::lemma_serial_headers_encode(h.headers);
    assert(encode_utf8(text) == encode_utf8(m) + (seq![32u8] + (encode_utf8(u) + (seq![32u8] + (
    encode_utf8(hv) + (encode_utf8(vc) + (seq![13u8, 10u8] + (crate::header_map::serial_headers(
        h.headers,
    ) + seq![13u8, 10u8]))))))));
    assert(serial_request(h, body) =~= encode_utf8(text) + body);
}

/// The serialized text of a canonical header, split into its lines.
proof fn lemma_request_text_lines(h: ReqHeadModel)
    requires
        canonical_head(h),
    ensures
        crate::text::lines_of(serial_request_text(h)) == seq![first_line_text(h)]
            + crate::header_map::header_lines_text(h.headers) + seq![Seq::<char>::empty()],
        vstd::utf8::is_ascii_chars(serial_request_text(h)),
        first_line_text(h).len() > 0,
        crate::text::clean_line(first_line_text(h)),
        forall|i: int|
            0 <= i < h.headers.len() ==> (#[trigger] crate::header_map::header_lines_text(
                h.headers,
            )[i]).len() > 0 && crate::text::clean_line(
                crate::header_map::header_lines_text(h.headers)[i],
            ),
{
    let fl = first_line_text(h);
    let hls = crate::header_map::header_lines_text(h.headers);
    let all = seq![fl] + hls + seq![Seq::<char>::empty()];
    let text = serial_request_text(h);
    crate::method::lemma_method_chars_wf(h.method);
    lemma_http_literal();
    lemma_version_text_wf(h.version);
    // the first line is clean: none of its parts holds '\r' or '\n'
    let m = method_chars(h.method);
    let u = h.uri;
    let hv = "HTTP/"@;
    let vc = version_chars(h.version);
    assert(crate::text::clean_line(fl)) by {
        assert forall|j: int| 0 <= j < fl.len() implies #[trigger] fl[j] != '\r' && fl[j] != '\n' by {
            if j < m.len() {
                assert(fl[j] == m[j]);
                assert(!crate::text::is_ws(m[j]));
            } else if j == m.len() {
                assert(fl[j] == ' ');
            } else if j < m.len() + 1 + u.len() {
                assert(fl[j] == u[j - m.len() - 1]);
                assert(!crate::text::is_ws(u[j - m.len() - 1]));
            } else if j == m.len() + 1 + u.len() {
                assert(fl[j] == ' ');
            } else if j < m.len() + 1 + u.len() + 1 + hv.len() {
                assert(fl[j] == hv[j - m.len() - u.len() - 2]);
            } else {
                assert(fl[j] == vc[j - m.len() - u.len() - 2 - hv.len()]);
            }
        }
    }
    // every header line is clean
    assert forall|i: int| 0 <= i < all.len() implies crate::text::clean_line(#[trigger] all[i]) by {
        if i == 0 {
            assert(all[0] == fl);
        } else if i < all.len() - 1 {
            let e = h.headers[i - 1];
            assert(all[i] == hls[i - 1]);
            assert(hls[i - 1] == crate::header_map::header_line_text(e));
            let l = crate::header_map::header_line_text(e);
            assert forall|j: int| 0 <= j < l.len() implies #[trigger] l[j] != '\r' && l[j]
                != '\n' by {
                if j < e.0.len() {
                    assert(l[j] == e.0[j]);
                } else if j == e.0.len() {
                    assert(l[j] == ':');
                } else if j == e.0.len() + 1 {
                    assert(l[j] == ' ');
                } else {
                    assert(l[j] == e.1[j - e.0.len() - 2]);
                }
            }
        } else {
            assert(all[i].len() == 0);
        }
    }
    assert(fl.len() > 0) by {
        assert(m.len() > 0);
    }
    assert forall|i: int| 0 <= i < h.headers.len() implies (#[trigger] hls[i]).len() > 0
        && crate::text::clean_line(hls[i]) by {
        assert(all[i + 1] == hls[i]);
        assert(crate::text::clean_line(all[i + 1]));
        assert(hls[i] == crate::header_map::header_line_text(h.headers[i]));
        assert(h.headers[i].0.len() > 0);
    }
    // the text is the lines joined with CR LF
    crate::header_map::lemma_join_header_lines(h.headers);
    assert(crate::text::join_crlf(all) == all[0] + seq!['\r', '\n'] + crate::text::join_crlf(
        all.skip(1),
    ));
    assert(all[0] == fl);
    assert(all.skip(1) =~= hls + seq![Seq::<char>::empty()]);
    assert(text =~= crate::text::join_crlf(all)) by {
        assert(crate::text::join_crlf(all.skip(1)) == crate::header_map::serial_headers_text(
            h.headers,
        ) + seq!['\r', '\n']);
    }
    crate::text::lemma_lines_of_join(all);
    // and it is ASCII throughout
    assert(vstd::utf8::is_ascii_chars(text)) by {
        crate::text::lemma_ascii_concat2(m, seq![' ']);
        assert(vstd::utf8::is_ascii_chars(seq![' '])) by {
            let s = seq![' '];
            assert(forall|j: int| 0 <= j < s.len() ==> '\0' <= #[trigger] s[j] <= '\u{7f}');
        }
        assert(vstd::utf8::is_ascii_chars(seq!['\r', '\n'])) by {
            let s = seq!['\r', '\n'];
            assert(forall|j: int| 0 <= j < s.len() ==> '\0' <= #[trigger] s[j] <= '\u{7f}');
        }
        crate::text::lemma_ascii_concat2(m + seq![' '], u);
        crate::text::lemma_ascii_concat2(m + seq![' '] + u, seq![' ']);
        crate::text::lemma_ascii_concat2(m + seq![' '] + u + seq![' '], hv);
        crate::text::lemma_ascii_concat2(m + seq![' '] + u + seq![' '] + hv, vc);
        assert(vstd::utf8::is_ascii_chars(fl));
        crate::header_map::lemma_serial_headers_text_ascii(h.headers);
        crate::text::lemma_ascii_concat2(fl, seq!['\r', '\n']);
        crate::text::lemma_ascii_concat2(
            fl + seq!['\r', '\n'],
            crate::header_map::serial_headers_text(h.headers),
        );
        crate::text::lemma_ascii_concat2(
            fl + seq!['\r', '\n'] + crate::header_map::serial_headers_text(h.headers),
            seq!['\r', '\n'],
        );
    }
}

/// A canonical header's serialized text parses back to the header.
pub proof fn lemma_parse_text_round_trip(h: ReqHeadModel)
    requires
        canonical_head(h),
    ensures
        parse_request_text(serial_request_text(h)) == Some(h),
{
    let fl = first_line_text(h);
    let hls = crate::header_map::header_lines_text(h.headers);
    let text = serial_request_text(h);
    lemma_request_text_lines(h);
    let ls = crate::text::lines_of(text);
    assert(ls[0] == fl);
    assert(ls.len() >= 2);
    // the first line tokenizes into exactly method, target, version
    let m = method_chars(h.method);
    let u = h.uri;
    let vt = "HTTP/"@ + version_chars(h.version);
    crate::method::lemma_method_chars_wf(h.method);
    lemma_http_literal();
    lemma_version_text_wf(h.version);
    assert(vt.len() > 5);
    assert forall|j: int| 0 <= j < vt.len() implies !crate::text::is_ws(#[trigger] vt[j]) by {
        if j < 5 {
            assert(vt[j] == "HTTP/"@[j]);
        } else {
            assert(vt[j] == version_chars(h.version)[j - 5]);
        }
    }
    let rest2 = seq![' '] + vt;
    let rest1 = seq![' '] + (u + rest2);
    assert(fl =~= m + rest1);
    crate::text::lemma_tokens_step(m, rest1);
    crate::text::lemma_tokens_ws(' ', u + rest2);
    assert(rest1.skip(1) =~= u + rest2);
    crate::text::lemma_tokens_step(u, rest2);
    crate::text::lemma_tokens_ws(' ', vt);
    crate::text::lemma_tokens_step(vt, Seq::<char>::empty());
    assert(vt + Seq::<char>::empty() =~= vt);
    assert(tokens(Seq::<char>::empty()) =~= Seq::<Seq<char>>::empty());
    assert(tokens(fl) =~= seq![m, u, vt]) by {
        assert(tokens(fl) == seq![m] + tokens(rest1));
        assert(tokens(rest1) == tokens(u + rest2));
        assert(tokens(u + rest2) == seq![u] + tokens(rest2));
        assert(tokens(rest2) == tokens(vt));
        assert(tokens(vt) == seq![vt] + tokens(Seq::<char>::empty()));
    }
    crate::method::lemma_method_round_trip(h.method);
    assert(vt.take(5) =~= "HTTP/"@);
    assert(vt.skip(5) =~= version_chars(h.version));
    crate::version::lemma_version_round_trip(h.version);
    // the remaining lines rebuild exactly the header block
    assert(ls.skip(1) =~= hls + seq![Seq::<char>::empty()]);
    let empty_map = Seq::<(Seq<char>, Seq<char>)>::empty();
    crate::header_map::lemma_add_lines_append(empty_map, hls, seq![Seq::<char>::empty()]);
    crate::header_map::lemma_add_lines_build(empty_map, h.headers);
    assert(add_lines(empty_map, hls) == empty_map + h.headers);
    assert(empty_map + h.headers =~= h.headers);
    crate::header_map::lemma_add_lines_skip(h.headers, Seq::<char>::empty());
    assert(add_lines(empty_map, ls.skip(1)) == h.headers);
    assert(parse_request_text(text) == Some(
        ReqHeadModel { method: h.method, uri: h.uri, version: h.version, headers: h.headers },
    ));
    assert(ReqHeadModel {
        method: h.method,
        uri: h.uri,
        version: h.version,
        headers: h.headers,
    } == h);
}

/// The round trip: a canonical request's serialized bytes parse back to
/// exactly the same header and body, consuming the whole input. A body
/// framed by chunked transfer encoding, or a `Content-Length` that does
/// not match the body, falls outside this law: serialization writes the
/// body verbatim, so only length-framed requests survive unchanged.
pub proof fn lemma_request_round_trip(h: ReqHeadModel, body: Seq<u8>)
    requires
        canonical_request(h, body),
    ensures
        parse_request_bytes(serial_request(h, body)) == Some(
            (h, body, serial_request(h, body).len() as int),
        ),
{
    let text = serial_request_text(h);
    let full = serial_request(h, body);
    lemma_serial_request_encode(h, body);
    lemma_request_text_lines(h);
    let head = encode_utf8(text);
    vstd::utf8::is_ascii_chars_encode_utf8(text);
    assert(head.len() == text.len());
    // the one CR LF CR LF of the text sits at its very end
    let fl = first_line_text(h);
    let hls = crate::header_map::header_lines_text(h.headers);
    let all = seq![fl] + hls + seq![Seq::<char>::empty()];
    assert(text =~= crate::text::join_crlf(all)) by {
        crate::header_map::lemma_join_header_lines(h.headers);
        assert(crate::text::join_crlf(all) == all[0] + seq!['\r', '\n'] + crate::text::join_crlf(
            all.skip(1),
        ));
        assert(all[0] == fl);
        assert(all.skip(1) =~= hls + seq![Seq::<char>::empty()]);
    }
    assert forall|i: int| 0 <= i < all.len() - 1 implies (#[trigger] all[i]).len() > 0
        && crate::text::clean_line(all[i]) by {
        if i == 0 {
            assert(all[0] == fl);
        } else {
            assert(all[i] == hls[i - 1]);
        }
    }
    crate::text::lemma_join_terminator(all);
    assert(crate::text::crlf2_chars_at(text, text.len() - 4));
    // carry the terminator over to the bytes
    let e = text.len() - 4;
    assert(crate::header_item::crlf2_at(full, e)) by {
        lemma_ascii_crlf2(text, full, e);
    }
    assert forall|j: int| 0 <= j < e implies !crate::header_item::crlf2_at(full, j) by {
        if crate::header_item::crlf2_at(full, j) {
            lemma_ascii_crlf2_back(text, full, j);
            assert(crate::text::crlf2_chars_at(text, j));
        }
    }
    crate::header_item::lemma_first_crlf2_unique(full, e);
    assert(full.take(e + 4) =~= head);
    vstd::utf8::encode_utf8_valid_utf8(text);
    vstd::utf8::encode_utf8_decode_utf8(text);
    lemma_parse_text_round_trip(h);
    // the Content-Length entry selects a fixed-length body of exactly
    // the serialized body bytes
    crate::text::lemma_dec_chars_val(body.len() as int);
    let n = body.len() as int;
    assert(dec_value_of(lookup(h.headers, "content-length"@)) == Some(body.len() as usize));
    assert(full.len() == e + 4 + n);
    assert(full.subrange(e + 4, e + 4 + n) =~= body);
}

/// The round trip read the other way: any byte string in canonical
/// serialized form parses to a request whose re-serialization is that
/// byte string, unchanged and fully consumed.
pub proof fn lemma_serialize_parse_identity(b: Seq<u8>, h: ReqHeadModel, body: Seq<u8>)
    requires
        canonical_request(h, body),
        b == serial_request(h, body),
    ensures
        parse_request_bytes(b) matches Some((h2, body2, used)) && serial_request(h2, body2) == b
            && used == b.len(),
{
    lemma_request_round_trip(h, body);
}

/// An ASCII text's CR LF CR LF shows up unchanged in its encoding.
proof fn lemma_ascii_crlf2(text: Seq<char>, full: Seq<u8>, j: int)
    requires
        vstd::utf8::is_ascii_chars(text),
        forall|i: int| 0 <= i < text.len() ==> full[i] == encode_utf8(text)[i],
        full.len() >= text.len(),
        encode_utf8(text).len() == text.len(),
        forall|i: int|
            0 <= i < text.len() ==> #[trigger] encode_utf8(text)[i] == (text[i] as u8),
        crate::text::crlf2_chars_at(text, j),
    ensures
        crate::header_item::crlf2_at(full, j),
{
    assert(full[j] == ('\r' as u8));
    assert(full[j + 1] == ('\n' as u8));
    assert(full[j + 2] == ('\r' as u8));
    assert(full[j + 3] == ('\n' as u8));
}

/// And a CR LF CR LF among the encoded header bytes comes from one in
/// the text.
proof fn lemma_ascii_crlf2_back(text: Seq<char>, full: Seq<u8>, j: int)
    requires
        vstd::utf8::is_ascii_chars(text),
        forall|i: int| 0 <= i < text.len() ==> full[i] == encode_utf8(text)[i],
        full.len() >= text.len(),
        encode_utf8(text).len() == text.len(),
        forall|i: int|
            0 <= i < text.len() ==> #[trigger] encode_utf8(text)[i] == (text[i] as u8),
        crate::header_item::crlf2_at(full, j),
        0 <= j,
        j + 4 <= text.len(),
    ensures
        crate::text::crlf2_chars_at(text, j),
{
    assert forall|k: int| j <= k < j + 4 implies ('\0' <= #[trigger] text[k] <= '\u{7f}') by {}
    lemma_ascii_byte_char(text[j], 13, '\r');
    lemma_ascii_byte_char(text[j + 1], 10, '\n');
    lemma_ascii_byte_char(text[j + 2], 13, '\r');
    lemma_ascii_byte_char(text[j + 3], 10, '\n');
}

/// An ASCII character is determined by its byte.
proof fn lemma_ascii_byte_char(c: char, x: u8, w: char)
    requires
        '\0' <= c <= '\u{7f}',
        c as u8 == x,
        w as u32 == x as u32,
        (x as u32) < 128,
    ensures
        c == w,
{
    assert(c as u32 == x as u32) by {
        vstd::utf8::char_is_scalar(c);
        assert((c as u32) < 128);
    }
    vstd::utf8::char_u32_cast(c, c as u32);
    vstd::utf8::char_u32_cast(w, w as u32);
}

/// Builds a request value field by field.
#[derive(Debug)]
pub struct RequestBuilder {
    pub header: RequestHeader,
    pub body: Option<Body>,
}

impl RequestBuilder {
    pub fn new() -> (r: Self)
        ensures
            r.header.method == Method::GET,
            r.header.uri@ == "/"@,
            r.header.version == (Version { major: 1u16, minor: 1u8 }),
            r.header.header_map@ =~= Seq::<(Seq<char>, Seq<char>)>::empty(),
            r.body is None,
    {
        RequestBuilder { header: RequestHeader::default(), body: None }
    }

    pub fn method(self, method: Method) -> (r: Self)
        ensures
            r.header.method == method,
            r.header.uri == self.header.uri,
            r.header.version == self.header.version,
            r.header.header_map == self.header.header_map,
            r.body == self.body,
    {
        let mut header = self.header;
        header.method = method;
        RequestBuilder { header, body: self.body }
    }

    pub fn uri(self, uri: &str) -> (r: Self)
        ensures
            r.header.uri@ == uri@,
            r.header.method == self.header.method,
            r.header.version == self.header.version,
            r.header.header_map == self.header.header_map,
            r.body == self.body,
    {
        let mut header = self.header;
        header.uri = uri.to_owned();
        RequestBuilder { header, body: self.body }
    }

    pub fn version(self, version: Version) -> (r: Self)
        ensures
            r.header.version == version,
            r.header.method == self.header.method,
            r.header.uri == self.header.uri,
            r.header.header_map == self.header.header_map,
            r.body == self.body,
    {
        let mut header = self.header;
        header.version = version;
        RequestBuilder { header, body: self.body }
    }

    pub fn header_map(self, header_map: HeaderMap) -> (r: Self)
        ensures
            r.header.header_map == header_map,
            r.header.method == self.header.method,
            r.header.uri == self.header.uri,
            r.header.version == self.header.version,
            r.body == self.body,
    {
        let mut header = self.header;
        header.header_map = header_map;
        RequestBuilder { header, body: self.body }
    }

    pub fn insert_header_key_val(self, key: &str, val: &str) -> (r: Self)
        ensures
            r.header.header_map@ == crate::header_map::spec_insert(
                self.header.header_map@,
                key@,
                val@,
            ),
            r.header.method == self.header.method,
            r.header.uri == self.header.uri,
            r.header.version == self.header.version,
            r.body == self.body,
    {
        let mut header = self.header;
        header.header_map.insert_by_str_key_value(key, val);
        RequestBuilder { header, body: self.body }
    }

    /// Sets the body and records its length as `Content-Length`.
    pub fn body(self, body: &[u8]) -> (r: Self)
        ensures
            r.header.header_map@ == crate::header_map::spec_insert(
                self.header.header_map@,
                "Content-Length"@,
                crate::text::dec_chars(body@.len() as int),
            ),
            r.body matches Some(b) && b.contents@ == body@,
            r.header.method == self.header.method,
            r.header.uri == self.header.uri,
            r.header.version == self.header.version,
    {
        let digits = crate::text::render_dec(body.len());
        let mut header = self.header;
        header.header_map.insert_by_str_key_value("Content-Length", digits.as_str());
        RequestBuilder { header, body: Some(Body::new(body)) }
    }

    pub fn build(self) -> (r: Request)
        ensures
            r.header == self.header,
            match self.body {
                Some(b) => r.body == b,
                None => r.body.contents@.len() == 0,
            },
    {
        let body = match self.body {
            Some(b) => b,
            None => Body::empty(),
        };
        Request { header: self.header, body }
    }
}

/// A request as handed to a handler: the parsed request, the route key
/// it matched, and the peer's address rendered as text.
#[derive(Debug)]
pub struct ServerRequest {
    pub route_key: crate::route::RouteKey,
    pub request: Request,
    pub peer: String,
}

impl ServerRequest {
    pub fn new(route_key: crate::route::RouteKey, request: Request, peer: String) -> (r: Self)
        ensures
            r.route_key == route_key,
            r.request == request,
            r.peer == peer,
    {
        ServerRequest { route_key, request, peer }
    }
}

} // verus!
