//! The message body, and the two ways of reading one out of buffered
//! bytes: a fixed `Content-Length` run, or chunked transfer encoding.

use vstd::prelude::*;

use crate::error::HttpInternalError;

verus! {

/// A message body: the raw payload bytes.
#[derive(Debug)]
pub struct Body {
    pub contents: Vec<u8>,
}

impl Body {
    pub fn new(bytes: &[u8]) -> (r: Self)
        ensures
            r.contents@ == bytes@,
    {
        Body { contents: vstd::slice::slice_to_vec(bytes) }
    }

    /// The empty body.
    pub fn empty() -> (r: Self)
        ensures
            r.contents@ =~= Seq::<u8>::empty(),
    {
        Body { contents: Vec::new() }
    }

    /// Takes exactly `content_length` bytes from the front of the input;
    /// fails when fewer are available.
    pub fn from_fixed_length(bytes: &[u8], content_length: usize) -> (r: Result<
        Body,
        HttpInternalError,
    >)
        ensures
            match r {
                Ok(body) => bytes@.len() >= content_length && body.contents@ == bytes@.take(
                    content_length as int,
                ),
                Err(e) => bytes@.len() < content_length && e matches HttpInternalError::Other(_),
            },
    {
        if bytes.len() < content_length {
            Err(
                HttpInternalError::new(
                    "Failed to read all of the fixed content length: too few bytes received.",
                ),
            )
        } else {
            let taken = vstd::slice::slice_to_vec(slice_range(bytes, 0, content_length));
            Ok(Body { contents: taken })
        }
    }

    /// Decodes a chunked transfer encoding from the front of the input:
    /// hex-length lines and their data, ended by a zero-length chunk.
    /// Returns the assembled body and how many input bytes it spans.
    pub fn from_chunked_encoding(bytes: &[u8]) -> (r: Result<(Body, usize), HttpInternalError>)
        ensures
            match r {
                Ok((body, used)) => chunked_parse(bytes@) == Some((body.contents@, used as int)),
                Err(e) => chunked_parse(bytes@) is None && e matches HttpInternalError::Other(_),
            },
        decreases bytes@.len(),
    {
        let len = bytes.len();
        let i = match find_crlf(bytes) {
            Some(i) => i,
            None => {
                proof {
                    lemma_first_crlf_absent(bytes@);
                }
                return Err(HttpInternalError::new("Failed to find a chunk size line."));
            },
        };
        proof {
            lemma_first_crlf_unique(bytes@, i as int);
        }
        let line = slice_range(bytes, 0, i);
        let n = match parse_hex_bytes(line) {
            Some(n) => n,
            None => {
                return Err(HttpInternalError::new("Failed to parse a chunk size line."));
            },
        };
        if n == 0 {
            // the terminating chunk; two more bytes of framing follow
            if len - (i + 2) >= 2 {
                proof {
                    assert(chunked_parse(bytes@) == Some((Seq::<u8>::empty(), i + 4)));
                }
                Ok((Body::empty(), i + 4))
            } else {
                Err(HttpInternalError::new("Failed to read the terminating chunk."))
            }
        } else {
            let avail = len - (i + 2);
            if avail < 2 || avail - 2 < n {
                return Err(HttpInternalError::new("Failed to read all of a chunk's data."));
            }
            let data = vstd::slice::slice_to_vec(slice_range(bytes, i + 2, i + 2 + n));
            let rest = slice_range(bytes, i + 2 + n + 2, len);
            proof {
                assert(rest@ == bytes@.skip(i + 2 + n + 2));
            }
            match Body::from_chunked_encoding(rest) {
                Ok((tail, used)) => {
                    proof {
                        lemma_chunked_parse_used(rest@);
                    }
                    let mut contents = data;
                    let mut tail_contents = tail.contents;
                    contents.append(&mut tail_contents);
                    proof {
                        assert(contents@ == bytes@.subrange(i + 2, i + 2 + n) + chunked_parse(
                            rest@,
                        ).unwrap().0);
                    }
                    Ok((Body { contents }, i + 2 + n + 2 + used))
                },
                Err(e) => Err(e),
            }
        }
    }
}

/// The subslice `[from, to)` of a byte slice.
pub fn slice_range<'a>(s: &'a [u8], from: usize, to: usize) -> (r: &'a [u8])
    requires
        from <= to <= s@.len(),
    ensures
        r@ == s@.subrange(from as int, to as int),
{
    &s[from..to]
}

// ---------------------------------------------------------------------------
// CRLF search over bytes
// ---------------------------------------------------------------------------

/// Index of the first CR LF pair, or -1.
pub open spec fn first_crlf(b: Seq<u8>) -> int
    decreases b.len(),
{
    if b.len() < 2 {
        -1
    } else if b[0] == 13 && b[1] == 10 {
        0
    } else {
        let r = first_crlf(b.skip(1));
        if r < 0 {
            -1
        } else {
            r + 1
        }
    }
}

/// Whether a CR LF pair sits (entirely inside `b`) at index `j`.
pub open spec fn crlf_at(b: Seq<u8>, j: int) -> bool {
    0 <= j && j + 2 <= b.len() && b[j] == 13 && b[j + 1] == 10
}

pub proof fn lemma_first_crlf(b: Seq<u8>)
    ensures
        first_crlf(b) >= 0 ==> {
            &&& crlf_at(b, first_crlf(b))
            &&& forall|j: int| 0 <= j < first_crlf(b) ==> !crlf_at(b, j)
        },
        first_crlf(b) < 0 ==> (forall|j: int| !crlf_at(b, j)),
    decreases b.len(),
{
    if b.len() < 2 {
    } else if b[0] == 13 && b[1] == 10 {
    } else {
        lemma_first_crlf(b.skip(1));
        let t = b.skip(1);
        assert forall|j: int| 1 <= j && j + 2 <= b.len() implies #[trigger] crlf_at(b, j)
            == crlf_at(t, j - 1) by {
            assert(t[j - 1] == b[j]);
            assert(t[j] == b[j + 1]);
        }
        if first_crlf(t) >= 0 {
            assert(first_crlf(b) == first_crlf(t) + 1);
            assert(crlf_at(b, first_crlf(b)));
            assert forall|j: int| 0 <= j < first_crlf(b) implies !crlf_at(b, j) by {
                if j > 0 {
                    assert(crlf_at(b, j) == crlf_at(t, j - 1));
                }
            }
        } else {
            assert forall|j: int| !(#[trigger] crlf_at(b, j)) by {
                if j > 0 && j + 2 <= b.len() {
                    assert(crlf_at(b, j) == crlf_at(t, j - 1));
                }
            }
        }
    }
}

pub proof fn lemma_first_crlf_unique(b: Seq<u8>, i: int)
    requires
        crlf_at(b, i),
        forall|j: int| 0 <= j < i ==> !crlf_at(b, j),
    ensures
        first_crlf(b) == i,
{
    lemma_first_crlf(b);
    let f = first_crlf(b);
    if f < 0 {
        assert(!crlf_at(b, i));
    } else if f < i {
        assert(!crlf_at(b, f));
    } else if f > i {
        assert(!crlf_at(b, i));
    }
}

pub proof fn lemma_first_crlf_absent(b: Seq<u8>)
    requires
        forall|j: int| !crlf_at(b, j),
    ensures
        first_crlf(b) < 0,
{
    lemma_first_crlf(b);
    let f = first_crlf(b);
    if f >= 0 {
        assert(!crlf_at(b, f));
    }
}

/// Finds the first CR LF pair in a byte slice.
pub fn find_crlf(b: &[u8]) -> (r: Option<usize>)
    ensures
        match r {
            Some(i) => crlf_at(b@, i as int) && (forall|j: int| 0 <= j < i ==> !crlf_at(b@, j)),
            None => forall|j: int| !crlf_at(b@, j),
        },
{
    let len = b.len();
    if len < 2 {
        return None;
    }
    let mut i: usize = 0;
    while i + 1 < len
        invariant
            len == b@.len(),
            i + 1 <= len,
            forall|j: int| 0 <= j < i ==> !crlf_at(b@, j),
        decreases len - i,
    {
        if b[i] == 13 && b[i + 1] == 10 {
            return Some(i);
        }
        i += 1;
    }
    proof {
        assert forall|j: int| !(#[trigger] crlf_at(b@, j)) by {
            if 0 <= j && j + 2 <= b@.len() {
                assert(0 <= j < i);
                assert(!crlf_at(b@, j));
            }
        }
    }
    None
}

// ---------------------------------------------------------------------------
// Hexadecimal chunk sizes, over bytes
// ---------------------------------------------------------------------------

pub open spec fn is_hex_byte(x: u8) -> bool {
    (48 <= x && x <= 57) || (97 <= x && x <= 102) || (65 <= x && x <= 70)
}

pub open spec fn hex_byte_val(x: u8) -> int {
    if 48 <= x && x <= 57 {
        x - 48
    } else if 97 <= x && x <= 102 {
        x - 97 + 10
    } else {
        x - 65 + 10
    }
}

pub open spec fn all_hex_bytes(s: Seq<u8>) -> bool {
    forall|i: int| 0 <= i < s.len() ==> is_hex_byte(#[trigger] s[i])
}

/// The value of a hexadecimal numeral given in bytes.
pub open spec fn hex_bytes_val(s: Seq<u8>) -> int
    decreases s.len(),
{
    if s.len() == 0 {
        0
    } else {
        hex_bytes_val(s.drop_last()) * 16 + hex_byte_val(s.last())
    }
}

pub proof fn lemma_hex_bytes_val_bounds(s: Seq<u8>)
    requires
        all_hex_bytes(s),
    ensures
        hex_bytes_val(s) >= 0,
    decreases s.len(),
{
    if s.len() > 0 {
        assert(all_hex_bytes(s.drop_last())) by {
            assert(forall|i: int| 0 <= i < s.len() - 1 ==> s.drop_last()[i] == s[i]);
        }
        lemma_hex_bytes_val_bounds(s.drop_last());
    }
}

/// A hex numeral's value never shrinks when more digits follow.
proof fn lemma_hex_bytes_prefix(s: Seq<u8>, i: int)
    requires
        0 <= i <= s.len(),
        all_hex_bytes(s),
    ensures
        hex_bytes_val(s) >= hex_bytes_val(s.take(i)),
    decreases s.len() - i,
{
    if i < s.len() {
        lemma_hex_bytes_prefix(s, i + 1);
        assert(s.take(i + 1).drop_last() =~= s.take(i));
        assert(hex_bytes_val(s.take(i + 1)) == hex_bytes_val(s.take(i)) * 16 + hex_byte_val(s[i]));
        assert(all_hex_bytes(s.take(i))) by {
            assert(forall|j: int| 0 <= j < i ==> s.take(i)[j] == s[j]);
        }
        lemma_hex_bytes_val_bounds(s.take(i));
    } else {
        assert(s.take(i) =~= s);
    }
}

/// Parses a hexadecimal chunk size; `None` on an empty line, a non-digit,
/// or a value that does not fit in `usize`.
pub fn parse_hex_bytes(s: &[u8]) -> (r: Option<usize>)
    ensures
        match r {
            Some(v) => {
                &&& s@.len() > 0
                &&& all_hex_bytes(s@)
                &&& v as int == hex_bytes_val(s@)
            },
            None => s@.len() == 0 || !all_hex_bytes(s@) || hex_bytes_val(s@) > usize::MAX,
        },
{
    let len = s.len();
    if len == 0 {
        return None;
    }
    let mut acc: usize = 0;
    let mut i: usize = 0;
    while i < len
        invariant
            len == s@.len(),
            0 < len,
            i <= len,
            forall|j: int| 0 <= j < i ==> is_hex_byte(#[trigger] s@[j]),
            acc as int == hex_bytes_val(s@.take(i as int)),
        decreases len - i,
    {
        let x = s[i];
        let d: usize = if 48 <= x && x <= 57 {
            (x - 48) as usize
        } else if 97 <= x && x <= 102 {
            (x - 97 + 10) as usize
        } else if 65 <= x && x <= 70 {
            (x - 65 + 10) as usize
        } else {
            return None;
        };
        proof {
            assert(is_hex_byte(x) && d == hex_byte_val(x));
            assert(s@.take(i + 1).drop_last() =~= s@.take(i as int));
            assert(hex_bytes_val(s@.take(i + 1)) == acc * 16 + d);
        }
        if acc > (usize::MAX - d) / 16 {
            proof {
                assert(forall|j: int| 0 <= j < i + 1 ==> is_hex_byte(#[trigger] s@[j]));
                if all_hex_bytes(s@) {
                    lemma_hex_bytes_prefix(s@, i + 1);
                    assert(acc * 16 + d > usize::MAX) by (nonlinear_arith)
                        requires
                            acc > (usize::MAX - d) / 16,
                            0 <= d <= 15,
                    ;
                }
            }
            return None;
        }
        acc = acc * 16 + d;
        i += 1;
    }
    proof {
        assert(s@.take(len as int) =~= s@);
    }
    Some(acc)
}

// ---------------------------------------------------------------------------
// Chunked transfer decoding, as a function of the input bytes
// ---------------------------------------------------------------------------

/// Decodes a chunked body from the front of `b`: each chunk is a hex
/// size line, CRLF, that many data bytes, and two framing bytes; a
/// zero-size chunk ends the body. `None` when the input is malformed
/// or truncated; otherwise the payload and the bytes consumed.
pub open spec fn chunked_parse(b: Seq<u8>) -> Option<(Seq<u8>, int)>
    decreases b.len(),
{
    let i = first_crlf(b);
    if i < 0 || i + 2 > b.len() {
        None
    } else if !(b.take(i).len() > 0 && all_hex_bytes(b.take(i)) && hex_bytes_val(b.take(i))
        <= usize::MAX) {
        None
    } else {
        let n = hex_bytes_val(b.take(i));
        if n <= 0 {
            if b.len() >= i + 4 {
                Some((Seq::<u8>::empty(), i + 4))
            } else {
                None
            }
        } else {
            if b.len() >= i + 2 + n + 2 {
                match chunked_parse(b.skip(i + 2 + n + 2)) {
                    Some((body, used)) => Some((b.subrange(i + 2, i + 2 + n) + body, i + 2 + n + 2
                        + used)),
                    None => None,
                }
            } else {
                None
            }
        }
    }
}

/// A successful chunked parse consumes between 4 bytes and the whole input.
pub proof fn lemma_chunked_parse_used(b: Seq<u8>)
    ensures
        chunked_parse(b) matches Some((body, used)) ==> 0 <= used <= b.len(),
    decreases b.len(),
{
    let i = first_crlf(b);
    lemma_first_crlf(b);
    if i < 0 || i + 2 > b.len() {
    } else {
        let n = hex_bytes_val(b.take(i));
        if b.take(i).len() > 0 && all_hex_bytes(b.take(i)) && n <= usize::MAX {
            lemma_hex_bytes_val_bounds(b.take(i));
            if n > 0 && b.len() >= i + 2 + n + 2 {
                lemma_chunked_parse_used(b.skip(i + 2 + n + 2));
            }
        }
    }
}

} // verus!
