//! Framing of a header block inside a byte stream: everything up to and
//! including the first CR LF CR LF is the header.

use vstd::prelude::*;

verus! {

/// Whether the four-byte CR LF CR LF terminator sits at index `j`.
pub open spec fn crlf2_at(b: Seq<u8>, j: int) -> bool {
    &&& 0 <= j
    &&& j + 4 <= b.len()
    &&& b[j] == 13
    &&& b[j + 1] == 10
    &&& b[j + 2] == 13
    &&& b[j + 3] == 10
}

/// Index of the first CR LF CR LF, or -1.
pub open spec fn first_crlf2(b: Seq<u8>) -> int
    decreases b.len(),
{
    if b.len() < 4 {
        -1
    } else if b[0] == 13 && b[1] == 10 && b[2] == 13 && b[3] == 10 {
        0
    } else {
        let r = first_crlf2(b.skip(1));
        if r < 0 {
            -1
        } else {
            r + 1
        }
    }
}

pub proof fn lemma_first_crlf2(b: Seq<u8>)
    ensures
        first_crlf2(b) >= 0 ==> {
            &&& crlf2_at(b, first_crlf2(b))
            &&& forall|j: int| 0 <= j < first_crlf2(b) ==> !crlf2_at(b, j)
        },
        first_crlf2(b) < 0 ==> (forall|j: int| !crlf2_at(b, j)),
    decreases b.len(),
{
    if b.len() < 4 {
        assert forall|j: int| !(#[trigger] crlf2_at(b, j)) by {}
    } else if b[0] == 13 && b[1] == 10 && b[2] == 13 && b[3] == 10 {
    } else {
        lemma_first_crlf2(b.skip(1));
        let t = b.skip(1);
        assert forall|j: int| 1 <= j && j + 4 <= b.len() implies #[trigger] crlf2_at(b, j)
            == crlf2_at(t, j - 1) by {
            assert(t[j - 1] == b[j]);
            assert(t[j] == b[j + 1]);
            assert(t[j + 1] == b[j + 2]);
            assert(t[j + 2] == b[j + 3]);
        }
        if first_crlf2(t) >= 0 {
            assert(first_crlf2(b) == first_crlf2(t) + 1);
            assert(crlf2_at(b, first_crlf2(b)));
            assert forall|j: int| 0 <= j < first_crlf2(b) implies !crlf2_at(b, j) by {
                if j > 0 {
                    assert(crlf2_at(b, j) == crlf2_at(t, j - 1));
                }
            }
        } else {
            assert forall|j: int| !(#[trigger] crlf2_at(b, j)) by {
                if j > 0 && j + 4 <= b.len() {
                    assert(crlf2_at(b, j) == crlf2_at(t, j - 1));
                }
            }
        }
    }
}

pub proof fn lemma_first_crlf2_unique(b: Seq<u8>, i: int)
    requires
        crlf2_at(b, i),
        forall|j: int| 0 <= j < i ==> !crlf2_at(b, j),
    ensures
        first_crlf2(b) == i,
{
    lemma_first_crlf2(b);
    let f = first_crlf2(b);
    if f < 0 {
        assert(!crlf2_at(b, i));
    } else if f < i {
        assert(!crlf2_at(b, f));
    } else if f > i {
        assert(!crlf2_at(b, i));
    }
}

pub proof fn lemma_first_crlf2_absent(b: Seq<u8>)
    requires
        forall|j: int| !crlf2_at(b, j),
    ensures
        first_crlf2(b) < 0,
{
    lemma_first_crlf2(b);
    let f = first_crlf2(b);
    if f >= 0 {
        assert(!crlf2_at(b, f));
    }
}

/// Finds the first CR LF CR LF in a byte slice.
pub fn find_header_end(b: &[u8]) -> (r: Option<usize>)
    ensures
        match r {
            Some(i) => first_crlf2(b@) == i as int,
            None => first_crlf2(b@) < 0,
        },
{
    let len = b.len();
    if len < 4 {
        proof {
            assert forall|j: int| !(#[trigger] crlf2_at(b@, j)) by {}
            lemma_first_crlf2_absent(b@);
        }
        return None;
    }
    let mut i: usize = 0;
    while i + 3 < len
        invariant
            len == b@.len(),
            i + 3 <= len,
            forall|j: int| 0 <= j < i ==> !crlf2_at(b@, j),
        decreases len - i,
    {
        if b[i] == 13 && b[i + 1] == 10 && b[i + 2] == 13 && b[i + 3] == 10 {
            proof {
                lemma_first_crlf2_unique(b@, i as int);
            }
            return Some(i);
        }
        i += 1;
    }
    proof {
        assert forall|j: int| !(#[trigger] crlf2_at(b@, j)) by {
            if 0 <= j && j + 4 <= b@.len() {
                assert(0 <= j < i);
                assert(!crlf2_at(b@, j));
            }
        }
        lemma_first_crlf2_absent(b@);
    }
    None
}

/// Whether the buffer already ends in the header terminator: how a
/// byte-at-a-time reader knows the header block is complete.
pub fn ends_with_header_terminator(b: &[u8]) -> (r: bool)
    ensures
        r == crlf2_at(b@, b@.len() - 4),
{
    let len = b.len();
    len >= 4 && b[len - 4] == 13 && b[len - 3] == 10 && b[len - 2] == 13 && b[len - 1] == 10
}

} // verus!
