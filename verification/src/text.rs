//! Character- and string-level helpers shared by the parsers and
//! serializers: ASCII case folding, searching, splitting, trimming,
//! and decimal numerals.

use vstd::prelude::*;
use vstd::string::StringExecFns;

verus! {

// ---------------------------------------------------------------------------
// ASCII case folding
// ---------------------------------------------------------------------------

/// The scalar value of a character after ASCII lower-casing.
pub open spec fn fold_scalar(x: u32) -> u32 {
    if 65 <= x && x <= 90 {
        (x + 32) as u32
    } else {
        x
    }
}

/// ASCII-case-insensitive equality of two character sequences.
pub open spec fn eq_ci(a: Seq<char>, b: Seq<char>) -> bool {
    &&& a.len() == b.len()
    &&& forall|i: int|
        0 <= i < a.len() ==> fold_scalar(#[trigger] a[i] as u32) == fold_scalar(b[i] as u32)
}

pub proof fn lemma_eq_ci_reflexive(a: Seq<char>)
    ensures
        eq_ci(a, a),
{
}

pub proof fn lemma_eq_ci_symmetric(a: Seq<char>, b: Seq<char>)
    requires
        eq_ci(a, b),
    ensures
        eq_ci(b, a),
{
}

pub proof fn lemma_eq_ci_transitive(a: Seq<char>, b: Seq<char>, c: Seq<char>)
    requires
        eq_ci(a, b),
        eq_ci(b, c),
    ensures
        eq_ci(a, c),
{
}

/// Case-insensitive equality of two characters.
pub fn chars_eq_ci(a: char, b: char) -> (r: bool)
    ensures
        r == (fold_scalar(a as u32) == fold_scalar(b as u32)),
{
    let x = a as u32;
    let y = b as u32;
    let xf = if 65 <= x && x <= 90 {
        x + 32
    } else {
        x
    };
    let yf = if 65 <= y && y <= 90 {
        y + 32
    } else {
        y
    };
    xf == yf
}

/// Case-insensitive equality of two strings.
pub fn str_eq_ci(a: &str, b: &str) -> (r: bool)
    ensures
        r == eq_ci(a@, b@),
{
    let alen = a.unicode_len();
    let blen = b.unicode_len();
    if alen != blen {
        return false;
    }
    let mut i: usize = 0;
    while i < alen
        invariant
            alen == a@.len(),
            alen == b@.len(),
            i <= alen,
            forall|j: int|
                0 <= j < i ==> fold_scalar(#[trigger] a@[j] as u32) == fold_scalar(b@[j] as u32),
        decreases alen - i,
    {
        if !chars_eq_ci(a.get_char(i), b.get_char(i)) {
            return false;
        }
        i += 1;
    }
    true
}

/// Exact equality of two strings.
pub fn str_eq(a: &str, b: &str) -> (r: bool)
    ensures
        r == (a@ == b@),
{
    let alen = a.unicode_len();
    let blen = b.unicode_len();
    if alen != blen {
        proof {
            assert(a@ != b@);
        }
        return false;
    }
    let mut i: usize = 0;
    while i < alen
        invariant
            alen == a@.len(),
            alen == b@.len(),
            i <= alen,
            forall|j: int| 0 <= j < i ==> a@[j] == b@[j],
        decreases alen - i,
    {
        if a.get_char(i) != b.get_char(i) {
            proof {
                assert(a@ != b@);
            }
            return false;
        }
        i += 1;
    }
    proof {
        assert(a@ =~= b@);
    }
    true
}

// ---------------------------------------------------------------------------
// Searching and splitting
// ---------------------------------------------------------------------------

/// Index of the first occurrence of `c` in `s`, or -1 when absent.
pub open spec fn first_index_of(s: Seq<char>, c: char) -> int
    decreases s.len(),
{
    if s.len() == 0 {
        -1
    } else if s[0] == c {
        0
    } else {
        let r = first_index_of(s.skip(1), c);
        if r < 0 {
            -1
        } else {
            r + 1
        }
    }
}

pub proof fn lemma_first_index_of(s: Seq<char>, c: char)
    ensures
        first_index_of(s, c) >= 0 ==> {
            &&& first_index_of(s, c) < s.len()
            &&& s[first_index_of(s, c)] == c
            &&& forall|j: int| 0 <= j < first_index_of(s, c) ==> s[j] != c
        },
        first_index_of(s, c) < 0 ==> (forall|j: int| 0 <= j < s.len() ==> s[j] != c),
    decreases s.len(),
{
    if s.len() == 0 {
    } else if s[0] == c {
    } else {
        lemma_first_index_of(s.skip(1), c);
        let r = first_index_of(s.skip(1), c);
        assert(forall|j: int| 1 <= j < s.len() ==> s[j] == s.skip(1)[j - 1]);
    }
}

/// Finds the first occurrence of `c` in `s` at or after `from`.
pub fn find_char_from(s: &str, c: char, from: usize) -> (r: Option<usize>)
    requires
        from <= s@.len(),
    ensures
        match r {
            Some(i) => {
                &&& from <= i < s@.len()
                &&& s@[i as int] == c
                &&& forall|j: int| from <= j < i ==> s@[j] != c
            },
            None => forall|j: int| from <= j < s@.len() ==> s@[j] != c,
        },
{
    let len = s.unicode_len();
    let mut i: usize = from;
    while i < len
        invariant
            len == s@.len(),
            from <= i <= len,
            forall|j: int| from <= j < i ==> s@[j] != c,
        decreases len - i,
    {
        if s.get_char(i) == c {
            return Some(i);
        }
        i += 1;
    }
    None
}

/// Relates the first occurrence found from position 0 to `first_index_of`.
pub proof fn lemma_first_index_unique(s: Seq<char>, c: char, i: int)
    requires
        0 <= i < s.len(),
        s[i] == c,
        forall|j: int| 0 <= j < i ==> s[j] != c,
    ensures
        first_index_of(s, c) == i,
{
    lemma_first_index_of(s, c);
    let f = first_index_of(s, c);
    if f < 0 {
        assert(s[i] != c);
    } else if f < i {
        assert(s[f] != c);
    } else if f > i {
        assert(s[i] != c);
    }
}

pub proof fn lemma_first_index_absent(s: Seq<char>, c: char)
    requires
        forall|j: int| 0 <= j < s.len() ==> s[j] != c,
    ensures
        first_index_of(s, c) < 0,
{
    lemma_first_index_of(s, c);
    let f = first_index_of(s, c);
    if f >= 0 {
        assert(s[f] != c);
    }
}

/// The pieces of `s` between occurrences of the separator `c`.
pub open spec fn split_on(s: Seq<char>, c: char) -> Seq<Seq<char>>
    decreases s.len(),
{
    let i = first_index_of(s, c);
    if i < 0 || i >= s.len() {
        seq![s]
    } else {
        seq![s.take(i)] + split_on(s.skip(i + 1), c)
    }
}

pub proof fn lemma_split_on_len(s: Seq<char>, c: char)
    ensures
        split_on(s, c).len() >= 1,
    decreases s.len(),
{
    let i = first_index_of(s, c);
    if i < 0 || i >= s.len() {
    } else {
        lemma_split_on_len(s.skip(i + 1), c);
    }
}

/// Splits a string on every occurrence of the separator.
pub fn split_str(s: &str, c: char) -> (r: Vec<String>)
    ensures
        r@.len() == split_on(s@, c).len(),
        forall|i: int| 0 <= i < r@.len() ==> #[trigger] r@[i]@ == split_on(s@, c)[i],
    decreases s@.len(),
{
    let len = s.unicode_len();
    match find_char_from(s, c, 0) {
        None => {
            proof {
                lemma_first_index_absent(s@, c);
            }
            let mut v: Vec<String> = Vec::new();
            v.push(s.to_owned());
            v
        },
        Some(i) => {
            proof {
                lemma_first_index_unique(s@, c, i as int);
            }
            let head = s.substring_char(0, i).to_owned();
            let rest = s.substring_char(i + 1, len);
            proof {
                assert(rest@ == s@.skip(i + 1));
            }
            let tail = split_str(rest, c);
            let mut v: Vec<String> = Vec::new();
            v.push(head);
            let mut k: usize = 0;
            proof {
                assert(head@ == s@.subrange(0, i as int));
                assert(s@.subrange(0, i as int) == s@.take(i as int));
            }
            while k < tail.len()
                invariant
                    v@.len() == 1 + k,
                    k <= tail.len(),
                    tail@.len() == split_on(rest@, c).len(),
                    forall|j: int|
                        0 <= j < tail@.len() ==> #[trigger] tail@[j]@ == split_on(rest@, c)[j],
                    v@[0]@ == s@.take(first_index_of(s@, c)),
                    forall|j: int| 1 <= j < v@.len() ==> #[trigger] v@[j]@ == split_on(rest@, c)[j - 1],
                    rest@ == s@.skip(first_index_of(s@, c) + 1),
                    first_index_of(s@, c) == i as int,
                decreases tail.len() - k,
            {
                let item = tail[k].clone();
                v.push(item);
                k += 1;
            }
            proof {
                assert(split_on(s@, c) == seq![s@.take(i as int)] + split_on(rest@, c));
                assert forall|j: int| 0 <= j < v@.len() implies #[trigger] v@[j]@ == split_on(
                    s@,
                    c,
                )[j] by {
                    if j == 0 {
                    } else {
                        assert(v@[j]@ == split_on(rest@, c)[j - 1]);
                    }
                }
            }
            v
        },
    }
}

// ---------------------------------------------------------------------------
// Whitespace: trimming and tokenizing
// ---------------------------------------------------------------------------

/// The characters the tokenizer treats as whitespace.
pub open spec fn is_ws(c: char) -> bool {
    c == ' ' || c == '\t' || c == '\r' || c == '\n'
}

pub fn char_is_ws(c: char) -> (r: bool)
    ensures
        r == is_ws(c),
{
    c == ' ' || c == '\t' || c == '\r' || c == '\n'
}

/// `s` without leading and trailing whitespace.
pub open spec fn trim_spec(s: Seq<char>) -> Seq<char>
    decreases s.len(),
{
    if s.len() == 0 {
        s
    } else if is_ws(s[0]) {
        trim_spec(s.skip(1))
    } else if is_ws(s[s.len() - 1]) {
        trim_spec(s.take(s.len() - 1))
    } else {
        s
    }
}

pub proof fn lemma_trim_no_ws(s: Seq<char>)
    requires
        s.len() > 0 ==> !is_ws(s[0]),
        s.len() > 0 ==> !is_ws(s[s.len() - 1]),
    ensures
        trim_spec(s) == s,
{
}

/// Trims ASCII whitespace from both ends of a string.
pub fn trim(s: &str) -> (r: &str)
    ensures
        r@ == trim_spec(s@),
    decreases s@.len(),
{
    let len = s.unicode_len();
    if len == 0 {
        s
    } else if char_is_ws(s.get_char(0)) {
        let rest = s.substring_char(1, len);
        proof {
            assert(rest@ == s@.skip(1));
        }
        trim(rest)
    } else if char_is_ws(s.get_char(len - 1)) {
        let rest = s.substring_char(0, len - 1);
        proof {
            assert(rest@ == s@.take(s@.len() - 1));
        }
        trim(rest)
    } else {
        s
    }
}

/// The maximal whitespace-free tokens of `s`, in order.
pub open spec fn tokens(s: Seq<char>) -> Seq<Seq<char>>
    decreases s.len(),
{
    if s.len() == 0 {
        seq![]
    } else if is_ws(s[0]) {
        tokens(s.skip(1))
    } else {
        let r = run_len(s);
        if r <= 0 || r > s.len() {
            seq![]
        } else {
            seq![s.take(r)] + tokens(s.skip(r))
        }
    }
}

/// Length of the leading whitespace-free run of `s`.
pub open spec fn run_len(s: Seq<char>) -> int
    decreases s.len(),
{
    if s.len() == 0 || is_ws(s[0]) {
        0
    } else {
        1 + run_len(s.skip(1))
    }
}

pub proof fn lemma_run_len(s: Seq<char>)
    ensures
        0 <= run_len(s) <= s.len(),
        forall|j: int| 0 <= j < run_len(s) ==> !is_ws(s[j]),
        run_len(s) < s.len() ==> is_ws(s[run_len(s)]),
        s.len() > 0 && !is_ws(s[0]) ==> run_len(s) > 0,
    decreases s.len(),
{
    if s.len() == 0 || is_ws(s[0]) {
    } else {
        lemma_run_len(s.skip(1));
        assert(forall|j: int| 1 <= j < s.len() ==> s[j] == s.skip(1)[j - 1]);
    }
}

/// Splits a string into whitespace-separated tokens.
pub fn tokenize(s: &str) -> (r: Vec<String>)
    ensures
        r@.len() == tokens(s@).len(),
        forall|i: int| 0 <= i < r@.len() ==> #[trigger] r@[i]@ == tokens(s@)[i],
    decreases s@.len(),
{
    let len = s.unicode_len();
    if len == 0 {
        Vec::new()
    } else if char_is_ws(s.get_char(0)) {
        let rest = s.substring_char(1, len);
        proof {
            assert(rest@ == s@.skip(1));
        }
        tokenize(rest)
    } else {
        proof {
            lemma_run_len(s@);
        }
        let mut r: usize = 1;
        while r < len && !char_is_ws(s.get_char(r))
            invariant
                len == s@.len(),
                1 <= r <= len,
                forall|j: int| 0 <= j < r ==> !is_ws(s@[j]),
            decreases len - r,
        {
            r += 1;
        }
        proof {
            lemma_run_eq(s@, r as int);
        }
        let head = s.substring_char(0, r).to_owned();
        let rest = s.substring_char(r, len);
        proof {
            assert(rest@ == s@.skip(r as int));
        }
        let tail = tokenize(rest);
        let mut v: Vec<String> = Vec::new();
        v.push(head);
        let mut k: usize = 0;
        while k < tail.len()
            invariant
                v@.len() == 1 + k,
                k <= tail.len(),
                tail@.len() == tokens(rest@).len(),
                forall|j: int| 0 <= j < tail@.len() ==> #[trigger] tail@[j]@ == tokens(rest@)[j],
                v@[0]@ == s@.take(run_len(s@)),
                forall|j: int| 1 <= j < v@.len() ==> #[trigger] v@[j]@ == tokens(rest@)[j - 1],
                rest@ == s@.skip(run_len(s@)),
            decreases tail.len() - k,
        {
            let item = tail[k].clone();
            v.push(item);
            k += 1;
        }
        proof {
            assert(tokens(s@) == seq![s@.take(run_len(s@))] + tokens(rest@));
            assert forall|j: int| 0 <= j < v@.len() implies #[trigger] v@[j]@ == tokens(s@)[j] by {
                if j > 0 {
                    assert(v@[j]@ == tokens(rest@)[j - 1]);
                }
            }
        }
        v
    }
}

/// Length of the leading whitespace run of `s`.
pub open spec fn ws_len(s: Seq<char>) -> int
    decreases s.len(),
{
    if s.len() == 0 || !is_ws(s[0]) {
        0
    } else {
        1 + ws_len(s.skip(1))
    }
}

pub proof fn lemma_ws_len(s: Seq<char>)
    ensures
        0 <= ws_len(s) <= s.len(),
        forall|j: int| 0 <= j < ws_len(s) ==> is_ws(s[j]),
        ws_len(s) < s.len() ==> !is_ws(s[ws_len(s)]),
    decreases s.len(),
{
    if s.len() == 0 || !is_ws(s[0]) {
    } else {
        lemma_ws_len(s.skip(1));
        assert(forall|j: int| 1 <= j < s.len() ==> s[j] == s.skip(1)[j - 1]);
    }
}

/// A maximal whitespace run is determined by its endpoints.
pub proof fn lemma_ws_eq(s: Seq<char>, r: int)
    requires
        0 <= r <= s.len(),
        forall|j: int| 0 <= j < r ==> is_ws(s[j]),
        r < s.len() ==> !is_ws(s[r]),
    ensures
        ws_len(s) == r,
{
    lemma_ws_len(s);
    let n = ws_len(s);
    if n < r {
        assert(is_ws(s[n]));
    } else if n > r {
        assert(is_ws(s[r]));
    }
}

/// The first index at or after `from` holding a non-whitespace character.
pub fn skip_ws(s: &str, from: usize) -> (r: usize)
    requires
        from <= s@.len(),
    ensures
        from <= r <= s@.len(),
        forall|j: int| from <= j < r ==> is_ws(s@[j]),
        r < s@.len() ==> !is_ws(s@[r as int]),
        ws_len(s@.skip(from as int)) == r - from,
{
    let len = s.unicode_len();
    let mut i: usize = from;
    while i < len && char_is_ws(s.get_char(i))
        invariant
            len == s@.len(),
            from <= i <= len,
            forall|j: int| from <= j < i ==> is_ws(s@[j]),
        decreases len - i,
    {
        i += 1;
    }
    proof {
        let t = s@.skip(from as int);
        assert(forall|j: int| 0 <= j < t.len() ==> t[j] == s@[j + from]);
        lemma_ws_eq(t, i - from);
    }
    i
}

/// The first index at or after `from` holding whitespace, or the end.
pub fn skip_run(s: &str, from: usize) -> (r: usize)
    requires
        from <= s@.len(),
    ensures
        from <= r <= s@.len(),
        forall|j: int| from <= j < r ==> !is_ws(s@[j]),
        r < s@.len() ==> is_ws(s@[r as int]),
        run_len(s@.skip(from as int)) == r - from,
{
    let len = s.unicode_len();
    let mut i: usize = from;
    while i < len && !char_is_ws(s.get_char(i))
        invariant
            len == s@.len(),
            from <= i <= len,
            forall|j: int| from <= j < i ==> !is_ws(s@[j]),
        decreases len - i,
    {
        i += 1;
    }
    proof {
        let t = s@.skip(from as int);
        assert(forall|j: int| 0 <= j < t.len() ==> t[j] == s@[j + from]);
        lemma_run_zero_or(t, i - from);
    }
    i
}

/// A maximal whitespace-free run is determined by its endpoints, the
/// empty run included.
proof fn lemma_run_zero_or(s: Seq<char>, r: int)
    requires
        0 <= r <= s.len(),
        forall|j: int| 0 <= j < r ==> !is_ws(s[j]),
        r < s.len() ==> is_ws(s[r]),
    ensures
        run_len(s) == r,
{
    lemma_run_len(s);
    let n = run_len(s);
    if n < r {
        assert(!is_ws(s[n]));
    } else if n > r {
        assert(!is_ws(s[r]));
    }
}

/// A maximal whitespace-free run is determined by its endpoints.
proof fn lemma_run_eq(s: Seq<char>, r: int)
    requires
        1 <= r <= s.len(),
        forall|j: int| 0 <= j < r ==> !is_ws(s[j]),
        r < s.len() ==> is_ws(s[r]),
    ensures
        run_len(s) == r,
{
    lemma_run_len(s);
    let n = run_len(s);
    if n < r {
        assert(!is_ws(s[n]));
    } else if n > r {
        assert(!is_ws(s[r]));
    }
}

/// When `a` is free of the separator, splitting `a + [c] + rest` peels
/// `a` off.
pub proof fn lemma_split_on_prefix(a: Seq<char>, c: char, rest: Seq<char>)
    requires
        forall|j: int| 0 <= j < a.len() ==> a[j] != c,
    ensures
        split_on(a + seq![c] + rest, c) == seq![a] + split_on(rest, c),
{
    let s = a + seq![c] + rest;
    assert(s[a.len() as int] == c);
    assert forall|j: int| 0 <= j < a.len() implies s[j] != c by {
        assert(s[j] == a[j]);
    }
    lemma_first_index_unique(s, c, a.len() as int);
    assert(s.take(a.len() as int) =~= a);
    assert(s.skip(a.len() as int + 1) =~= rest);
}

/// Splitting a separator-free string yields just that string.
pub proof fn lemma_split_on_whole(a: Seq<char>, c: char)
    requires
        forall|j: int| 0 <= j < a.len() ==> a[j] != c,
    ensures
        split_on(a, c) == seq![a],
{
    lemma_first_index_absent(a, c);
}

// ---------------------------------------------------------------------------
// Lines
// ---------------------------------------------------------------------------

/// A line with one trailing '\r' removed.
pub open spec fn strip_cr(l: Seq<char>) -> Seq<char> {
    if l.len() > 0 && l.last() == '\r' {
        l.drop_last()
    } else {
        l
    }
}

/// The lines of `s`: split on '\n', one trailing '\r' removed per line,
/// with no empty final piece after a terminating '\n'.
pub open spec fn lines_of(s: Seq<char>) -> Seq<Seq<char>> {
    if s.len() == 0 {
        seq![]
    } else {
        let parts = split_on(s, '\n');
        let kept = if parts.len() > 0 && parts.last().len() == 0 {
            parts.drop_last()
        } else {
            parts
        };
        kept.map_values(|l: Seq<char>| strip_cr(l))
    }
}

/// Splits a string into its lines.
pub fn lines(s: &str) -> (r: Vec<String>)
    ensures
        r@.len() == lines_of(s@).len(),
        forall|i: int| 0 <= i < r@.len() ==> #[trigger] r@[i]@ == lines_of(s@)[i],
{
    let len = s.unicode_len();
    if len == 0 {
        return Vec::new();
    }
    let mut parts = split_str(s, '\n');
    proof {
        lemma_split_on_len(s@, '\n');
    }
    let plen = parts.len();
    let last_is_empty = parts[plen - 1].as_str().unicode_len() == 0;
    if last_is_empty {
        let _ = parts.pop();
    }
    let ghost kept = if last_is_empty {
        split_on(s@, '\n').drop_last()
    } else {
        split_on(s@, '\n')
    };
    proof {
        assert(parts@.len() == kept.len());
        assert(forall|i: int| 0 <= i < parts@.len() ==> #[trigger] parts@[i]@ == kept[i]);
        assert(lines_of(s@) == kept.map_values(|l: Seq<char>| strip_cr(l)));
    }
    let mut out: Vec<String> = Vec::new();
    let mut i: usize = 0;
    let n = parts.len();
    while i < n
        invariant
            n == parts@.len(),
            i <= n,
            kept.len() == n,
            forall|j: int| 0 <= j < n ==> #[trigger] parts@[j]@ == kept[j],
            out@.len() == i,
            forall|j: int| 0 <= j < i ==> #[trigger] out@[j]@ == strip_cr(kept[j]),
        decreases n - i,
    {
        let line: &str = parts[i].as_str();
        let llen = line.unicode_len();
        if llen > 0 && line.get_char(llen - 1) == '\r' {
            let stripped = line.substring_char(0, llen - 1);
            proof {
                assert(stripped@ =~= strip_cr(kept[i as int]));
            }
            out.push(stripped.to_owned());
        } else {
            out.push(line.to_owned());
        }
        i += 1;
    }
    proof {
        assert(forall|j: int|
            0 <= j < n ==> #[trigger] out@[j]@ == lines_of(s@)[j]);
    }
    out
}

/// The lines joined back, each closed by CR LF.
pub open spec fn join_crlf(ls: Seq<Seq<char>>) -> Seq<char>
    decreases ls.len(),
{
    if ls.len() == 0 {
        seq![]
    } else {
        ls[0] + seq!['\r', '\n'] + join_crlf(ls.skip(1))
    }
}

/// Whether a line is free of the two line-terminator characters.
pub open spec fn clean_line(l: Seq<char>) -> bool {
    forall|j: int| 0 <= j < l.len() ==> l[j] != '\r' && l[j] != '\n'
}

/// Splitting CR-LF-joined clean lines gives the lines back.
pub proof fn lemma_lines_of_join(ls: Seq<Seq<char>>)
    requires
        forall|i: int| 0 <= i < ls.len() ==> clean_line(#[trigger] ls[i]),
    ensures
        lines_of(join_crlf(ls)) == ls,
    decreases ls.len(),
{
    if ls.len() == 0 {
        assert(join_crlf(ls) =~= Seq::<char>::empty());
        assert(lines_of(join_crlf(ls)) =~= ls);
    } else {
        let l = ls[0];
        let rest = ls.skip(1);
        assert(forall|i: int| 0 <= i < rest.len() ==> rest[i] == ls[i + 1]);
        lemma_lines_of_join(rest);
        lemma_lines_step(l, join_crlf(rest));
        assert(join_crlf(ls) == l + seq!['\r', '\n'] + join_crlf(rest));
        assert(seq![l] + lines_of(join_crlf(rest)) =~= ls);
    }
}

/// One clean line followed by CR LF peels off the front of `lines_of`.
pub proof fn lemma_lines_step(l: Seq<char>, rest: Seq<char>)
    requires
        clean_line(l),
    ensures
        lines_of(l + seq!['\r', '\n'] + rest) == seq![l] + lines_of(rest),
{
    let s = l + seq!['\r', '\n'] + rest;
    let p = l.len() as int + 1;
    let head = l + seq!['\r'];
    assert(s =~= head + seq!['\n'] + rest);
    assert forall|j: int| 0 <= j < head.len() implies head[j] != '\n' by {
        if j < l.len() {
            assert(head[j] == l[j]);
        }
    }
    lemma_split_on_prefix(head, '\n', rest);
    let parts = split_on(s, '\n');
    assert(parts == seq![head] + split_on(rest, '\n'));
    lemma_split_on_len(rest, '\n');
    lemma_split_on_len(s, '\n');
    assert(s.len() > 0);
    assert(strip_cr(head) =~= l);
    let tail_parts = split_on(rest, '\n');
    assert(parts.last() == tail_parts.last());
    if rest.len() == 0 {
        assert(tail_parts == seq![rest]) by {
            lemma_split_on_whole(rest, '\n');
        }
        assert(parts =~= seq![head, rest]);
        assert(parts.last().len() == 0);
        assert(parts.drop_last() =~= seq![head]);
        assert(lines_of(s) =~= seq![l]);
        assert(lines_of(rest) =~= Seq::<Seq<char>>::empty());
        assert(seq![l] + lines_of(rest) =~= seq![l]);
    } else {
        let kept_tail = if tail_parts.last().len() == 0 {
            tail_parts.drop_last()
        } else {
            tail_parts
        };
        let kept = if parts.last().len() == 0 {
            parts.drop_last()
        } else {
            parts
        };
        assert(kept =~= seq![head] + kept_tail) by {
            if parts.last().len() == 0 {
                assert(parts.drop_last() =~= seq![head] + tail_parts.drop_last());
            }
        }
        let lhs = kept.map_values(|x: Seq<char>| strip_cr(x));
        let rhs = kept_tail.map_values(|x: Seq<char>| strip_cr(x));
        assert(lines_of(rest) == rhs);
        assert(lines_of(s) == lhs);
        assert(lhs.len() == kept.len());
        assert(rhs.len() == kept_tail.len());
        assert forall|j: int| 0 <= j < lhs.len() implies lhs[j] == (seq![l] + rhs)[j] by {
            assert(lhs[j] == strip_cr(kept[j]));
            if j == 0 {
                assert(kept[0] == head);
            } else {
                assert(kept[j] == kept_tail[j - 1]);
                assert(rhs[j - 1] == strip_cr(kept_tail[j - 1]));
            }
        }
        assert(lhs =~= seq![l] + rhs);
    }
}

/// One non-empty whitespace-free word peels off the front of `tokens`
/// when what follows is empty or starts with whitespace.
pub proof fn lemma_tokens_step(w: Seq<char>, rest: Seq<char>)
    requires
        w.len() > 0,
        forall|j: int| 0 <= j < w.len() ==> !is_ws(w[j]),
        rest.len() > 0 ==> is_ws(rest[0]),
    ensures
        tokens(w + rest) == seq![w] + tokens(rest),
{
    let s = w + rest;
    assert(s[0] == w[0]);
    assert(!is_ws(s[0]));
    assert forall|j: int| 0 <= j < w.len() implies !is_ws(s[j]) by {
        assert(s[j] == w[j]);
    }
    if w.len() < s.len() {
        assert(s[w.len() as int] == rest[0]);
    }
    lemma_run_eq(s, w.len() as int);
    assert(s.take(w.len() as int) =~= w);
    assert(s.skip(w.len() as int) =~= rest);
}

/// A leading whitespace character drops out of `tokens`.
pub proof fn lemma_tokens_ws(c: char, rest: Seq<char>)
    requires
        is_ws(c),
    ensures
        tokens(seq![c] + rest) == tokens(rest),
{
    let s = seq![c] + rest;
    assert(s[0] == c);
    assert(s.skip(1) =~= rest);
}

/// UTF-8 encoding distributes over concatenation.
pub proof fn lemma_encode_utf8_concat(a: Seq<char>, b: Seq<char>)
    ensures
        vstd::utf8::encode_utf8(a + b) == vstd::utf8::encode_utf8(a) + vstd::utf8::encode_utf8(b),
    decreases a.len(),
{
    if a.len() == 0 {
        assert(a + b =~= b);
        assert(vstd::utf8::encode_utf8(a) =~= Seq::<u8>::empty());
        assert(vstd::utf8::encode_utf8(a) + vstd::utf8::encode_utf8(b) =~= vstd::utf8::encode_utf8(
            b,
        ));
    } else {
        let s = a + b;
        assert(s.len() > 0);
        assert(s[0] == a[0]);
        assert(s.drop_first() =~= a.drop_first() + b);
        lemma_encode_utf8_concat(a.drop_first(), b);
        assert(vstd::utf8::encode_utf8(s) == vstd::utf8::encode_scalar(s[0] as u32)
            + vstd::utf8::encode_utf8(s.drop_first()));
        assert(vstd::utf8::encode_utf8(a) == vstd::utf8::encode_scalar(a[0] as u32)
            + vstd::utf8::encode_utf8(a.drop_first()));
        assert(vstd::utf8::encode_scalar(s[0] as u32) + (vstd::utf8::encode_utf8(a.drop_first())
            + vstd::utf8::encode_utf8(b)) =~= (vstd::utf8::encode_scalar(a[0] as u32)
            + vstd::utf8::encode_utf8(a.drop_first())) + vstd::utf8::encode_utf8(b));
    }
}

/// Decimal numerals are ASCII digits: never whitespace, '/', ':', or a
/// line terminator.
pub proof fn lemma_dec_chars_ascii(n: int)
    requires
        n >= 0,
    ensures
        vstd::utf8::is_ascii_chars(dec_chars(n)),
        forall|j: int|
            0 <= j < dec_chars(n).len() ==> !is_ws(#[trigger] dec_chars(n)[j]) && dec_chars(n)[j]
                != '\r' && dec_chars(n)[j] != '\n',
    decreases n,
{
    if n < 10 {
        assert(dec_chars(n) =~= seq![digit_char(n)]);
        assert('\0' <= digit_char(n) <= '\u{7f}');
        assert(vstd::utf8::is_ascii_chars(dec_chars(n))) by {
            assert(forall|j: int|
                0 <= j < dec_chars(n).len() ==> '\0' <= #[trigger] dec_chars(n)[j] <= '\u{7f}');
        }
    } else {
        lemma_dec_chars_ascii(n / 10);
        let w = dec_chars(n);
        assert(w == dec_chars(n / 10) + seq![digit_char(n % 10)]);
        assert('\0' <= digit_char(n % 10) <= '\u{7f}');
        assert forall|j: int| 0 <= j < w.len() implies '\0' <= #[trigger] w[j] <= '\u{7f}'
            && !is_ws(w[j]) && w[j] != '\r' && w[j] != '\n' by {
            if j < w.len() - 1 {
                assert(w[j] == dec_chars(n / 10)[j]);
            } else {
                assert(w[j] == digit_char(n % 10));
            }
        }
    }
}

/// ASCII survives concatenation.
pub proof fn lemma_ascii_concat2(a: Seq<char>, b: Seq<char>)
    requires
        vstd::utf8::is_ascii_chars(a),
        vstd::utf8::is_ascii_chars(b),
    ensures
        vstd::utf8::is_ascii_chars(a + b),
{
    let s = a + b;
    assert forall|j: int| 0 <= j < s.len() implies '\0' <= #[trigger] s[j] <= '\u{7f}' by {
        if j < a.len() {
            assert(s[j] == a[j]);
        } else {
            assert(s[j] == b[j - a.len()]);
        }
    }
}

/// Where the four-character line terminator CR LF CR LF sits in a text.
pub open spec fn crlf2_chars_at(s: Seq<char>, j: int) -> bool {
    &&& 0 <= j
    &&& j + 4 <= s.len()
    &&& s[j] == '\r'
    &&& s[j + 1] == '\n'
    &&& s[j + 2] == '\r'
    &&& s[j + 3] == '\n'
}

/// Joining non-empty clean lines and one final empty line puts the one
/// and only CR LF CR LF at the very end.
pub proof fn lemma_join_terminator(ls: Seq<Seq<char>>)
    requires
        ls.len() >= 2,
        ls.last().len() == 0,
        forall|i: int| 0 <= i < ls.len() - 1 ==> (#[trigger] ls[i]).len() > 0 && clean_line(ls[i]),
    ensures
        join_crlf(ls).len() >= 4,
        crlf2_chars_at(join_crlf(ls), join_crlf(ls).len() - 4),
        forall|j: int| 0 <= j < join_crlf(ls).len() - 4 ==> !crlf2_chars_at(join_crlf(ls), j),
    decreases ls.len(),
{
    let s = join_crlf(ls);
    let l0 = ls[0];
    let rest = ls.skip(1);
    assert(s == l0 + seq!['\r', '\n'] + join_crlf(rest));
    if ls.len() == 2 {
        assert(rest.len() == 1 && rest[0].len() == 0);
        assert(join_crlf(rest) == rest[0] + seq!['\r', '\n'] + join_crlf(rest.skip(1)));
        assert(rest.skip(1) =~= Seq::<Seq<char>>::empty());
        assert(join_crlf(rest) =~= seq!['\r', '\n']);
        assert(s =~= l0 + seq!['\r', '\n', '\r', '\n']);
        assert(crlf2_chars_at(s, l0.len() as int));
        assert forall|j: int| 0 <= j < s.len() - 4 implies !crlf2_chars_at(s, j) by {
            assert(j < l0.len());
            assert(s[j] == l0[j]);
            assert(l0[j] != '\r');
        }
    } else {
        assert(forall|i: int| 0 <= i < rest.len() ==> rest[i] == ls[i + 1]);
        assert(rest.last() == ls.last());
        lemma_join_terminator(rest);
        let t = join_crlf(rest);
        assert(s.len() == l0.len() + 2 + t.len());
        assert(crlf2_chars_at(s, s.len() - 4)) by {
            assert(crlf2_chars_at(t, t.len() - 4));
            assert(s[s.len() - 4] == t[t.len() - 4]);
            assert(s[s.len() - 3] == t[t.len() - 3]);
            assert(s[s.len() - 2] == t[t.len() - 2]);
            assert(s[s.len() - 1] == t[t.len() - 1]);
        }
        assert(rest[0].len() > 0);
        assert(t[0] == rest[0][0]);
        assert(t[0] != '\r');
        assert forall|j: int| 0 <= j < s.len() - 4 implies !crlf2_chars_at(s, j) by {
            if j < l0.len() {
                assert(s[j] == l0[j]);
                assert(l0[j] != '\r');
            } else if j == l0.len() {
                assert(s[j + 2] == t[0]);
            } else if j == l0.len() + 1 {
                assert(s[j] == '\n');
            } else {
                let j2 = j - l0.len() - 2;
                assert(0 <= j2 < t.len() - 4);
                assert(!crlf2_chars_at(t, j2));
                assert(s[j] == t[j2]);
                assert(s[j + 1] == t[j2 + 1]);
                assert(s[j + 2] == t[j2 + 2]);
                assert(s[j + 3] == t[j2 + 3]);
            }
        }
    }
}

// ---------------------------------------------------------------------------
// Byte output
// ---------------------------------------------------------------------------

/// Relies on str::from_utf8: it succeeds exactly on valid UTF-8, and the
/// returned string holds exactly the decoded characters of those bytes.
#[verifier::external_body]
pub fn utf8_to_string(v: &[u8]) -> (r: Option<String>)
    ensures
        match r {
            Some(s) => {
                &&& vstd::utf8::valid_utf8(v@)
                &&& s@ == vstd::utf8::decode_utf8(v@)
                &&& vstd::utf8::encode_utf8(s@) == v@
            },
            None => !vstd::utf8::valid_utf8(v@),
        },
{
    match core::str::from_utf8(v) {
        Ok(s) => Some(s.to_owned()),
        Err(_) => None,
    }
}

/// Appends the UTF-8 bytes of `s` to `out`.
pub fn push_str_bytes(out: &mut Vec<u8>, s: &str)
    ensures
        final(out)@ == old(out)@ + vstd::utf8::encode_utf8(s@),
{
    let b = s.as_bytes();
    out.extend_from_slice(b);
}

// ---------------------------------------------------------------------------
// Decimal numerals
// ---------------------------------------------------------------------------

pub open spec fn is_digit(c: char) -> bool {
    '0' <= c && c <= '9'
}

pub open spec fn digit_val(c: char) -> int {
    c as u32 - '0' as u32
}

pub open spec fn all_digits(s: Seq<char>) -> bool {
    forall|i: int| 0 <= i < s.len() ==> is_digit(#[trigger] s[i])
}

/// The value of a decimal numeral.
pub open spec fn dec_val(s: Seq<char>) -> int
    decreases s.len(),
{
    if s.len() == 0 {
        0
    } else {
        dec_val(s.drop_last()) * 10 + digit_val(s.last())
    }
}

/// A numeral's value never shrinks when more digits follow.
proof fn lemma_positional_prefix(s: Seq<char>, i: int)
    requires
        0 <= i <= s.len(),
        all_digits(s),
    ensures
        dec_val(s) >= dec_val(s.take(i)),
    decreases s.len() - i,
{
    if i < s.len() {
        lemma_positional_prefix(s, i + 1);
        assert(s.take(i + 1).drop_last() =~= s.take(i));
        assert(s.take(s.len() as int) =~= s);
        assert(dec_val(s.take(i + 1)) == dec_val(s.take(i)) * 10 + digit_val(s[i]));
        assert(dec_val(s.take(i)) >= 0) by {
            assert(all_digits(s.take(i))) by {
                assert(forall|j: int| 0 <= j < i ==> s.take(i)[j] == s[j]);
            }
            lemma_dec_val_bounds(s.take(i));
        }
        assert(digit_val(s[i]) >= 0);
        assert(dec_val(s.take(i + 1)) >= dec_val(s.take(i)));
    } else {
        assert(s.take(i) =~= s);
    }
}

pub proof fn lemma_dec_val_bounds(s: Seq<char>)
    requires
        all_digits(s),
    ensures
        dec_val(s) >= 0,
    decreases s.len(),
{
    if s.len() > 0 {
        assert(all_digits(s.drop_last())) by {
            assert(forall|i: int| 0 <= i < s.len() - 1 ==> s.drop_last()[i] == s[i]);
        }
        lemma_dec_val_bounds(s.drop_last());
    }
}

/// Parses a decimal numeral; `None` on an empty string, a non-digit,
/// or a value that does not fit in `usize`.
pub fn parse_dec_usize(s: &str) -> (r: Option<usize>)
    ensures
        match r {
            Some(v) => {
                &&& s@.len() > 0
                &&& all_digits(s@)
                &&& v as int == dec_val(s@)
            },
            None => s@.len() == 0 || !all_digits(s@) || dec_val(s@) > usize::MAX,
        },
{
    let len = s.unicode_len();
    if len == 0 {
        return None;
    }
    let mut acc: usize = 0;
    let mut i: usize = 0;
    while i < len
        invariant
            len == s@.len(),
            0 < len,
            i <= len,
            forall|j: int| 0 <= j < i ==> is_digit(#[trigger] s@[j]),
            acc as int == dec_val(s@.take(i as int)),
        decreases len - i,
    {
        let c = s.get_char(i);
        if !('0' <= c && c <= '9') {
            return None;
        }
        let d: usize = (c as u32 - 48) as usize;
        proof {
            assert(s@.take(i + 1).drop_last() =~= s@.take(i as int));
            assert(dec_val(s@.take(i + 1)) == acc * 10 + d);
        }
        if acc > (usize::MAX - d) / 10 {
            proof {
                assert(forall|j: int| 0 <= j < i + 1 ==> is_digit(#[trigger] s@[j]));
                if all_digits(s@) {
                    lemma_positional_prefix(s@, i + 1);
                    assert(dec_val(s@) >= dec_val(s@.take(i + 1)));
                    assert(acc * 10 + d > usize::MAX) by (nonlinear_arith)
                        requires
                            acc > (usize::MAX - d) / 10,
                            0 <= d <= 9,
                    ;
                }
            }
            return None;
        }
        acc = acc * 10 + d;
        i += 1;
    }
    proof {
        assert(s@.take(len as int) =~= s@);
    }
    Some(acc)
}

/// The character of a single decimal digit.
pub open spec fn digit_char(d: int) -> char {
    ('0' as u32 + d) as char
}

/// The canonical decimal numeral of a non-negative number.
pub open spec fn dec_chars(n: int) -> Seq<char>
    decreases n,
{
    if n < 10 {
        seq![digit_char(if n < 0 { 0 } else { n })]
    } else {
        dec_chars(n / 10) + seq![digit_char(n % 10)]
    }
}

fn digit_str(d: usize) -> (r: &'static str)
    requires
        d < 10,
    ensures
        r@ =~= seq![digit_char(d as int)],
{
    proof {
        reveal_strlit("0");
        reveal_strlit("1");
        reveal_strlit("2");
        reveal_strlit("3");
        reveal_strlit("4");
        reveal_strlit("5");
        reveal_strlit("6");
        reveal_strlit("7");
        reveal_strlit("8");
        reveal_strlit("9");
    }
    match d {
        0 => "0",
        1 => "1",
        2 => "2",
        3 => "3",
        4 => "4",
        5 => "5",
        6 => "6",
        7 => "7",
        8 => "8",
        _ => "9",
    }
}

/// Renders a number as its canonical decimal numeral.
pub fn render_dec(n: usize) -> (r: String)
    ensures
        r@ == dec_chars(n as int),
    decreases n,
{
    if n < 10 {
        digit_str(n).to_owned()
    } else {
        let mut head = render_dec(n / 10);
        head.append(digit_str(n % 10));
        proof {
            assert(head@ == dec_chars(n as int));
        }
        head
    }
}

/// The canonical decimal numeral parses back to its value.
pub proof fn lemma_dec_chars_val(n: int)
    requires
        n >= 0,
    ensures
        dec_chars(n).len() > 0,
        all_digits(dec_chars(n)),
        dec_val(dec_chars(n)) == n,
    decreases n,
{
    if n < 10 {
        assert(dec_chars(n) == seq![digit_char(n)]);
        assert(is_digit(digit_char(n)));
        assert(dec_val(dec_chars(n)) == dec_val(seq![digit_char(n)].drop_last()) * 10 + digit_val(
            digit_char(n),
        ));
        assert(seq![digit_char(n)].drop_last() =~= Seq::<char>::empty());
        assert(digit_val(digit_char(n)) == n);
    } else {
        lemma_dec_chars_val(n / 10);
        let whole = dec_chars(n);
        assert(whole.drop_last() =~= dec_chars(n / 10));
        assert(whole.last() == digit_char(n % 10));
        assert(is_digit(digit_char(n % 10)));
        assert(digit_val(digit_char(n % 10)) == n % 10);
        assert(dec_val(whole) == dec_val(dec_chars(n / 10)) * 10 + n % 10);
        assert((n / 10) * 10 + n % 10 == n) by (nonlinear_arith);
        assert(all_digits(whole)) by {
            assert(forall|i: int|
                0 <= i < whole.len() - 1 ==> whole[i] == dec_chars(n / 10)[i]);
        }
    }
}

} // verus!
