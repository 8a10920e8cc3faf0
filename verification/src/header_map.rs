//! The header map: an ordered mapping from ASCII-case-insensitive names
//! to values. The stored name keeps its original casing; insertion order
//! is kept, which makes serialization deterministic.

use vstd::prelude::*;
use vstd::utf8::encode_utf8;

use crate::text::{
    all_digits, dec_val, eq_ci, find_char_from, first_index_of, lemma_eq_ci_symmetric,
    lemma_eq_ci_transitive, lemma_first_index_absent, lemma_first_index_unique, lines, lines_of,
    parse_dec_usize, push_str_bytes, str_eq_ci, trim, trim_spec,
};

verus! {

/// A header name; two keys name the same header when they are equal
/// up to ASCII case.
#[derive(Debug)]
pub struct HeaderKey(pub String);

/// The ordered (name, value) entries of a message's header block.
#[derive(Debug)]
pub struct HeaderMap(pub Vec<(HeaderKey, String)>);

impl View for HeaderMap {
    type V = Seq<(Seq<char>, Seq<char>)>;

    open spec fn view(&self) -> Seq<(Seq<char>, Seq<char>)> {
        Seq::new(self.0@.len(), |i: int| (self.0@[i].0.0@, self.0@[i].1@))
    }
}

/// The value of the first entry whose name matches `k` case-insensitively.
pub open spec fn lookup(m: Seq<(Seq<char>, Seq<char>)>, k: Seq<char>) -> Option<Seq<char>>
    decreases m.len(),
{
    if m.len() == 0 {
        None
    } else if eq_ci(m[0].0, k) {
        Some(m[0].1)
    } else {
        lookup(m.skip(1), k)
    }
}

/// No two entries carry case-insensitively equal names.
pub open spec fn map_wf(m: Seq<(Seq<char>, Seq<char>)>) -> bool {
    forall|i: int, j: int| 0 <= i < j < m.len() ==> !eq_ci(#[trigger] m[i].0, #[trigger] m[j].0)
}

/// Inserting replaces the value of a matching entry, keeping the stored
/// name; a new name is appended.
pub open spec fn spec_insert(
    m: Seq<(Seq<char>, Seq<char>)>,
    k: Seq<char>,
    v: Seq<char>,
) -> Seq<(Seq<char>, Seq<char>)>
    decreases m.len(),
{
    if m.len() == 0 {
        seq![(k, v)]
    } else if eq_ci(m[0].0, k) {
        seq![(m[0].0, v)] + m.skip(1)
    } else {
        seq![m[0]] + spec_insert(m.skip(1), k, v)
    }
}

/// When the first match is at `i`, lookup returns that entry's value.
pub proof fn lemma_lookup_at(m: Seq<(Seq<char>, Seq<char>)>, k: Seq<char>, i: int)
    requires
        0 <= i < m.len(),
        eq_ci(m[i].0, k),
        forall|j: int| 0 <= j < i ==> !eq_ci(#[trigger] m[j].0, k),
    ensures
        lookup(m, k) == Some(m[i].1),
    decreases i,
{
    if i == 0 {
    } else {
        assert(!eq_ci(m[0].0, k));
        lemma_lookup_at(m.skip(1), k, i - 1);
    }
}

pub proof fn lemma_lookup_absent(m: Seq<(Seq<char>, Seq<char>)>, k: Seq<char>)
    requires
        forall|j: int| 0 <= j < m.len() ==> !eq_ci(#[trigger] m[j].0, k),
    ensures
        lookup(m, k) is None,
    decreases m.len(),
{
    if m.len() > 0 {
        lemma_lookup_absent(m.skip(1), k);
    }
}

/// Lookup cannot tell case-variants of a name apart.
pub proof fn lemma_lookup_ci(m: Seq<(Seq<char>, Seq<char>)>, k1: Seq<char>, k2: Seq<char>)
    requires
        eq_ci(k1, k2),
    ensures
        lookup(m, k1) == lookup(m, k2),
    decreases m.len(),
{
    if m.len() > 0 {
        if eq_ci(m[0].0, k1) {
            lemma_eq_ci_transitive(m[0].0, k1, k2);
        } else {
            if eq_ci(m[0].0, k2) {
                lemma_eq_ci_symmetric(k1, k2);
                lemma_eq_ci_transitive(m[0].0, k2, k1);
            }
            lemma_lookup_ci(m.skip(1), k1, k2);
        }
    }
}

/// After an insert, looking the name up returns the new value, and every
/// other name is untouched.
pub proof fn lemma_lookup_insert(
    m: Seq<(Seq<char>, Seq<char>)>,
    k: Seq<char>,
    v: Seq<char>,
    q: Seq<char>,
)
    ensures
        eq_ci(k, q) ==> lookup(spec_insert(m, k, v), q) == Some(v),
        !eq_ci(k, q) ==> lookup(spec_insert(m, k, v), q) == lookup(m, q),
    decreases m.len(),
{
    let n = spec_insert(m, k, v);
    if m.len() == 0 {
        assert(n == seq![(k, v)]);
        if eq_ci(k, q) {
        } else {
            assert(!eq_ci(n[0].0, q));
            assert(n.skip(1) =~= Seq::<(Seq<char>, Seq<char>)>::empty());
        }
    } else if eq_ci(m[0].0, k) {
        assert(n == seq![(m[0].0, v)] + m.skip(1));
        assert(n[0].0 == m[0].0);
        assert(n.skip(1) =~= m.skip(1));
        if eq_ci(k, q) {
            lemma_eq_ci_transitive(m[0].0, k, q);
        } else {
            if eq_ci(m[0].0, q) {
                // then k ~ m[0].0 ~ q, contradiction with !eq_ci(k, q)
                lemma_eq_ci_symmetric(m[0].0, k);
                lemma_eq_ci_transitive(k, m[0].0, q);
            }
            assert(!eq_ci(n[0].0, q));
        }
    } else {
        assert(n == seq![m[0]] + spec_insert(m.skip(1), k, v));
        assert(n[0] == m[0]);
        assert(n.skip(1) =~= spec_insert(m.skip(1), k, v));
        lemma_lookup_insert(m.skip(1), k, v, q);
        if eq_ci(k, q) {
            if eq_ci(m[0].0, q) {
                lemma_eq_ci_symmetric(k, q);
                lemma_eq_ci_transitive(m[0].0, q, k);
            }
            assert(!eq_ci(n[0].0, q));
        }
    }
}

/// Inserting keeps the map free of duplicate names.
pub proof fn lemma_insert_wf(m: Seq<(Seq<char>, Seq<char>)>, k: Seq<char>, v: Seq<char>)
    requires
        map_wf(m),
    ensures
        map_wf(spec_insert(m, k, v)),
    decreases m.len(),
{
    let n = spec_insert(m, k, v);
    if m.len() == 0 {
    } else if eq_ci(m[0].0, k) {
        assert forall|i: int, j: int| 0 <= i < j < n.len() implies !eq_ci(
            #[trigger] n[i].0,
            #[trigger] n[j].0,
        ) by {
            assert(n[i].0 == m[i].0);
            assert(n[j].0 == m[j].0);
        }
    } else {
        assert(map_wf(m.skip(1))) by {
            assert(forall|i: int, j: int|
                0 <= i < j < m.skip(1).len() ==> m.skip(1)[i] == m[i + 1] && m.skip(1)[j] == m[j
                    + 1]);
        }
        lemma_insert_wf(m.skip(1), k, v);
        let t = spec_insert(m.skip(1), k, v);
        // every name in t is either a name of m.skip(1) or is k; none matches m[0].0
        lemma_insert_names(m.skip(1), k, v);
        assert forall|i: int, j: int| 0 <= i < j < n.len() implies !eq_ci(
            #[trigger] n[i].0,
            #[trigger] n[j].0,
        ) by {
            if i == 0 {
                assert(n[j].0 == t[j - 1].0);
                if eq_ci(t[j - 1].0, k) {
                    // n[0].0 == m[0].0 and !eq_ci(m[0].0, k)
                    if eq_ci(m[0].0, t[j - 1].0) {
                        lemma_eq_ci_transitive(m[0].0, t[j - 1].0, k);
                    }
                } else {
                    let w = choose|w: int| 0 <= w < m.skip(1).len() && t[j - 1].0 == m.skip(1)[w].0;
                    assert(m.skip(1)[w].0 == m[w + 1].0);
                    assert(!eq_ci(m[0].0, m[w + 1].0));
                }
            } else {
                assert(n[i].0 == t[i - 1].0);
                assert(n[j].0 == t[j - 1].0);
            }
        }
    }
}

/// Every name of an inserted map is the inserted name or one already there.
proof fn lemma_insert_names(m: Seq<(Seq<char>, Seq<char>)>, k: Seq<char>, v: Seq<char>)
    ensures
        forall|i: int|
            0 <= i < spec_insert(m, k, v).len() ==> (eq_ci(#[trigger] spec_insert(m, k, v)[i].0, k)
                || exists|w: int| 0 <= w < m.len() && spec_insert(m, k, v)[i].0 == m[w].0),
    decreases m.len(),
{
    let n = spec_insert(m, k, v);
    if m.len() == 0 {
        assert(eq_ci(n[0].0, k)) by {
            crate::text::lemma_eq_ci_reflexive(k);
        }
    } else if eq_ci(m[0].0, k) {
        assert forall|i: int| 0 <= i < n.len() implies (eq_ci(#[trigger] n[i].0, k) || exists|
            w: int,
        | 0 <= w < m.len() && n[i].0 == m[w].0) by {
            assert(n[i].0 == m[i].0);
        }
    } else {
        lemma_insert_names(m.skip(1), k, v);
        let t = spec_insert(m.skip(1), k, v);
        assert forall|i: int| 0 <= i < n.len() implies (eq_ci(#[trigger] n[i].0, k) || exists|
            w: int,
        | 0 <= w < m.len() && n[i].0 == m[w].0) by {
            if i == 0 {
                assert(n[0].0 == m[0].0);
            } else {
                assert(n[i].0 == t[i - 1].0);
                if !eq_ci(t[i - 1].0, k) {
                    let w = choose|w: int| 0 <= w < m.skip(1).len() && t[i - 1].0 == m.skip(1)[w].0;
                    assert(m.skip(1)[w].0 == m[w + 1].0);
                }
            }
        }
    }
}

impl HeaderMap {
    /// The empty map.
    pub fn empty() -> (r: HeaderMap)
        ensures
            r@ =~= Seq::<(Seq<char>, Seq<char>)>::empty(),
            map_wf(r@),
    {
        HeaderMap(Vec::new())
    }

    /// Looks a name up, case-insensitively; returns the stored value.
    pub fn get_by_str_key(&self, key: &str) -> (r: Option<&str>)
        ensures
            match r {
                Some(v) => lookup(self@, key@) == Some(v@),
                None => lookup(self@, key@) is None,
            },
    {
        let mut i: usize = 0;
        let n = self.0.len();
        while i < n
            invariant
                n == self.0.len(),
                i <= n,
                forall|j: int| 0 <= j < i ==> !eq_ci(#[trigger] self@[j].0, key@),
            decreases n - i,
        {
            if str_eq_ci(self.0[i].0.0.as_str(), key) {
                proof {
                    lemma_lookup_at(self@, key@, i as int);
                }
                return Some(self.0[i].1.as_str());
            }
            i += 1;
        }
        proof {
            lemma_lookup_absent(self@, key@);
        }
        None
    }

    /// Looks a name up and parses the value as a decimal number.
    pub fn get_by_str_key_as(&self, key: &str) -> (r: Option<usize>)
        ensures
            r == dec_value_of(lookup(self@, key@)),
    {
        match self.get_by_str_key(key) {
            Some(v) => parse_dec_usize(v),
            None => None,
        }
    }

    /// Inserts a (name, value) pair; a case-variant of an existing name
    /// replaces that entry's value and keeps its stored casing.
    pub fn insert_by_str_key_value(&mut self, key: &str, value: &str)
        ensures
            final(self)@ == spec_insert(old(self)@, key@, value@),
    {
        let ghost m = self@;
        let mut i: usize = 0;
        let n = self.0.len();
        while i < n
            invariant
                n == self.0.len(),
                i <= n,
                self@ == m,
                m == old(self)@,
                forall|j: int| 0 <= j < i ==> !eq_ci(#[trigger] self@[j].0, key@),
            decreases n - i,
        {
            if str_eq_ci(self.0[i].0.0.as_str(), key) {
                let ghost before = self.0@;
                let (k, _) = self.0.remove(i);
                let ghost removed = self.0@;
                self.0.insert(i, (k, value.to_owned()));
                proof {
                    lemma_insert_at(m, key@, value@, i as int);
                    assert(k == before[i as int].0);
                    assert(removed == before.remove(i as int));
                    assert(self.0@.len() == before.len());
                    assert(forall|j: int| 0 <= j < i ==> self.0@[j] == before[j]);
                    assert forall|j: int| i < j < before.len() implies self.0@[j] == before[j] by {
                        assert(self.0@[j] == removed[j - 1]);
                        assert(removed[j - 1] == before[j]);
                    }
                    assert(self.0@[i as int].0 == before[i as int].0);
                    assert(self.0@[i as int].1@ == value@);
                    assert(self@ =~= m.update(i as int, (m[i as int].0, value@)));
                }
                return ;
            }
            i += 1;
        }
        self.0.push((HeaderKey(key.to_owned()), value.to_owned()));
        proof {
            lemma_insert_append(m, key@, value@);
            assert(self@ =~= m.push((key@, value@)));
        }
    }

    /// Removes the entry whose name matches `key` case-insensitively,
    /// when one is there.
    pub fn remove_by_str_key(&mut self, key: &str)
        ensures
            final(self)@ == spec_remove(old(self)@, key@),
    {
        let ghost m = self@;
        let mut i: usize = 0;
        let n = self.0.len();
        while i < n
            invariant
                n == self.0.len(),
                i <= n,
                self@ == m,
                m == old(self)@,
                forall|j: int| 0 <= j < i ==> !eq_ci(#[trigger] self@[j].0, key@),
            decreases n - i,
        {
            if str_eq_ci(self.0[i].0.0.as_str(), key) {
                let ghost before = self.0@;
                let _ = self.0.remove(i);
                proof {
                    lemma_remove_at(m, key@, i as int);
                    assert(self.0@ == before.remove(i as int));
                    assert(self@ =~= m.remove(i as int));
                }
                return ;
            }
            i += 1;
        }
        proof {
            lemma_remove_absent(m, key@);
        }
    }

    /// Whether the name is present with a value equal to `value` up to
    /// ASCII case.
    pub fn contains_by_str_key_value(&self, key: &str, value: &str) -> (r: bool)
        ensures
            r == match lookup(self@, key@) {
                Some(v) => eq_ci(v, value@),
                None => false,
            },
    {
        match self.get_by_str_key(key) {
            Some(v) => str_eq_ci(v, value),
            None => false,
        }
    }

    /// Appends the serialized header block, one `name ": " value CRLF`
    /// line per entry, in map order.
    pub fn write_to(&self, out: &mut Vec<u8>)
        ensures
            final(out)@ == old(out)@ + serial_headers(self@),
    {
        let ghost base = out@;
        let mut i: usize = 0;
        let n = self.0.len();
        proof {
            assert(self@.take(0) =~= Seq::<(Seq<char>, Seq<char>)>::empty());
            assert(base + serial_headers(self@.take(0)) =~= base);
        }
        while i < n
            invariant
                n == self.0.len(),
                i <= n,
                out@ == base + serial_headers(self@.take(i as int)),
            decreases n - i,
        {
            push_str_bytes(out, self.0[i].0.0.as_str());
            out.push(58);
            out.push(32);
            push_str_bytes(out, self.0[i].1.as_str());
            out.push(13);
            out.push(10);
            proof {
                lemma_serial_headers_snoc(self@, i as int);
                assert(out@ =~= base + serial_headers(self@.take(i + 1)));
            }
            i += 1;
        }
        proof {
            assert(self@.take(n as int) =~= self@);
        }
    }

    /// Builds a map from the header lines of a message: each line is split
    /// at its first ':', both sides are trimmed, and lines without a ':'
    /// (empty lines among them) are skipped.
    pub fn from_lines(ls: &[String]) -> (r: HeaderMap)
        ensures
            r@ == add_lines(Seq::<(Seq<char>, Seq<char>)>::empty(), views_of(ls@)),
            map_wf(r@),
    {
        let ghost text = views_of(ls@);
        let mut map = HeaderMap::empty();
        let mut i: usize = 0;
        let n = ls.len();
        proof {
            assert(text.skip(0) =~= text);
        }
        while i < n
            invariant
                n == ls@.len(),
                i <= n,
                text == views_of(ls@),
                text.len() == n,
                forall|j: int| 0 <= j < n ==> #[trigger] ls@[j]@ == text[j],
                map_wf(map@),
                add_lines(Seq::<(Seq<char>, Seq<char>)>::empty(), text) == add_lines(
                    map@,
                    text.skip(i as int),
                ),
            decreases n - i,
        {
            let ghost pre = map@;
            let line: &str = ls[i].as_str();
            let llen = line.unicode_len();
            match find_char_from(line, ':', 0) {
                Some(c) => {
                    proof {
                        lemma_first_index_unique(line@, ':', c as int);
                    }
                    let key = trim(line.substring_char(0, c));
                    let value = trim(line.substring_char(c + 1, llen));
                    proof {
                        assert(line@.skip(c + 1) =~= line@.subrange(c + 1, line@.len() as int));
                    }
                    map.insert_by_str_key_value(key, value);
                    proof {
                        lemma_insert_wf(pre, key@, value@);
                    }
                },
                None => {
                    proof {
                        lemma_first_index_absent(line@, ':');
                    }
                },
            }
            proof {
                assert(text.skip(i as int)[0] == text[i as int]);
                assert(text.skip(i as int).skip(1) =~= text.skip(i + 1));
                assert(add_lines(pre, text.skip(i as int)) == add_lines(map@, text.skip(i + 1)));
            }
            i += 1;
        }
        proof {
            assert(text.skip(n as int) =~= Seq::<Seq<char>>::empty());
        }
        map
    }
}

/// The character sequences of a list of owned strings.
pub open spec fn views_of(ls: Seq<String>) -> Seq<Seq<char>> {
    ls.map_values(|l: String| l@)
}

impl Default for HeaderMap {
    fn default() -> (r: HeaderMap)
        ensures
            r@ =~= Seq::<(Seq<char>, Seq<char>)>::empty(),
    {
        HeaderMap(Vec::new())
    }
}

/// A decimal reading of an optional header value.
pub open spec fn dec_value_of(v: Option<Seq<char>>) -> Option<usize> {
    match v {
        Some(s) => if s.len() > 0 && all_digits(s) && dec_val(s) <= usize::MAX {
            Some(dec_val(s) as usize)
        } else {
            None
        },
        None => None,
    }
}

/// One line is parsed as a (name, value) pair when it holds a ':'.
pub open spec fn parse_header_line(l: Seq<char>) -> Option<(Seq<char>, Seq<char>)> {
    let i = first_index_of(l, ':');
    if 0 <= i < l.len() {
        Some((trim_spec(l.take(i)), trim_spec(l.skip(i + 1))))
    } else {
        None
    }
}

/// Folds header lines into a map, inserting left to right.
pub open spec fn add_lines(
    m: Seq<(Seq<char>, Seq<char>)>,
    ls: Seq<Seq<char>>,
) -> Seq<(Seq<char>, Seq<char>)>
    decreases ls.len(),
{
    if ls.len() == 0 {
        m
    } else {
        let m2 = match parse_header_line(ls[0]) {
            Some((k, v)) => spec_insert(m, k, v),
            None => m,
        };
        add_lines(m2, ls.skip(1))
    }
}

/// The serialized header block: `name ": " value CRLF` per entry.
pub open spec fn serial_headers(m: Seq<(Seq<char>, Seq<char>)>) -> Seq<u8>
    decreases m.len(),
{
    if m.len() == 0 {
        seq![]
    } else {
        serial_headers(m.drop_last()) + serial_header_entry(m.last())
    }
}

pub open spec fn serial_header_entry(e: (Seq<char>, Seq<char>)) -> Seq<u8> {
    encode_utf8(e.0) + seq![58u8, 32u8] + encode_utf8(e.1) + seq![13u8, 10u8]
}

pub proof fn lemma_serial_headers_snoc(m: Seq<(Seq<char>, Seq<char>)>, i: int)
    requires
        0 <= i < m.len(),
    ensures
        serial_headers(m.take(i + 1)) == serial_headers(m.take(i)) + serial_header_entry(m[i]),
{
    assert(m.take(i + 1).drop_last() =~= m.take(i));
    assert(m.take(i + 1).last() == m[i]);
}

/// Removing drops the first entry whose name matches case-insensitively
/// and keeps everything else.
pub open spec fn spec_remove(
    m: Seq<(Seq<char>, Seq<char>)>,
    k: Seq<char>,
) -> Seq<(Seq<char>, Seq<char>)>
    decreases m.len(),
{
    if m.len() == 0 {
        m
    } else if eq_ci(m[0].0, k) {
        m.skip(1)
    } else {
        seq![m[0]] + spec_remove(m.skip(1), k)
    }
}

/// When the first case-insensitive match is at `i`, removal drops that
/// entry.
pub proof fn lemma_remove_at(m: Seq<(Seq<char>, Seq<char>)>, k: Seq<char>, i: int)
    requires
        0 <= i < m.len(),
        eq_ci(m[i].0, k),
        forall|j: int| 0 <= j < i ==> !eq_ci(#[trigger] m[j].0, k),
    ensures
        spec_remove(m, k) == m.remove(i),
    decreases i,
{
    if i == 0 {
        assert(m.skip(1) =~= m.remove(0));
    } else {
        assert(!eq_ci(m[0].0, k));
        lemma_remove_at(m.skip(1), k, i - 1);
        assert(seq![m[0]] + m.skip(1).remove(i - 1) =~= m.remove(i));
    }
}

/// With no case-insensitive match, removal changes nothing.
pub proof fn lemma_remove_absent(m: Seq<(Seq<char>, Seq<char>)>, k: Seq<char>)
    requires
        forall|j: int| 0 <= j < m.len() ==> !eq_ci(#[trigger] m[j].0, k),
    ensures
        spec_remove(m, k) == m,
    decreases m.len(),
{
    if m.len() > 0 {
        lemma_remove_absent(m.skip(1), k);
        assert(seq![m[0]] + m.skip(1) =~= m);
    }
}

/// After a removal, the removed name looks up to nothing.
pub proof fn lemma_lookup_remove(m: Seq<(Seq<char>, Seq<char>)>, k: Seq<char>, q: Seq<char>)
    requires
        map_wf(m),
    ensures
        eq_ci(k, q) ==> lookup(spec_remove(m, k), q) is None,
        !eq_ci(k, q) ==> lookup(spec_remove(m, k), q) == lookup(m, q),
    decreases m.len(),
{
    let n = spec_remove(m, k);
    if m.len() == 0 {
    } else if eq_ci(m[0].0, k) {
        assert(n =~= m.skip(1));
        if eq_ci(k, q) {
            assert forall|j: int| 0 <= j < m.skip(1).len() implies !eq_ci(
                (#[trigger] m.skip(1)[j]).0,
                q,
            ) by {
                assert(m.skip(1)[j] == m[j + 1]);
                if eq_ci(m[j + 1].0, q) {
                    // m[0].0 ~ k ~ q ~ m[j+1].0 breaks uniqueness
                    lemma_eq_ci_symmetric(k, q);
                    lemma_eq_ci_transitive(m[j + 1].0, q, k);
                    lemma_eq_ci_symmetric(m[j + 1].0, k);
                    lemma_eq_ci_transitive(m[0].0, k, m[j + 1].0);
                }
            }
            lemma_lookup_absent(m.skip(1), q);
        } else {
            if eq_ci(m[0].0, q) {
                lemma_eq_ci_symmetric(m[0].0, k);
                lemma_eq_ci_transitive(k, m[0].0, q);
            }
            assert(!eq_ci(m[0].0, q));
        }
    } else {
        assert(n == seq![m[0]] + spec_remove(m.skip(1), k));
        assert(n[0] == m[0]);
        assert(n.skip(1) =~= spec_remove(m.skip(1), k));
        assert(map_wf(m.skip(1))) by {
            assert(forall|i: int, j: int|
                0 <= i < j < m.skip(1).len() ==> m.skip(1)[i] == m[i + 1] && m.skip(1)[j] == m[j
                    + 1]);
        }
        lemma_lookup_remove(m.skip(1), k, q);
        if eq_ci(k, q) && eq_ci(m[0].0, q) {
            lemma_eq_ci_symmetric(k, q);
            lemma_eq_ci_transitive(m[0].0, q, k);
        }
    }
}

// ---------------------------------------------------------------------------
// Canonical entries: serialization that parses back
// ---------------------------------------------------------------------------

/// The text of one serialized header line, without its CR LF.
pub open spec fn header_line_text(e: (Seq<char>, Seq<char>)) -> Seq<char> {
    e.0 + seq![':', ' '] + e.1
}

/// A canonical entry: the name non-empty and free of ':', both sides
/// free of line terminators and stable under trimming.
pub open spec fn entry_wf(e: (Seq<char>, Seq<char>)) -> bool {
    &&& e.0.len() > 0
    &&& forall|j: int|
        0 <= j < e.0.len() ==> #[trigger] e.0[j] != ':' && e.0[j] != '\r' && e.0[j] != '\n'
            && !crate::text::is_ws(e.0[j])
    &&& forall|j: int| 0 <= j < e.1.len() ==> #[trigger] e.1[j] != '\r' && e.1[j] != '\n'
    &&& e.1.len() > 0 ==> !crate::text::is_ws(e.1[0]) && !crate::text::is_ws(e.1.last())
}

/// A canonical entry's line parses back to the entry.
pub proof fn lemma_parse_header_line(e: (Seq<char>, Seq<char>))
    requires
        entry_wf(e),
    ensures
        parse_header_line(header_line_text(e)) == Some(e),
{
    let l = header_line_text(e);
    let k = e.0;
    let v = e.1;
    assert(l[k.len() as int] == ':');
    assert forall|j: int| 0 <= j < k.len() implies l[j] != ':' by {
        assert(l[j] == k[j]);
    }
    lemma_first_index_unique(l, ':', k.len() as int);
    assert(l.take(k.len() as int) =~= k);
    crate::text::lemma_trim_no_ws(k);
    let after = l.skip(k.len() as int + 1);
    assert(after =~= seq![' '] + v);
    assert(trim_spec(after) == trim_spec(v)) by {
        assert(after.len() > 0 && crate::text::is_ws(after[0]));
        assert(after.skip(1) =~= v);
    }
    crate::text::lemma_trim_no_ws(v);
}

/// The serialized lines of a header block, one per entry.
pub open spec fn header_lines_text(m: Seq<(Seq<char>, Seq<char>)>) -> Seq<Seq<char>> {
    m.map_values(|e: (Seq<char>, Seq<char>)| header_line_text(e))
}

/// Folding the serialized lines of a duplicate-free block onto an
/// accumulator that shares no name with it appends the block unchanged.
pub proof fn lemma_add_lines_build(
    acc: Seq<(Seq<char>, Seq<char>)>,
    m: Seq<(Seq<char>, Seq<char>)>,
)
    requires
        forall|i: int| 0 <= i < m.len() ==> entry_wf(#[trigger] m[i]),
        map_wf(m),
        forall|i: int, j: int|
            0 <= i < acc.len() && 0 <= j < m.len() ==> !eq_ci(
                (#[trigger] acc[i]).0,
                (#[trigger] m[j]).0,
            ),
    ensures
        add_lines(acc, header_lines_text(m)) == acc + m,
    decreases m.len(),
{
    let ls = header_lines_text(m);
    assert(ls.len() == m.len());
    if m.len() == 0 {
        assert(acc + m =~= acc);
    } else {
        assert(ls[0] == header_line_text(m[0]));
        lemma_parse_header_line(m[0]);
        lemma_insert_append(acc, m[0].0, m[0].1);
        assert(spec_insert(acc, m[0].0, m[0].1) == acc.push((m[0].0, m[0].1)));
        assert(acc.push((m[0].0, m[0].1)) =~= acc.push(m[0]));
        let acc2 = acc.push(m[0]);
        let m2 = m.skip(1);
        assert(forall|i: int| 0 <= i < m2.len() ==> m2[i] == m[i + 1]);
        assert(map_wf(m2));
        assert forall|i: int, j: int| 0 <= i < acc2.len() && 0 <= j < m2.len() implies !eq_ci(
            (#[trigger] acc2[i]).0,
            (#[trigger] m2[j]).0,
        ) by {
            if i < acc.len() {
                assert(acc2[i] == acc[i]);
            } else {
                assert(acc2[i] == m[0]);
            }
            assert(m2[j] == m[j + 1]);
        }
        lemma_add_lines_build(acc2, m2);
        assert(header_lines_text(m2) =~= ls.skip(1)) by {
            assert(forall|i: int|
                0 <= i < m2.len() ==> #[trigger] header_lines_text(m2)[i] == header_line_text(
                    m2[i],
                ));
            assert(forall|i: int|
                0 <= i < ls.skip(1).len() ==> #[trigger] ls.skip(1)[i] == ls[i + 1]);
        }
        assert(add_lines(acc, ls) == add_lines(acc2, ls.skip(1)));
        assert(acc2 + m2 =~= acc + m);
    }
}

/// A line without a ':' (the empty line among them) adds nothing.
pub proof fn lemma_add_lines_skip(acc: Seq<(Seq<char>, Seq<char>)>, l: Seq<char>)
    requires
        forall|j: int| 0 <= j < l.len() ==> l[j] != ':',
    ensures
        add_lines(acc, seq![l]) == acc,
{
    lemma_first_index_absent(l, ':');
    assert(parse_header_line(l) is None);
    assert(seq![l].len() == 1);
    assert(seq![l][0] == l);
    assert(add_lines(acc, seq![l]) == add_lines(acc, seq![l].skip(1)));
    assert(seq![l].skip(1) =~= Seq::<Seq<char>>::empty());
    assert(add_lines(acc, Seq::<Seq<char>>::empty()) == acc);
}

/// The serialized header block as text: one `name ": " value CRLF` line
/// per entry.
pub open spec fn serial_headers_text(m: Seq<(Seq<char>, Seq<char>)>) -> Seq<char>
    decreases m.len(),
{
    if m.len() == 0 {
        seq![]
    } else {
        header_line_text(m[0]) + seq!['\r', '\n'] + serial_headers_text(m.skip(1))
    }
}

/// The serialized block taken one entry off the front.
pub proof fn lemma_serial_headers_cons(m: Seq<(Seq<char>, Seq<char>)>)
    requires
        m.len() > 0,
    ensures
        serial_headers(m) == serial_header_entry(m[0]) + serial_headers(m.skip(1)),
    decreases m.len(),
{
    if m.len() == 1 {
        assert(m.drop_last() =~= Seq::<(Seq<char>, Seq<char>)>::empty());
        assert(m.skip(1) =~= Seq::<(Seq<char>, Seq<char>)>::empty());
        assert(serial_headers(m) =~= serial_header_entry(m[0]) + serial_headers(m.skip(1)));
    } else {
        let d = m.drop_last();
        lemma_serial_headers_cons(d);
        assert(d[0] == m[0]);
        assert(serial_headers(m) == serial_headers(d) + serial_header_entry(m.last()));
        assert(m.skip(1).drop_last() =~= d.skip(1));
        assert(m.skip(1).len() > 0);
        assert(m.skip(1).last() == m.last());
        assert(serial_headers(m.skip(1)) == serial_headers(d.skip(1)) + serial_header_entry(
            m.last(),
        ));
        assert((serial_header_entry(m[0]) + serial_headers(d.skip(1))) + serial_header_entry(
            m.last(),
        ) =~= serial_header_entry(m[0]) + (serial_headers(d.skip(1)) + serial_header_entry(
            m.last(),
        )));
    }
}

/// The serialized bytes are the UTF-8 encoding of the serialized text.
pub proof fn lemma_serial_headers_encode(m: Seq<(Seq<char>, Seq<char>)>)
    ensures
        serial_headers(m) == encode_utf8(serial_headers_text(m)),
    decreases m.len(),
{
    if m.len() == 0 {
        assert(serial_headers_text(m) =~= Seq::<char>::empty());
        assert(serial_headers(m) =~= encode_utf8(serial_headers_text(m)));
    } else {
        lemma_serial_headers_cons(m);
        lemma_serial_headers_encode(m.skip(1));
        let e = m[0];
        let line = header_line_text(e) + seq!['\r', '\n'];
        crate::text::lemma_encode_utf8_concat(line, serial_headers_text(m.skip(1)));
        assert(serial_headers_text(m) =~= line + serial_headers_text(m.skip(1)));
        assert(encode_utf8(line) =~= serial_header_entry(e)) by {
            let c1 = seq![':', ' '];
            let c2 = seq!['\r', '\n'];
            let x = e.1 + c2;
            let y = c1 + x;
            assert(line =~= e.0 + y);
            crate::text::lemma_encode_utf8_concat(e.0, y);
            crate::text::lemma_encode_utf8_concat(c1, x);
            crate::text::lemma_encode_utf8_concat(e.1, c2);
            assert(encode_utf8(line) == encode_utf8(e.0) + (encode_utf8(c1) + (encode_utf8(e.1)
                + encode_utf8(c2))));
            assert(encode_utf8(c1) =~= seq![58u8, 32u8]) by {
                lemma_encode_two(':', ' ', 58, 32);
            }
            assert(encode_utf8(c2) =~= seq![13u8, 10u8]) by {
                lemma_encode_two('\r', '\n', 13, 10);
            }
            assert(serial_header_entry(e) =~= encode_utf8(e.0) + (seq![58u8, 32u8] + (encode_utf8(
                e.1,
            ) + seq![13u8, 10u8])));
        }
    }
}

/// The one-byte encoding of an ASCII character.
pub proof fn lemma_encode_one(a: char, x: u8)
    requires
        a as u32 == x as u32,
        (a as u32) < 128,
    ensures
        encode_utf8(seq![a]) =~= seq![x],
{
    let s = seq![a];
    assert(vstd::utf8::is_ascii_chars(s)) by {
        assert(forall|j: int| 0 <= j < s.len() ==> '\0' <= #[trigger] s[j] <= '\u{7f}');
    }
    vstd::utf8::is_ascii_chars_encode_utf8(s);
    assert(encode_utf8(s).len() == 1);
    assert(encode_utf8(s)[0] == a as u8);
}

/// The two-byte encoding of a pair of ASCII characters.
pub proof fn lemma_encode_two(a: char, b: char, x: u8, y: u8)
    requires
        a as u32 == x as u32,
        b as u32 == y as u32,
        (a as u32) < 128,
        (b as u32) < 128,
    ensures
        encode_utf8(seq![a, b]) =~= seq![x, y],
{
    let s = seq![a, b];
    assert(vstd::utf8::is_ascii_chars(s)) by {
        assert(forall|j: int| 0 <= j < s.len() ==> '\0' <= #[trigger] s[j] <= '\u{7f}');
    }
    vstd::utf8::is_ascii_chars_encode_utf8(s);
    assert(encode_utf8(s).len() == 2);
    assert(encode_utf8(s)[0] == a as u8);
    assert(encode_utf8(s)[1] == b as u8);
}

/// Joining the block's lines plus one final empty line gives the
/// serialized text plus its closing CR LF.
pub proof fn lemma_join_header_lines(m: Seq<(Seq<char>, Seq<char>)>)
    ensures
        crate::text::join_crlf(header_lines_text(m) + seq![Seq::<char>::empty()])
            == serial_headers_text(m) + seq!['\r', '\n'],
    decreases m.len(),
{
    let ls = header_lines_text(m) + seq![Seq::<char>::empty()];
    if m.len() == 0 {
        assert(header_lines_text(m) =~= Seq::<Seq<char>>::empty());
        assert(ls =~= seq![Seq::<char>::empty()]);
        assert(ls[0] =~= Seq::<char>::empty());
        assert(ls.skip(1) =~= Seq::<Seq<char>>::empty());
        assert(crate::text::join_crlf(ls.skip(1)) =~= Seq::<char>::empty());
        assert(crate::text::join_crlf(ls) == ls[0] + seq!['\r', '\n'] + crate::text::join_crlf(
            ls.skip(1),
        ));
        assert(crate::text::join_crlf(ls) =~= seq!['\r', '\n']);
        assert(serial_headers_text(m) =~= Seq::<char>::empty());
        assert(serial_headers_text(m) + seq!['\r', '\n'] =~= seq!['\r', '\n']);
    } else {
        lemma_join_header_lines(m.skip(1));
        assert(ls.len() == m.len() + 1);
        assert(ls[0] == header_line_text(m[0]));
        assert(ls.skip(1) =~= header_lines_text(m.skip(1)) + seq![Seq::<char>::empty()]) by {
            assert(forall|i: int|
                0 <= i < m.len() ==> #[trigger] header_lines_text(m)[i] == header_line_text(m[i]));
            assert(forall|i: int|
                0 <= i < m.skip(1).len() ==> #[trigger] header_lines_text(m.skip(1))[i]
                    == header_line_text(m[i + 1]));
        }
        assert(crate::text::join_crlf(ls) == ls[0] + seq!['\r', '\n'] + crate::text::join_crlf(
            ls.skip(1),
        ));
        assert(header_line_text(m[0]) + seq!['\r', '\n'] + (serial_headers_text(m.skip(1)) + seq![
            '\r',
            '\n',
        ]) =~= serial_headers_text(m) + seq!['\r', '\n']);
    }
}

/// A block of ASCII entries serializes to ASCII text.
pub proof fn lemma_serial_headers_text_ascii(m: Seq<(Seq<char>, Seq<char>)>)
    requires
        forall|i: int|
            0 <= i < m.len() ==> vstd::utf8::is_ascii_chars((#[trigger] m[i]).0)
                && vstd::utf8::is_ascii_chars(m[i].1),
    ensures
        vstd::utf8::is_ascii_chars(serial_headers_text(m)),
    decreases m.len(),
{
    if m.len() == 0 {
        assert(serial_headers_text(m) =~= Seq::<char>::empty());
        assert(vstd::utf8::is_ascii_chars(serial_headers_text(m)));
    } else {
        assert(forall|i: int| 0 <= i < m.skip(1).len() ==> m.skip(1)[i] == m[i + 1]);
        lemma_serial_headers_text_ascii(m.skip(1));
        assert(vstd::utf8::is_ascii_chars(seq![':', ' '])) by {
            let s = seq![':', ' '];
            assert(forall|j: int| 0 <= j < s.len() ==> '\0' <= #[trigger] s[j] <= '\u{7f}');
        }
        assert(vstd::utf8::is_ascii_chars(seq!['\r', '\n'])) by {
            let s = seq!['\r', '\n'];
            assert(forall|j: int| 0 <= j < s.len() ==> '\0' <= #[trigger] s[j] <= '\u{7f}');
        }
        crate::text::lemma_ascii_concat2(m[0].0, seq![':', ' ']);
        crate::text::lemma_ascii_concat2(m[0].0 + seq![':', ' '], m[0].1);
        assert(vstd::utf8::is_ascii_chars(header_line_text(m[0])));
        crate::text::lemma_ascii_concat2(header_line_text(m[0]), seq!['\r', '\n']);
        crate::text::lemma_ascii_concat2(
            header_line_text(m[0]) + seq!['\r', '\n'],
            serial_headers_text(m.skip(1)),
        );
        assert(serial_headers_text(m) =~= (header_line_text(m[0]) + seq!['\r', '\n'])
            + serial_headers_text(m.skip(1)));
    }
}

/// Folding one list of lines after another.
pub proof fn lemma_add_lines_append(
    acc: Seq<(Seq<char>, Seq<char>)>,
    ls1: Seq<Seq<char>>,
    ls2: Seq<Seq<char>>,
)
    ensures
        add_lines(acc, ls1 + ls2) == add_lines(add_lines(acc, ls1), ls2),
    decreases ls1.len(),
{
    if ls1.len() == 0 {
        assert(ls1 + ls2 =~= ls2);
    } else {
        let s = ls1 + ls2;
        assert(s[0] == ls1[0]);
        assert(s.skip(1) =~= ls1.skip(1) + ls2);
        let acc2 = match parse_header_line(ls1[0]) {
            Some((k, v)) => spec_insert(acc, k, v),
            None => acc,
        };
        lemma_add_lines_append(acc2, ls1.skip(1), ls2);
        assert(add_lines(acc, s) == add_lines(acc2, s.skip(1)));
        assert(add_lines(acc, ls1) == add_lines(acc2, ls1.skip(1)));
    }
}

// ---------------------------------------------------------------------------
// Counting entries by name
// ---------------------------------------------------------------------------

/// How many entries carry a name case-insensitively equal to `k`.
pub open spec fn count_matching(m: Seq<(Seq<char>, Seq<char>)>, k: Seq<char>) -> int
    decreases m.len(),
{
    if m.len() == 0 {
        0
    } else {
        (if eq_ci(m[0].0, k) {
            1int
        } else {
            0int
        }) + count_matching(m.skip(1), k)
    }
}

pub proof fn lemma_count_absent(m: Seq<(Seq<char>, Seq<char>)>, k: Seq<char>)
    requires
        forall|j: int| 0 <= j < m.len() ==> !eq_ci(#[trigger] m[j].0, k),
    ensures
        count_matching(m, k) == 0,
    decreases m.len(),
{
    if m.len() > 0 {
        lemma_count_absent(m.skip(1), k);
    }
}

/// After inserting under `k` into a map without duplicate names, exactly
/// one entry matches any case variant `q` of `k`.
pub proof fn lemma_insert_count(
    m: Seq<(Seq<char>, Seq<char>)>,
    k: Seq<char>,
    v: Seq<char>,
    q: Seq<char>,
)
    requires
        map_wf(m),
        eq_ci(k, q),
    ensures
        count_matching(spec_insert(m, k, v), q) == 1,
    decreases m.len(),
{
    let n = spec_insert(m, k, v);
    if m.len() == 0 {
        assert(n == seq![(k, v)]);
        assert(eq_ci(n[0].0, q));
        assert(n.skip(1) =~= Seq::<(Seq<char>, Seq<char>)>::empty());
        assert(count_matching(n.skip(1), q) == 0);
        assert(count_matching(n, q) == 1 + count_matching(n.skip(1), q));
    } else if eq_ci(m[0].0, k) {
        assert(n == seq![(m[0].0, v)] + m.skip(1));
        assert(n.skip(1) =~= m.skip(1));
        assert(eq_ci(n[0].0, q)) by {
            lemma_eq_ci_transitive(m[0].0, k, q);
        }
        assert forall|j: int| 0 <= j < m.skip(1).len() implies !eq_ci(
            (#[trigger] m.skip(1)[j]).0,
            q,
        ) by {
            assert(m.skip(1)[j] == m[j + 1]);
            if eq_ci(m[j + 1].0, q) {
                lemma_eq_ci_symmetric(k, q);
                lemma_eq_ci_transitive(m[j + 1].0, q, k);
                lemma_eq_ci_symmetric(m[j + 1].0, k);
                lemma_eq_ci_transitive(m[0].0, k, m[j + 1].0);
            }
        }
        lemma_count_absent(m.skip(1), q);
        assert(count_matching(n, q) == 1 + count_matching(n.skip(1), q));
    } else {
        assert(n == seq![m[0]] + spec_insert(m.skip(1), k, v));
        assert(n[0] == m[0]);
        assert(n.skip(1) =~= spec_insert(m.skip(1), k, v));
        assert(!eq_ci(n[0].0, q)) by {
            if eq_ci(m[0].0, q) {
                lemma_eq_ci_symmetric(k, q);
                lemma_eq_ci_transitive(m[0].0, q, k);
            }
        }
        assert(map_wf(m.skip(1))) by {
            assert(forall|i: int, j: int|
                0 <= i < j < m.skip(1).len() ==> m.skip(1)[i] == m[i + 1] && m.skip(1)[j] == m[j
                    + 1]);
        }
        lemma_insert_count(m.skip(1), k, v, q);
        assert(count_matching(n, q) == count_matching(n.skip(1), q));
    }
}

/// When the first case-insensitive match is at `i`, inserting updates
/// that entry in place.
pub proof fn lemma_insert_at(m: Seq<(Seq<char>, Seq<char>)>, k: Seq<char>, v: Seq<char>, i: int)
    requires
        0 <= i < m.len(),
        eq_ci(m[i].0, k),
        forall|j: int| 0 <= j < i ==> !eq_ci(#[trigger] m[j].0, k),
    ensures
        spec_insert(m, k, v) == m.update(i, (m[i].0, v)),
    decreases i,
{
    if i == 0 {
        assert(spec_insert(m, k, v) == seq![(m[0].0, v)] + m.skip(1));
        assert(seq![(m[0].0, v)] + m.skip(1) =~= m.update(0, (m[0].0, v)));
    } else {
        assert(!eq_ci(m[0].0, k));
        lemma_insert_at(m.skip(1), k, v, i - 1);
        assert(m.skip(1)[i - 1] == m[i]);
        assert(spec_insert(m, k, v) == seq![m[0]] + m.skip(1).update(i - 1, (m[i].0, v)));
        assert(seq![m[0]] + m.skip(1).update(i - 1, (m[i].0, v)) =~= m.update(i, (m[i].0, v)));
    }
}

/// With no case-insensitive match, inserting appends.
pub proof fn lemma_insert_append(m: Seq<(Seq<char>, Seq<char>)>, k: Seq<char>, v: Seq<char>)
    requires
        forall|j: int| 0 <= j < m.len() ==> !eq_ci(#[trigger] m[j].0, k),
    ensures
        spec_insert(m, k, v) == m.push((k, v)),
    decreases m.len(),
{
    if m.len() == 0 {
        assert(spec_insert(m, k, v) =~= m.push((k, v)));
    } else {
        lemma_insert_append(m.skip(1), k, v);
        assert(spec_insert(m, k, v) == seq![m[0]] + m.skip(1).push((k, v)));
        assert(seq![m[0]] + m.skip(1).push((k, v)) =~= m.push((k, v)));
    }
}

} // verus!
