//! The routing table: patterns split on '/', with `{name}` segments
//! matching any single non-empty segment, literal segments compared
//! ASCII-case-insensitively, and first-match-wins lookup.

use vstd::prelude::*;

use crate::method::Method;
use crate::text::{
    eq_ci, fold_scalar, first_index_of, lemma_eq_ci_reflexive, lemma_eq_ci_symmetric,
    lemma_first_index_of, split_on, split_str, str_eq_ci,
};

verus! {

/// Whether a pattern segment is a named wildcard `{name}`.
pub open spec fn is_wildcard(s: Seq<char>) -> bool {
    s.len() > 0 && s[0] == '{' && s[s.len() - 1] == '}'
}

/// Whether `s` names a path segment to be captured, i.e. `{name}`.
pub fn named_path_filter(s: &str) -> (r: bool)
    ensures
        r == is_wildcard(s@),
{
    let len = s.unicode_len();
    len > 0 && s.get_char(0) == '{' && s.get_char(len - 1) == '}'
}

/// One aligned segment pair matches: a wildcard on either side takes any
/// single non-empty segment; literals must be equal up to ASCII case.
pub open spec fn seg_match(a: Seq<char>, b: Seq<char>) -> bool {
    if is_wildcard(a) || is_wildcard(b) {
        a.len() > 0 && b.len() > 0
    } else {
        eq_ci(a, b)
    }
}

/// Wildcard-aware equality of two route patterns.
pub open spec fn route_match(a: Seq<char>, b: Seq<char>) -> bool {
    let sa = split_on(a, '/');
    let sb = split_on(b, '/');
    sa.len() == sb.len() && forall|i: int| 0 <= i < sa.len() ==> seg_match(#[trigger] sa[i], sb[i])
}

fn seg_match_str(a: &str, b: &str) -> (r: bool)
    ensures
        r == seg_match(a@, b@),
{
    if named_path_filter(a) || named_path_filter(b) {
        a.unicode_len() > 0 && b.unicode_len() > 0
    } else {
        str_eq_ci(a, b)
    }
}

/// Wildcard-aware equality of two patterns given as strings.
pub fn route_match_str(a: &str, b: &str) -> (r: bool)
    ensures
        r == route_match(a@, b@),
{
    let sa = split_str(a, '/');
    let sb = split_str(b, '/');
    if sa.len() != sb.len() {
        return false;
    }
    let n = sa.len();
    let mut i: usize = 0;
    while i < n
        invariant
            n == sa@.len(),
            n == sb@.len(),
            i <= n,
            sa@.len() == split_on(a@, '/').len(),
            sb@.len() == split_on(b@, '/').len(),
            forall|j: int| 0 <= j < n ==> #[trigger] sa@[j]@ == split_on(a@, '/')[j],
            forall|j: int| 0 <= j < n ==> #[trigger] sb@[j]@ == split_on(b@, '/')[j],
            forall|j: int| 0 <= j < i ==> seg_match(#[trigger] split_on(a@, '/')[j], split_on(b@, '/')[j]),
        decreases n - i,
    {
        if !seg_match_str(sa[i].as_str(), sb[i].as_str()) {
            return false;
        }
        i += 1;
    }
    true
}

/// A route pattern; two keys are equal when they match wildcard-aware.
#[derive(Clone, Debug)]
pub struct RouteKey(pub String);

impl PartialEq for RouteKey {
    fn eq(&self, other: &Self) -> (r: bool) {
        route_match_str(self.0.as_str(), other.0.as_str())
    }
}

impl vstd::std_specs::cmp::PartialEqSpecImpl for RouteKey {
    open spec fn obeys_eq_spec() -> bool {
        true
    }

    open spec fn eq_spec(&self, other: &Self) -> bool {
        route_match(self.0@, other.0@)
    }
}

/// Every pattern matches itself: wildcard segments are non-empty by shape,
/// and literal comparison is reflexive.
pub proof fn lemma_route_match_reflexive(a: Seq<char>)
    ensures
        route_match(a, a),
{
    assert forall|i: int| 0 <= i < split_on(a, '/').len() implies seg_match(
        #[trigger] split_on(a, '/')[i],
        split_on(a, '/')[i],
    ) by {
        lemma_eq_ci_reflexive(split_on(a, '/')[i]);
    }
}

/// Matching is symmetric.
pub proof fn lemma_route_match_symmetric(a: Seq<char>, b: Seq<char>)
    ensures
        route_match(a, b) == route_match(b, a),
{
    assert forall|x: Seq<char>, y: Seq<char>| #[trigger] seg_match(x, y) implies seg_match(y, x) by {
        if !(is_wildcard(x) || is_wildcard(y)) {
            lemma_eq_ci_symmetric(x, y);
        }
    }
}

/// A wildcard segment accepts exactly the non-empty segments.
pub proof fn lemma_wildcard_segment(w: Seq<char>, s: Seq<char>)
    requires
        is_wildcard(w),
    ensures
        seg_match(w, s) == (s.len() > 0),
{
}

/// Patterns with differing segment counts never match.
pub proof fn lemma_route_match_counts(a: Seq<char>, b: Seq<char>)
    requires
        split_on(a, '/').len() != split_on(b, '/').len(),
    ensures
        !route_match(a, b),
{
}

/// Case variants of one pattern match each other: folding case moves no
/// '/' boundary and leaves every segment pair equal up to case.
pub proof fn lemma_route_match_ci(a: Seq<char>, b: Seq<char>)
    requires
        eq_ci(a, b),
    ensures
        route_match(a, b),
    decreases a.len(),
{
    lemma_first_index_ci(a, b);
    let i = first_index_of(a, '/');
    lemma_first_index_of(a, '/');
    lemma_first_index_of(b, '/');
    if i < 0 || i >= a.len() {
        assert(split_on(a, '/') == seq![a]);
        assert(split_on(b, '/') == seq![b]);
        assert(seg_match(a, b)) by {
            if is_wildcard(a) || is_wildcard(b) {
                assert(a.len() == b.len());
                assert(a.len() > 0);
            }
        }
        assert forall|j: int| 0 <= j < split_on(a, '/').len() implies seg_match(
            #[trigger] split_on(a, '/')[j],
            split_on(b, '/')[j],
        ) by {
            assert(split_on(a, '/')[0] == a);
        }
    } else {
        let ha = a.take(i);
        let hb = b.take(i);
        let ta = a.skip(i + 1);
        let tb = b.skip(i + 1);
        assert(eq_ci(ha, hb)) by {
            assert(forall|j: int| 0 <= j < i ==> ha[j] == a[j] && hb[j] == b[j]);
        }
        assert(eq_ci(ta, tb)) by {
            assert(forall|j: int|
                0 <= j < ta.len() ==> ta[j] == a[j + i + 1] && tb[j] == b[j + i + 1]);
        }
        lemma_route_match_ci(ta, tb);
        assert(split_on(a, '/') == seq![ha] + split_on(ta, '/'));
        assert(split_on(b, '/') == seq![hb] + split_on(tb, '/'));
        assert(seg_match(ha, hb)) by {
            if is_wildcard(ha) || is_wildcard(hb) {
                assert(ha.len() == hb.len());
                assert(ha.len() > 0);
            }
        }
        assert forall|j: int| 0 <= j < split_on(a, '/').len() implies seg_match(
            #[trigger] split_on(a, '/')[j],
            split_on(b, '/')[j],
        ) by {
            if j == 0 {
                assert(split_on(a, '/')[0] == ha);
                assert(split_on(b, '/')[0] == hb);
            } else {
                assert(split_on(a, '/')[j] == split_on(ta, '/')[j - 1]);
                assert(split_on(b, '/')[j] == split_on(tb, '/')[j - 1]);
            }
        }
    }
}

/// Case variants agree on where the first '/' sits.
proof fn lemma_first_index_ci(a: Seq<char>, b: Seq<char>)
    requires
        eq_ci(a, b),
    ensures
        first_index_of(a, '/') == first_index_of(b, '/'),
{
    lemma_first_index_of(a, '/');
    lemma_first_index_of(b, '/');
    let fa = first_index_of(a, '/');
    let fb = first_index_of(b, '/');
    assert(fold_scalar('/' as u32) == '/' as u32);
    assert forall|j: int| 0 <= j < a.len() implies (a[j] == '/') == (b[j] == '/') by {
        assert(fold_scalar(a[j] as u32) == fold_scalar(b[j] as u32));
        vstd::utf8::char_u32_cast(a[j], a[j] as u32);
        vstd::utf8::char_u32_cast(b[j], b[j] as u32);
        vstd::utf8::char_u32_cast('/', '/' as u32);
        if a[j] == '/' && b[j] != '/' {
            assert(fold_scalar(b[j] as u32) == '/' as u32);
            assert(b[j] as u32 == '/' as u32);
            assert((b[j] as u32) as char == b[j]);
        }
        if b[j] == '/' && a[j] != '/' {
            assert(fold_scalar(a[j] as u32) == '/' as u32);
            assert(a[j] as u32 == '/' as u32);
            assert((a[j] as u32) as char == a[j]);
        }
    }
    if fa < 0 && fb >= 0 {
        assert(a[fb] != '/');
    } else if fb < 0 && fa >= 0 {
        assert(b[fa] != '/');
    } else if fa >= 0 && fb >= 0 && fa < fb {
        assert(b[fa] != '/');
    } else if fa >= 0 && fb >= 0 && fb < fa {
        assert(a[fb] != '/');
    }
}

/// The handler bound to a method, first binding wins.
pub open spec fn method_lookup<H>(hs: Seq<(Method, H)>, m: Method) -> Option<H>
    decreases hs.len(),
{
    if hs.len() == 0 {
        None
    } else if hs[0].0 == m {
        Some(hs[0].1)
    } else {
        method_lookup(hs.skip(1), m)
    }
}

/// Replaces the binding of `m`, or appends one.
pub open spec fn method_insert<H>(hs: Seq<(Method, H)>, m: Method, h: H) -> Seq<(Method, H)>
    decreases hs.len(),
{
    if hs.len() == 0 {
        seq![(m, h)]
    } else if hs[0].0 == m {
        seq![(m, h)] + hs.skip(1)
    } else {
        seq![hs[0]] + method_insert(hs.skip(1), m, h)
    }
}

/// Looks the method up in a binding list.
pub fn method_handler<'a, H>(hs: &'a Vec<(Method, H)>, m: Method) -> (r: Option<&'a H>)
    ensures
        match r {
            Some(h) => method_lookup(hs@, m) == Some(*h),
            None => method_lookup(hs@, m) is None,
        },
{
    let mut i: usize = 0;
    let n = hs.len();
    while i < n
        invariant
            n == hs@.len(),
            i <= n,
            forall|j: int| 0 <= j < i ==> (#[trigger] hs@[j]).0 != m,
        decreases n - i,
    {
        if hs[i].0 == m {
            proof {
                lemma_method_lookup_at(hs@, m, i as int);
            }
            return Some(&hs[i].1);
        }
        i += 1;
    }
    proof {
        lemma_method_lookup_absent(hs@, m);
    }
    None
}

proof fn lemma_method_lookup_at<H>(hs: Seq<(Method, H)>, m: Method, i: int)
    requires
        0 <= i < hs.len(),
        hs[i].0 == m,
        forall|j: int| 0 <= j < i ==> (#[trigger] hs[j]).0 != m,
    ensures
        method_lookup(hs, m) == Some(hs[i].1),
    decreases i,
{
    if i > 0 {
        lemma_method_lookup_at(hs.skip(1), m, i - 1);
    }
}

proof fn lemma_method_lookup_absent<H>(hs: Seq<(Method, H)>, m: Method)
    requires
        forall|j: int| 0 <= j < hs.len() ==> (#[trigger] hs[j]).0 != m,
    ensures
        method_lookup(hs, m) is None,
    decreases hs.len(),
{
    if hs.len() > 0 {
        lemma_method_lookup_absent(hs.skip(1), m);
    }
}

/// The routing table: an ordered sequence of (pattern, method bindings),
/// looked up by wildcard-aware match, first match winning.
pub struct RouteMap<H> {
    pub all_routes: Vec<(RouteKey, Vec<(Method, H)>)>,
}

/// The first entry whose pattern matches `key`, or -1.
pub open spec fn first_match<H>(rs: Seq<(RouteKey, Vec<(Method, H)>)>, key: Seq<char>) -> int
    decreases rs.len(),
{
    if rs.len() == 0 {
        -1
    } else if route_match(rs[0].0.0@, key) {
        0
    } else {
        let r = first_match(rs.skip(1), key);
        if r < 0 {
            -1
        } else {
            r + 1
        }
    }
}

pub proof fn lemma_first_match<H>(rs: Seq<(RouteKey, Vec<(Method, H)>)>, key: Seq<char>)
    ensures
        first_match(rs, key) >= 0 ==> {
            &&& first_match(rs, key) < rs.len()
            &&& route_match(rs[first_match(rs, key)].0.0@, key)
            &&& forall|j: int|
                0 <= j < first_match(rs, key) ==> !route_match((#[trigger] rs[j]).0.0@, key)
        },
        first_match(rs, key) < 0 ==> (forall|j: int|
            0 <= j < rs.len() ==> !route_match((#[trigger] rs[j]).0.0@, key)),
    decreases rs.len(),
{
    if rs.len() == 0 {
    } else if route_match(rs[0].0.0@, key) {
    } else {
        lemma_first_match(rs.skip(1), key);
        assert(forall|j: int| 1 <= j < rs.len() ==> rs[j] == rs.skip(1)[j - 1]);
    }
}

proof fn lemma_first_match_at<H>(rs: Seq<(RouteKey, Vec<(Method, H)>)>, key: Seq<char>, i: int)
    requires
        0 <= i < rs.len(),
        route_match(rs[i].0.0@, key),
        forall|j: int| 0 <= j < i ==> !route_match((#[trigger] rs[j]).0.0@, key),
    ensures
        first_match(rs, key) == i,
{
    lemma_first_match(rs, key);
    let f = first_match(rs, key);
    if f < 0 {
        assert(!route_match(rs[i].0.0@, key));
    } else if f < i {
        assert(!route_match(rs[f].0.0@, key));
    } else if f > i {
        assert(!route_match(rs[i].0.0@, key));
    }
}

proof fn lemma_first_match_absent<H>(rs: Seq<(RouteKey, Vec<(Method, H)>)>, key: Seq<char>)
    requires
        forall|j: int| 0 <= j < rs.len() ==> !route_match((#[trigger] rs[j]).0.0@, key),
    ensures
        first_match(rs, key) < 0,
{
    lemma_first_match(rs, key);
    let f = first_match(rs, key);
    if f >= 0 {
        assert(!route_match(rs[f].0.0@, key));
    }
}

impl<H> RouteMap<H> {
    pub fn new() -> (r: Self)
        ensures
            r.all_routes@.len() == 0,
    {
        RouteMap { all_routes: Vec::new() }
    }

    /// The first entry whose pattern matches `key`.
    pub fn get(&self, key: &RouteKey) -> (r: Option<&(RouteKey, Vec<(Method, H)>)>)
        ensures
            match r {
                Some(p) => {
                    &&& first_match(self.all_routes@, key.0@) >= 0
                    &&& *p == self.all_routes@[first_match(self.all_routes@, key.0@)]
                },
                None => first_match(self.all_routes@, key.0@) < 0,
            },
    {
        let mut i: usize = 0;
        let n = self.all_routes.len();
        while i < n
            invariant
                n == self.all_routes@.len(),
                i <= n,
                forall|j: int|
                    0 <= j < i ==> !route_match((#[trigger] self.all_routes@[j]).0.0@, key.0@),
            decreases n - i,
        {
            if route_match_str(self.all_routes[i].0.0.as_str(), key.0.as_str()) {
                proof {
                    lemma_first_match_at(self.all_routes@, key.0@, i as int);
                }
                return Some(&self.all_routes[i]);
            }
            i += 1;
        }
        proof {
            lemma_first_match_absent(self.all_routes@, key.0@);
        }
        None
    }

    /// The index of the first entry whose pattern matches `key`; the
    /// caller may then change that entry's bindings.
    pub fn get_mut(&mut self, key: &RouteKey) -> (r: Option<usize>)
        ensures
            *final(self) == *old(self),
            match r {
                Some(i) => first_match(old(self).all_routes@, key.0@) == i as int,
                None => first_match(old(self).all_routes@, key.0@) < 0,
            },
    {
        let mut i: usize = 0;
        let n = self.all_routes.len();
        while i < n
            invariant
                self == old(self),
                n == self.all_routes@.len(),
                i <= n,
                forall|j: int|
                    0 <= j < i ==> !route_match((#[trigger] self.all_routes@[j]).0.0@, key.0@),
            decreases n - i,
        {
            if route_match_str(self.all_routes[i].0.0.as_str(), key.0.as_str()) {
                proof {
                    lemma_first_match_at(self.all_routes@, key.0@, i as int);
                }
                return Some(i);
            }
            i += 1;
        }
        proof {
            lemma_first_match_absent(self.all_routes@, key.0@);
        }
        None
    }

    /// Binds (key, method) to a handler: a pattern matching an existing
    /// entry adds the binding there; a new pattern is appended.
    pub fn insert(&mut self, key: RouteKey, method: Method, handler: H)
        ensures
            inserted(old(self).all_routes@, final(self).all_routes@, key.0@, method, handler),
    {
        let idx = self.get_mut(&key);
        proof {
            lemma_first_match(self.all_routes@, key.0@);
        }
        match idx {
            Some(i) => {
                let ghost rs = self.all_routes@;
                let (k, mut hs) = self.all_routes.remove(i);
                proof {
                    assert(k == rs[i as int].0);
                    assert(hs@ == rs[i as int].1@);
                }
                method_bind(&mut hs, method, handler);
                self.all_routes.insert(i, (k, hs));
                proof {
                    assert(forall|j: int| 0 <= j < i ==> self.all_routes@[j] == rs[j]);
                    assert forall|j: int| i < j < rs.len() implies self.all_routes@[j] == rs[j] by {
                        assert(self.all_routes@[j] == rs.remove(i as int)[j - 1]);
                    }
                    assert(self.all_routes@[i as int].0 == rs[i as int].0);
                    assert(self.all_routes@[i as int].1@ == method_insert(
                        rs[i as int].1@,
                        method,
                        handler,
                    ));
                }
            },
            None => {
                let mut hs: Vec<(Method, H)> = Vec::new();
                hs.push((method, handler));
                proof {
                    assert(hs@ =~= seq![(method, handler)]);
                }
                self.all_routes.push((key, hs));
            },
        }
    }
}

/// How a route table looks after one (key, method, handler) insertion:
/// the first matching entry gains the binding, or a new entry with just
/// that binding is appended.
pub open spec fn inserted<H>(
    before: Seq<(RouteKey, Vec<(Method, H)>)>,
    after: Seq<(RouteKey, Vec<(Method, H)>)>,
    key: Seq<char>,
    method: Method,
    handler: H,
) -> bool {
    let i = first_match(before, key);
    if i >= 0 {
        &&& after.len() == before.len()
        &&& forall|j: int| 0 <= j < before.len() && j != i ==> #[trigger] after[j] == before[j]
        &&& after[i].0 == before[i].0
        &&& after[i].1@ == method_insert(before[i].1@, method, handler)
    } else {
        &&& after.len() == before.len() + 1
        &&& forall|j: int| 0 <= j < before.len() ==> #[trigger] after[j] == before[j]
        &&& after.last().0.0@ == key
        &&& after.last().1@ == seq![(method, handler)]
    }
}

/// Replaces or appends one (method, handler) binding.
fn method_bind<H>(hs: &mut Vec<(Method, H)>, m: Method, h: H)
    ensures
        final(hs)@ == method_insert(old(hs)@, m, h),
{
    let ghost before = hs@;
    let mut i: usize = 0;
    let n = hs.len();
    while i < n
        invariant
            n == hs@.len(),
            hs@ == before,
            before == old(hs)@,
            i <= n,
            forall|j: int| 0 <= j < i ==> (#[trigger] hs@[j]).0 != m,
        decreases n - i,
    {
        if hs[i].0 == m {
            let _ = hs.remove(i);
            let ghost removed = hs@;
            hs.insert(i, (m, h));
            proof {
                lemma_method_insert_at(before, m, h, i as int);
                assert(forall|j: int| 0 <= j < i ==> hs@[j] == before[j]);
                assert forall|j: int| i < j < before.len() implies hs@[j] == before[j] by {
                    assert(hs@[j] == removed[j - 1]);
                }
                assert(hs@ =~= before.update(i as int, (m, h)));
            }
            return ;
        }
        i += 1;
    }
    hs.push((m, h));
    proof {
        lemma_method_insert_append(before, m, h);
        assert(hs@ =~= before.push((m, h)));
    }
}

proof fn lemma_method_insert_at<H>(hs: Seq<(Method, H)>, m: Method, h: H, i: int)
    requires
        0 <= i < hs.len(),
        hs[i].0 == m,
        forall|j: int| 0 <= j < i ==> (#[trigger] hs[j]).0 != m,
    ensures
        method_insert(hs, m, h) == hs.update(i, (m, h)),
    decreases i,
{
    if i == 0 {
        assert(seq![(m, h)] + hs.skip(1) =~= hs.update(0, (m, h)));
    } else {
        lemma_method_insert_at(hs.skip(1), m, h, i - 1);
        assert(seq![hs[0]] + hs.skip(1).update(i - 1, (m, h)) =~= hs.update(i, (m, h)));
    }
}

proof fn lemma_method_insert_append<H>(hs: Seq<(Method, H)>, m: Method, h: H)
    requires
        forall|j: int| 0 <= j < hs.len() ==> (#[trigger] hs[j]).0 != m,
    ensures
        method_insert(hs, m, h) == hs.push((m, h)),
    decreases hs.len(),
{
    if hs.len() == 0 {
        assert(method_insert(hs, m, h) =~= hs.push((m, h)));
    } else {
        lemma_method_insert_append(hs.skip(1), m, h);
        assert(seq![hs[0]] + hs.skip(1).push((m, h)) =~= hs.push((m, h)));
    }
}

/// After a bind, looking the method up yields the new handler and leaves
/// every other method's binding unchanged.
pub proof fn lemma_method_lookup_insert<H>(hs: Seq<(Method, H)>, m: Method, h: H, q: Method)
    ensures
        q == m ==> method_lookup(method_insert(hs, m, h), q) == Some(h),
        q != m ==> method_lookup(method_insert(hs, m, h), q) == method_lookup(hs, q),
    decreases hs.len(),
{
    let n = method_insert(hs, m, h);
    if hs.len() == 0 {
        assert(n == seq![(m, h)]);
        assert(n[0] == (m, h));
        if q == m {
            assert(method_lookup(n, q) == Some(h));
        } else {
            assert(n.skip(1) =~= Seq::<(Method, H)>::empty());
            assert(method_lookup(n, q) == method_lookup(n.skip(1), q));
            assert(method_lookup(n.skip(1), q) is None);
        }
    } else if hs[0].0 == m {
        assert(n == seq![(m, h)] + hs.skip(1));
        assert(n[0] == (m, h));
        assert(n.skip(1) =~= hs.skip(1));
        if q == m {
            assert(method_lookup(n, q) == Some(h));
        } else {
            assert(method_lookup(n, q) == method_lookup(hs.skip(1), q));
            assert(method_lookup(hs, q) == method_lookup(hs.skip(1), q));
        }
    } else {
        assert(n == seq![hs[0]] + method_insert(hs.skip(1), m, h));
        assert(n[0] == hs[0]);
        assert(n.skip(1) =~= method_insert(hs.skip(1), m, h));
        lemma_method_lookup_insert(hs.skip(1), m, h, q);
        if n[0].0 == q {
            assert(method_lookup(n, q) == Some(n[0].1));
            assert(method_lookup(hs, q) == Some(hs[0].1));
        } else {
            assert(method_lookup(n, q) == method_lookup(n.skip(1), q));
            assert(method_lookup(hs, q) == method_lookup(hs.skip(1), q));
        }
    }
}

} // verus!
