//! The protocol version: a decimal major part and one fractional digit,
//! as in `HTTP/1.1`.

use vstd::prelude::*;
use vstd::string::StringExecFns;

use crate::text::{
    all_digits, dec_chars, dec_val, digit_char, first_index_of, is_digit, lemma_dec_chars_val,
    lemma_first_index_unique, parse_dec_usize, render_dec, find_char_from,
};

verus! {

/// An HTTP version `major.minor`, the minor part a single digit.
#[derive(Clone, Copy, Debug, PartialEq, Eq, Structural)]
pub struct Version {
    pub major: u16,
    pub minor: u8,
}

/// Versions keep their minor part to one digit, as the wire format does.
pub open spec fn version_wf(v: Version) -> bool {
    v.minor < 10
}

/// The text a version renders to: `major "." minor`.
pub open spec fn version_chars(v: Version) -> Seq<char> {
    dec_chars(v.major as int) + seq!['.'] + dec_chars(v.minor as int)
}

/// The version a `major "." minor` numeral parses to.
pub open spec fn parse_version(s: Seq<char>) -> Option<Version> {
    let i = first_index_of(s, '.');
    if 0 < i < s.len() - 1 {
        let major = s.take(i);
        let minor = s.skip(i + 1);
        if all_digits(major) && dec_val(major) <= u16::MAX && minor.len() == 1 && is_digit(
            minor[0],
        ) {
            Some(
                Version {
                    major: dec_val(major) as u16,
                    minor: (minor[0] as u32 - '0' as u32) as u8,
                },
            )
        } else {
            None
        }
    } else {
        None
    }
}

impl Version {
    pub fn new(major: u16, minor: u8) -> (r: Self)
        requires
            minor < 10,
        ensures
            r == (Version { major, minor }),
            version_wf(r),
    {
        Version { major, minor }
    }

    /// Renders the version as `major "." minor`.
    pub fn render(&self) -> (r: String)
        ensures
            r@ == version_chars(*self),
    {
        let mut s = render_dec(self.major as usize);
        s.append(".");
        let minor = render_dec(self.minor as usize);
        s.append(minor.as_str());
        proof {
            reveal_strlit(".");
            assert(".".view() =~= seq!['.']);
            assert(s@ =~= version_chars(*self));
        }
        s
    }

    /// Parses `major "." minor` with a single fractional digit.
    pub fn from_str(s: &str) -> (r: Option<Version>)
        ensures
            r == parse_version(s@),
    {
        let len = s.unicode_len();
        let dot = match find_char_from(s, '.', 0) {
            Some(i) => i,
            None => {
                proof {
                    crate::text::lemma_first_index_absent(s@, '.');
                }
                return None;
            },
        };
        proof {
            lemma_first_index_unique(s@, '.', dot as int);
        }
        if dot == 0 || len - dot != 2 {
            return None;
        }
        let major_part = s.substring_char(0, dot);
        let minor_char = s.get_char(dot + 1);
        proof {
            assert(major_part@ == s@.take(dot as int));
            assert(s@.skip(dot + 1) =~= seq![s@[dot + 1]]);
        }
        let major = match parse_dec_usize(major_part) {
            Some(v) => v,
            None => {
                return None;
            },
        };
        if major > u16::MAX as usize {
            return None;
        }
        let x = minor_char as u32;
        if !(48 <= x && x <= 57) {
            return None;
        }
        Some(Version { major: major as u16, minor: (x - 48) as u8 })
    }

    /// `HTTP/1.1`, the version every message defaults to.
    pub fn one_one() -> (r: Version)
        ensures
            r == (Version { major: 1u16, minor: 1u8 }),
    {
        Version { major: 1, minor: 1 }
    }
}

/// A rendered version parses back to itself.
pub proof fn lemma_version_round_trip(v: Version)
    requires
        version_wf(v),
    ensures
        parse_version(version_chars(v)) == Some(v),
{
    let s = version_chars(v);
    let mj = dec_chars(v.major as int);
    let mn = dec_chars(v.minor as int);
    lemma_dec_chars_val(v.major as int);
    lemma_dec_chars_val(v.minor as int);
    assert(mn == seq![digit_char(v.minor as int)]);
    assert(s[mj.len() as int] == '.');
    assert forall|j: int| 0 <= j < mj.len() implies s[j] != '.' by {
        assert(s[j] == mj[j]);
        assert(is_digit(mj[j]));
    }
    lemma_first_index_unique(s, '.', mj.len() as int);
    assert(s.take(mj.len() as int) =~= mj);
    assert(s.skip(mj.len() as int + 1) =~= mn);
    assert(is_digit(mn[0]));
    assert((digit_char(v.minor as int) as u32 - '0' as u32) == v.minor as int);
}

} // verus!
