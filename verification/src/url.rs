//! The narrow URL grammar of the client stub:
//! `http:` `//` host `:` port, optionally followed by `/` and a path.

use vstd::prelude::*;

use crate::error::HttpInternalError;
use crate::text::{
    all_digits, dec_val, eq_ci, find_char_from, first_index_of, lemma_first_index_absent,
    lemma_first_index_unique, parse_dec_usize, str_eq_ci,
};

verus! {

/// A value whose text form is a URL this library can parse.
pub trait IntoUrl {

}

/// A parsed URL: host text, port, and the request target (at least "/").
#[derive(Debug)]
pub struct Url {
    pub host: String,
    pub port: u16,
    pub uri: String,
}

/// What a URL parses to: after a case-insensitive `http://`, the text up
/// to the next '/' is `host ":" port` with a non-empty host and a
/// decimal port; everything from that '/' on is the target, "/" when
/// absent.
pub open spec fn parse_url(s: Seq<char>) -> Option<(Seq<char>, u16, Seq<char>)> {
    if s.len() >= 7 && eq_ci(s.take(7), "http://"@) {
        let rest = s.skip(7);
        let slash = first_index_of(rest, '/');
        let hostport = if slash < 0 {
            rest
        } else {
            rest.take(slash)
        };
        let uri = if slash < 0 {
            "/"@
        } else {
            rest.skip(slash)
        };
        let colon = first_index_of(hostport, ':');
        if 0 < colon < hostport.len() {
            let host = hostport.take(colon);
            let port = hostport.skip(colon + 1);
            if port.len() > 0 && all_digits(port) && dec_val(port) <= u16::MAX {
                Some((host, dec_val(port) as u16, uri))
            } else {
                None
            }
        } else {
            None
        }
    } else {
        None
    }
}

impl Url {
    /// Parses the narrow `http://host:port[/path]` grammar; anything
    /// else is rejected.
    pub fn from_str(s: &str) -> (r: Result<Url, HttpInternalError>)
        ensures
            match r {
                Ok(u) => parse_url(s@) == Some((u.host@, u.port, u.uri@)),
                Err(_) => parse_url(s@) is None,
            },
    {
        let len = s.unicode_len();
        if len < 7 || !str_eq_ci(s.substring_char(0, 7), "http://") {
            proof {
                if len >= 7 {
                    assert(s@.subrange(0, 7) == s@.take(7));
                }
            }
            return Err(HttpInternalError::new("Expected URL to begin with 'http://'"));
        }
        proof {
            assert(s@.subrange(0, 7) == s@.take(7));
        }
        let slash = match find_char_from(s, '/', 7) {
            Some(i) => {
                proof {
                    let rest = s@.skip(7);
                    assert(forall|j: int| 0 <= j < rest.len() ==> rest[j] == s@[j + 7]);
                    lemma_first_index_unique(rest, '/', i - 7);
                }
                i
            },
            None => {
                proof {
                    let rest = s@.skip(7);
                    assert(forall|j: int| 0 <= j < rest.len() ==> rest[j] == s@[j + 7]);
                    lemma_first_index_absent(rest, '/');
                }
                len
            },
        };
        let hostport: &str = s.substring_char(7, slash);
        proof {
            let rest = s@.skip(7);
            if first_index_of(rest, '/') < 0 {
                assert(hostport@ =~= rest);
            } else {
                assert(hostport@ =~= rest.take(first_index_of(rest, '/')));
            }
        }
        let hlen = slash - 7;
        let colon = match find_char_from(hostport, ':', 0) {
            Some(c) => {
                proof {
                    lemma_first_index_unique(hostport@, ':', c as int);
                }
                c
            },
            None => {
                proof {
                    lemma_first_index_absent(hostport@, ':');
                }
                return Err(
                    HttpInternalError::new("Invalid address passed, expected host ':' port."),
                );
            },
        };
        if colon == 0 {
            return Err(HttpInternalError::new("Invalid address passed, expected host ':' port."));
        }
        let host: &str = hostport.substring_char(0, colon);
        let port_text: &str = hostport.substring_char(colon + 1, hlen);
        proof {
            assert(host@ == hostport@.take(colon as int));
            assert(port_text@ =~= hostport@.skip(colon + 1));
        }
        let port = match parse_dec_usize(port_text) {
            Some(p) => p,
            None => {
                return Err(HttpInternalError::new("Invalid address passed: bad port."));
            },
        };
        if port > u16::MAX as usize {
            return Err(HttpInternalError::new("Invalid address passed: bad port."));
        }
        let uri: String = if slash < len {
            s.substring_char(slash, len).to_owned()
        } else {
            "/".to_owned()
        };
        proof {
            let rest = s@.skip(7);
            if first_index_of(rest, '/') >= 0 {
                assert(uri@ =~= rest.skip(first_index_of(rest, '/')));
            }
        }
        Ok(Url { host: host.to_owned(), port: port as u16, uri })
    }
}

} // verus!
