//! The URL normalizer: extracting the host component that the matcher
//! consumes from a full URL.

use vstd::prelude::*;
use vstd::string::*;
use crate::chars::{find_char, lemma_next_char, next_char};

verus! {

/// The characters of the recognized "https://" prefix.
pub open spec fn https_prefix() -> Seq<char> {
    seq!['h', 't', 't', 'p', 's', ':', '/', '/']
}

/// The characters of the recognized "http://" prefix.
pub open spec fn http_prefix() -> Seq<char> {
    seq!['h', 't', 't', 'p', ':', '/', '/']
}

/// How many characters the recognized scheme prefix occupies: 8 for
/// "https://", 7 for "http://", 0 otherwise.  At most one prefix is
/// stripped, case-sensitively; any other scheme is left in place.
pub open spec fn scheme_skip(s: Seq<char>) -> int {
    if s.len() >= 8 && s.subrange(0, 8) == https_prefix() {
        8
    } else if s.len() >= 7 && s.subrange(0, 7) == http_prefix() {
        7
    } else {
        0
    }
}

/// The host component of a URL: the characters after the scheme prefix and
/// before the first '/' that follows it, or all of the remainder when no
/// '/' exists.  Ports, userinfo and trailing dots are not stripped.
pub open spec fn host_of(s: Seq<char>) -> Seq<char> {
    s.subrange(scheme_skip(s), next_char(s, scheme_skip(s), '/'))
}

/// Whether `url` starts with the eight characters of "https://".
fn starts_with_https(url: &str) -> (r: bool)
    ensures
        r == (url@.len() >= 8 && url@.subrange(0, 8) == https_prefix()),
{
    let len = url.unicode_len();
    if len < 8 {
        return false;
    }
    let r = url.get_char(0) == 'h' && url.get_char(1) == 't' && url.get_char(2) == 't'
        && url.get_char(3) == 'p' && url.get_char(4) == 's' && url.get_char(5) == ':'
        && url.get_char(6) == '/' && url.get_char(7) == '/';
    proof {
        if r {
            assert(url@.subrange(0, 8) =~= https_prefix());
        } else {
            if url@.subrange(0, 8) == https_prefix() {
                assert(forall|j: int| 0 <= j < 8 ==> url@[j] == url@.subrange(0, 8)[j]);
                assert(false);
            }
        }
    }
    r
}

/// Whether `url` starts with the seven characters of "http://".
fn starts_with_http(url: &str) -> (r: bool)
    ensures
        r == (url@.len() >= 7 && url@.subrange(0, 7) == http_prefix()),
{
    let len = url.unicode_len();
    if len < 7 {
        return false;
    }
    let r = url.get_char(0) == 'h' && url.get_char(1) == 't' && url.get_char(2) == 't'
        && url.get_char(3) == 'p' && url.get_char(4) == ':' && url.get_char(5) == '/'
        && url.get_char(6) == '/';
    proof {
        if r {
            assert(url@.subrange(0, 7) =~= http_prefix());
        } else {
            if url@.subrange(0, 7) == http_prefix() {
                assert(forall|j: int| 0 <= j < 7 ==> url@[j] == url@.subrange(0, 7)[j]);
                assert(false);
            }
        }
    }
    r
}

/// Gets the hostname from a URL: strips a leading "https://" or "http://"
/// (at most one), then returns the part before the first '/', or the whole
/// remainder when no '/' exists.  Always succeeds.
pub fn get_host_from_url(url: &str) -> (r: Option<&str>)
    ensures
        r matches Some(h) && h@ == host_of(url@),
{
    let k: usize = if starts_with_https(url) {
        8
    } else if starts_with_http(url) {
        7
    } else {
        0
    };
    proof {
        assert(k == scheme_skip(url@));
        lemma_next_char(url@, k as int, '/');
    }
    let slash = find_char(url, k, '/');
    Some(url.substring_char(k, slash))
}

} // verus!
