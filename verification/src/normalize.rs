//! The normalizer: turns one raw source-specific line into zero or one
//! bare-domain candidate string.  No lower-casing or punycode conversion
//! happens here; callers must canonicalize before insertion.

use vstd::prelude::*;
use vstd::string::*;
use crate::chars::{
    is_space, lemma_next_nonspace, lemma_next_space, find_nonspace, find_space, next_nonspace,
    next_space, str_eq,
};

verus! {

/// The text dialect of one raw list-source line.
#[derive(Clone, Copy, PartialEq, Eq, Structural, Debug)]
pub enum Dialect {
    /// Hosts-file lines: an IP, then the domain, with comments.
    Hosts,
    /// One domain per line, with comments after whitespace.
    PlainList,
    /// Adblock-style entries: a domain between "||" and "^".
    Adblock,
    /// A CSV token wrapped in quotes, commas and whitespace.
    QuotedCsv,
}

/// The reserved hosts-file aliases that never name a real domain.
pub open spec fn is_reserved_alias(d: Seq<char>) -> bool {
    d == "localhost"@ || d == "0.0.0.0"@ || d == "local"@ || d == "localhost.localdomain"@
        || d == "broadcasthost"@
}

/// The four characters of the IPv6 alias marker "ip6-".
pub open spec fn ip6_marker() -> Seq<char> {
    seq!['i', 'p', '6', '-']
}

/// `h` contains the IPv6 alias marker as a substring.
pub open spec fn contains_ip6(h: Seq<char>) -> bool {
    exists|i: int| 0 <= i && i + 4 <= h.len() && #[trigger] h.subrange(i, i + 4) == ip6_marker()
}

/// The domain a hosts-file line contributes: the second whitespace token,
/// unless the line is blank or a comment, has no second token, names a
/// reserved alias, or carries the IPv6 marker.
pub open spec fn hosts_domain(s: Seq<char>) -> Option<Seq<char>> {
    if s.len() == 0 || s[0] == '#' {
        None
    } else {
        let t1s = next_nonspace(s, 0);
        let t1e = next_space(s, t1s);
        let t2s = next_nonspace(s, t1e);
        let t2e = next_space(s, t2s);
        if t2s >= s.len() {
            None
        } else {
            let d = s.subrange(t2s, t2e);
            if is_reserved_alias(d) || contains_ip6(d) {
                None
            } else {
                Some(d)
            }
        }
    }
}

/// The domain a plain-list line contributes: the first whitespace token,
/// unless the line is blank or a comment.  An inline comment after
/// whitespace is discarded with the rest of the line.
pub open spec fn plain_domain(s: Seq<char>) -> Option<Seq<char>> {
    if s.len() == 0 || s[0] == '#' {
        None
    } else {
        let t1s = next_nonspace(s, 0);
        let t1e = next_space(s, t1s);
        if t1s >= s.len() {
            None
        } else {
            Some(s.subrange(t1s, t1e))
        }
    }
}

/// The domain an adblock line contributes: the line with one leading "||"
/// and one trailing '^' stripped, unless the rest is empty.
pub open spec fn adblock_domain(s: Seq<char>) -> Option<Seq<char>> {
    let a: int = if s.len() >= 2 && s[0] == '|' && s[1] == '|' {
        2
    } else {
        0
    };
    let b: int = if s.len() >= 1 && s[s.len() - 1] == '^' {
        s.len() - 1
    } else {
        s.len() as int
    };
    if a < b {
        Some(s.subrange(a, b))
    } else {
        None
    }
}

/// A character the quoted-CSV dialect trims from both ends.
pub open spec fn is_csv_trim(c: char) -> bool {
    c == '"' || c == ',' || is_space(c)
}

/// Index of the first character at or after `from` that the CSV dialect
/// keeps; `s.len()` when there is none.
pub open spec fn csv_start(s: Seq<char>, from: int) -> int
    decreases s.len() - from,
{
    if from < 0 || from >= s.len() {
        s.len() as int
    } else if !is_csv_trim(s[from]) {
        from
    } else {
        csv_start(s, from + 1)
    }
}

/// One past the last character before `until` that the CSV dialect keeps;
/// 0 when there is none.
pub open spec fn csv_end(s: Seq<char>, until: int) -> int
    decreases until,
{
    if until <= 0 {
        0
    } else if until > s.len() {
        s.len() as int
    } else if is_csv_trim(s[until - 1]) {
        csv_end(s, until - 1)
    } else {
        until
    }
}

/// Bounds and characterization of `csv_start`.
proof fn lemma_csv_start(s: Seq<char>, from: int)
    requires
        0 <= from <= s.len(),
    ensures
        from <= csv_start(s, from) <= s.len(),
        csv_start(s, from) < s.len() ==> !is_csv_trim(s[csv_start(s, from)]),
        forall|j: int| from <= j < csv_start(s, from) ==> is_csv_trim(s[j]),
    decreases s.len() - from,
{
    if from < s.len() && is_csv_trim(s[from]) {
        lemma_csv_start(s, from + 1);
    }
}

/// Bounds and characterization of `csv_end`.
proof fn lemma_csv_end(s: Seq<char>, until: int)
    requires
        0 <= until <= s.len(),
    ensures
        0 <= csv_end(s, until) <= until,
        csv_end(s, until) > 0 ==> !is_csv_trim(s[csv_end(s, until) - 1]),
        forall|j: int| csv_end(s, until) <= j < until ==> is_csv_trim(s[j]),
    decreases until,
{
    if until > 0 && is_csv_trim(s[until - 1]) {
        lemma_csv_end(s, until - 1);
    }
}

/// The domain a quoted-CSV token contributes: the token with surrounding
/// quote, comma and whitespace characters trimmed from both ends, unless
/// nothing remains.
pub open spec fn csv_domain(s: Seq<char>) -> Option<Seq<char>> {
    let a = csv_start(s, 0);
    let b = csv_end(s, s.len() as int);
    if a < b {
        Some(s.subrange(a, b))
    } else {
        None
    }
}

/// The canonical normalization of one raw line under a dialect.
pub open spec fn spec_normalize(s: Seq<char>, dialect: Dialect) -> Option<Seq<char>> {
    match dialect {
        Dialect::Hosts => hosts_domain(s),
        Dialect::PlainList => plain_domain(s),
        Dialect::Adblock => adblock_domain(s),
        Dialect::QuotedCsv => csv_domain(s),
    }
}

/// CSV-trim test as executable code.
fn char_is_csv_trim(c: char) -> (r: bool)
    ensures
        r == is_csv_trim(c),
{
    c == '"' || c == ',' || c == ' ' || c == '\t' || c == '\r' || c == '\n'
}

/// Whether `d` contains the IPv6 alias marker "ip6-".
fn has_ip6_marker(d: &str) -> (r: bool)
    ensures
        r == contains_ip6(d@),
{
    let len = d.unicode_len();
    if len < 4 {
        proof {
            assert(!contains_ip6(d@));
        }
        return false;
    }
    let mut i: usize = 0;
    while i <= len - 4
        invariant
            0 <= i <= len - 4 + 1,
            4 <= len,
            len == d@.len(),
            forall|j: int| 0 <= j < i ==> #[trigger] d@.subrange(j, j + 4) != ip6_marker(),
        decreases len - i,
    {
        if d.get_char(i) == 'i' && d.get_char(i + 1) == 'p' && d.get_char(i + 2) == '6'
            && d.get_char(i + 3) == '-' {
            proof {
                assert(d@.subrange(i as int, i as int + 4) =~= ip6_marker());
            }
            return true;
        }
        proof {
            if d@.subrange(i as int, i as int + 4) == ip6_marker() {
                assert(d@[i as int] == d@.subrange(i as int, i as int + 4)[0]);
                assert(d@[i as int + 1] == d@.subrange(i as int, i as int + 4)[1]);
                assert(d@[i as int + 2] == d@.subrange(i as int, i as int + 4)[2]);
                assert(d@[i as int + 3] == d@.subrange(i as int, i as int + 4)[3]);
                assert(false);
            }
        }
        i = i + 1;
    }
    false
}

/// Normalizes one raw line of source text to a canonical bare-domain
/// candidate, or nothing when the line contributes no domain.
pub fn normalize_line(line: &str, dialect: Dialect) -> (r: Option<String>)
    ensures
        match spec_normalize(line@, dialect) {
            Some(d) => r matches Some(out) && out@ == d,
            None => r is None,
        },
{
    match dialect {
        Dialect::Hosts => {
            let len = line.unicode_len();
            if len == 0 {
                return None;
            }
            if line.get_char(0) == '#' {
                return None;
            }
            let t1s = find_nonspace(line, 0);
            proof {
                lemma_next_nonspace(line@, 0);
            }
            let t1e = find_space(line, t1s);
            proof {
                lemma_next_space(line@, t1s as int);
            }
            let t2s = find_nonspace(line, t1e);
            proof {
                lemma_next_nonspace(line@, t1e as int);
            }
            if t2s == len {
                return None;
            }
            let t2e = find_space(line, t2s);
            proof {
                lemma_next_space(line@, t2s as int);
            }
            let d = line.substring_char(t2s, t2e);
            if str_eq(d, "localhost") || str_eq(d, "0.0.0.0") || str_eq(d, "local") || str_eq(
                d,
                "localhost.localdomain",
            ) || str_eq(d, "broadcasthost") {
                return None;
            }
            if has_ip6_marker(d) {
                return None;
            }
            Some(d.to_owned())
        },
        Dialect::PlainList => {
            let len = line.unicode_len();
            if len == 0 {
                return None;
            }
            if line.get_char(0) == '#' {
                return None;
            }
            let t1s = find_nonspace(line, 0);
            proof {
                lemma_next_nonspace(line@, 0);
            }
            if t1s == len {
                return None;
            }
            let t1e = find_space(line, t1s);
            proof {
                lemma_next_space(line@, t1s as int);
            }
            Some(line.substring_char(t1s, t1e).to_owned())
        },
        Dialect::Adblock => {
            let len = line.unicode_len();
            let a: usize = if len >= 2 && line.get_char(0) == '|' && line.get_char(1) == '|' {
                2
            } else {
                0
            };
            let b: usize = if len >= 1 && line.get_char(len - 1) == '^' {
                len - 1
            } else {
                len
            };
            if a < b {
                Some(line.substring_char(a, b).to_owned())
            } else {
                None
            }
        },
        Dialect::QuotedCsv => {
            let len = line.unicode_len();
            let mut a: usize = 0;
            while a < len && char_is_csv_trim(line.get_char(a))
                invariant
                    0 <= a <= len,
                    len == line@.len(),
                    forall|j: int| 0 <= j < a ==> is_csv_trim(line@[j]),
                decreases len - a,
            {
                a = a + 1;
            }
            proof {
                lemma_csv_start(line@, 0);
                assert(a == csv_start(line@, 0));
            }
            let mut b: usize = len;
            while b > 0 && char_is_csv_trim(line.get_char(b - 1))
                invariant
                    0 <= b <= len,
                    len == line@.len(),
                    forall|j: int| b <= j < len ==> is_csv_trim(line@[j]),
                decreases b,
            {
                b = b - 1;
            }
            proof {
                lemma_csv_end(line@, len as int);
                assert(b == csv_end(line@, len as int));
            }
            if a < b {
                Some(line.substring_char(a, b).to_owned())
            } else {
                None
            }
        },
    }
}

} // verus!
