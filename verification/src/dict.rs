//! The immutable domain dictionary: a sorted collection of
//! (canonical domain, category mask) pairs with exact lookup and the
//! hierarchical parent-domain walk.

use vstd::prelude::*;
use vstd::string::*;
use crate::chars::{
    ascii_seq, chars_ascii, chars_eq, chars_lt, find_char, lemma_lex_lt_trans,
    lemma_lex_lt_trichotomy, lemma_next_char, lemma_next_char_shift, lex_lt, next_char,
    str_suffix_eq_chars,
};
use crate::category::{
    lemma_mask_or_assoc, lemma_mask_or_carries_bit, lemma_mask_or_superset, lemma_mask_or_zero,
    spec_bit, Category,
};

verus! {

/// One canonical domain together with its category bitmask.
///
/// Canonical form: lower-case ASCII, no scheme, no path, no trailing dot.
pub struct DomainEntry {
    /// The canonical domain string.
    pub domain: Vec<char>,
    /// The OR of the bits of every category the domain belongs to.
    pub mask: u8,
}

impl View for DomainEntry {
    type V = (Seq<char>, u8);

    open spec fn view(&self) -> (Seq<char>, u8) {
        (self.domain@, self.mask)
    }
}

/// The mathematical model of a dictionary: its entries in order.
pub open spec fn entry_model(s: Seq<DomainEntry>) -> Seq<(Seq<char>, u8)> {
    s.map(|i: int, e: DomainEntry| e@)
}

/// The mask stored for `key`, or 0 when `key` is absent.
pub open spec fn mask_of(m: Seq<(Seq<char>, u8)>, key: Seq<char>) -> u8
    decreases m.len(),
{
    if m.len() == 0 {
        0
    } else if m[0].0 == key {
        m[0].1
    } else {
        mask_of(m.skip(1), key)
    }
}

/// Whether `key` has an entry.
pub open spec fn contains_key(m: Seq<(Seq<char>, u8)>, key: Seq<char>) -> bool {
    exists|i: int| 0 <= i < m.len() && m[i].0 == key
}

/// The host has at least one dot, so it has a parent suffix.
pub open spec fn has_dot(h: Seq<char>) -> bool {
    next_char(h, 0, '.') < h.len()
}

/// The parent domain: everything after the first dot.
pub open spec fn parent_host(h: Seq<char>) -> Seq<char> {
    h.subrange(next_char(h, 0, '.') + 1, h.len() as int)
}

/// The walk-up mask of `h`: the OR of the masks of `h` itself and of every
/// dotted parent suffix.  The walk stops before a bare top-level label: a
/// parent without a dot is never queried, though a dotless starting host is.
pub open spec fn walk_mask(m: Seq<(Seq<char>, u8)>, h: Seq<char>) -> u8
    decreases h.len(),
{
    if !has_dot(h) {
        mask_of(m, h)
    } else {
        proof {
            lemma_next_char(h, 0, '.');
        }
        if has_dot(parent_host(h)) {
            mask_of(m, h) | walk_mask(m, parent_host(h))
        } else {
            mask_of(m, h)
        }
    }
}

/// `mask_of` over a concatenation: the left part wins when it has the key.
pub proof fn lemma_mask_of_append(
    a: Seq<(Seq<char>, u8)>,
    b: Seq<(Seq<char>, u8)>,
    key: Seq<char>,
)
    ensures
        mask_of(a + b, key) == if contains_key(a, key) {
            mask_of(a, key)
        } else {
            mask_of(b, key)
        },
        contains_key(a + b, key) == (contains_key(a, key) || contains_key(b, key)),
    decreases a.len(),
{
    if a.len() == 0 {
        assert(a + b =~= b);
        assert(!contains_key(a, key));
        if contains_key(b, key) {
            let i = choose|i: int| 0 <= i < b.len() && b[i].0 == key;
            assert((a + b)[i].0 == key);
        }
    } else {
        assert((a + b)[0] == a[0]);
        assert((a + b).skip(1) =~= a.skip(1) + b);
        lemma_mask_of_append(a.skip(1), b, key);
        if a[0].0 == key {
            assert(contains_key(a, key));
        } else {
            if contains_key(a, key) {
                let i = choose|i: int| 0 <= i < a.len() && a[i].0 == key;
                assert(a.skip(1)[i - 1].0 == key);
                assert(contains_key(a.skip(1), key));
            }
            if contains_key(a.skip(1), key) {
                let i = choose|i: int| 0 <= i < a.skip(1).len() && a.skip(1)[i].0 == key;
                assert(a[i + 1].0 == key);
                assert(contains_key(a, key));
            }
            if contains_key(a + b, key) {
                let i = choose|i: int| 0 <= i < (a + b).len() && (a + b)[i].0 == key;
                assert((a + b).skip(1)[i - 1].0 == key);
            }
            if contains_key(a.skip(1) + b, key) {
                let i = choose|i: int|
                    0 <= i < (a.skip(1) + b).len() && (a.skip(1) + b)[i].0 == key;
                assert((a + b)[i + 1].0 == key);
            }
        }
    }
}

/// An absent key has mask 0.
pub proof fn lemma_mask_of_absent(m: Seq<(Seq<char>, u8)>, key: Seq<char>)
    requires
        !contains_key(m, key),
    ensures
        mask_of(m, key) == 0,
    decreases m.len(),
{
    if m.len() > 0 {
        assert(m[0].0 != key);
        if contains_key(m.skip(1), key) {
            let i = choose|i: int| 0 <= i < m.skip(1).len() && m.skip(1)[i].0 == key;
            assert(m[i + 1].0 == key);
            assert(false);
        }
        lemma_mask_of_absent(m.skip(1), key);
    }
}

/// Well-formedness of a dictionary model: every key is a non-empty ASCII
/// string and the keys are strictly ascending, hence unique.
pub open spec fn entries_wf(m: Seq<(Seq<char>, u8)>) -> bool {
    (forall|i: int| 0 <= i < m.len() ==> m[i].0.len() > 0 && ascii_seq(m[i].0))
        && (forall|i: int, j: int| 0 <= i < j < m.len() ==> lex_lt(m[i].0, m[j].0))
}

/// A fatal error while assembling the dictionary from entries.
#[derive(Clone, Copy, PartialEq, Eq, Structural, Debug)]
pub enum BuildError {
    /// A key is empty or not ASCII.
    MalformedKey,
    /// A key repeats its predecessor.
    DuplicateKey,
    /// A key is not strictly greater than its predecessor.
    UnsortedKeys,
}

/// The first build-time violation at or after index `i`, scanning left to
/// right; `None` when the entries from `i` on are valid.
pub open spec fn build_scan(m: Seq<(Seq<char>, u8)>, i: int) -> Option<BuildError>
    decreases m.len() - i,
{
    if i < 0 || i >= m.len() {
        None
    } else if m[i].0.len() == 0 || !ascii_seq(m[i].0) {
        Some(BuildError::MalformedKey)
    } else if i > 0 && m[i - 1].0 == m[i].0 {
        Some(BuildError::DuplicateKey)
    } else if i > 0 && !lex_lt(m[i - 1].0, m[i].0) {
        Some(BuildError::UnsortedKeys)
    } else {
        build_scan(m, i + 1)
    }
}

/// A clean scan means every key from `i` on is non-empty ASCII and strictly
/// greater than its predecessor.
proof fn lemma_build_scan_props(m: Seq<(Seq<char>, u8)>, i: int)
    requires
        0 <= i,
        build_scan(m, i) is None,
    ensures
        forall|j: int| i <= j < m.len() ==> m[j].0.len() > 0 && ascii_seq(m[j].0),
        forall|j: int| i <= j < m.len() && j >= 1 ==> #[trigger] lex_lt(m[j - 1].0, m[j].0),
    decreases m.len() - i,
{
    if i < m.len() {
        lemma_build_scan_props(m, i + 1);
    }
}

/// Adjacent ordering extends to any pair of positions.
proof fn lemma_lex_chain(m: Seq<(Seq<char>, u8)>, i: int, k: int)
    requires
        forall|j: int| 1 <= j < m.len() ==> #[trigger] lex_lt(m[j - 1].0, m[j].0),
        0 <= i < k < m.len(),
    ensures
        lex_lt(m[i].0, m[k].0),
    decreases k - i,
{
    if k == i + 1 {
        assert(lex_lt(m[k - 1].0, m[k].0));
    } else {
        lemma_lex_chain(m, i, k - 1);
        assert(lex_lt(m[k - 1].0, m[k].0));
        lemma_lex_lt_trans(m[i].0, m[k - 1].0, m[k].0);
    }
}

/// Well-formedness restricts to the tail.
pub proof fn lemma_entries_wf_skip(m: Seq<(Seq<char>, u8)>)
    requires
        entries_wf(m),
        m.len() > 0,
    ensures
        entries_wf(m.skip(1)),
{
    assert forall|i: int| 0 <= i < m.skip(1).len() implies m.skip(1)[i].0.len() > 0 && ascii_seq(
        m.skip(1)[i].0,
    ) by {
        assert(m.skip(1)[i] == m[i + 1]);
        assert(m[i + 1].0.len() > 0 && ascii_seq(m[i + 1].0));
    }
    assert forall|i: int, j: int| 0 <= i < j < m.skip(1).len() implies lex_lt(
        m.skip(1)[i].0,
        m.skip(1)[j].0,
    ) by {
        assert(m.skip(1)[i] == m[i + 1]);
        assert(m.skip(1)[j] == m[j + 1]);
        assert(lex_lt(m[i + 1].0, m[j + 1].0));
    }
}

/// A well-formed model passes the build scan, so `build` accepts it.
pub proof fn lemma_wf_build_scan(m: Seq<(Seq<char>, u8)>, i: int)
    requires
        entries_wf(m),
        0 <= i,
    ensures
        build_scan(m, i) is None,
    decreases m.len() - i,
{
    if i < m.len() {
        assert(m[i].0.len() > 0 && ascii_seq(m[i].0));
        if i > 0 {
            assert(lex_lt(m[i - 1].0, m[i].0));
            lemma_lex_lt_trichotomy(m[i - 1].0, m[i].0);
        }
        lemma_wf_build_scan(m, i + 1);
    }
}

/// The immutable, sorted domain dictionary.  Built once, queried many
/// times; never mutated after construction.
pub struct Dictionary {
    entries: Vec<DomainEntry>,
}

impl View for Dictionary {
    type V = Seq<(Seq<char>, u8)>;

    closed spec fn view(&self) -> Seq<(Seq<char>, u8)> {
        entry_model(self.entries@)
    }
}

impl Dictionary {
    /// The dictionary's internal invariant, established by `build`.
    pub open spec fn wf(&self) -> bool {
        entries_wf(self@)
    }

    /// Assembles the dictionary after validating that every key is a
    /// non-empty ASCII string and that the keys arrive in strictly
    /// ascending lexicographic order with no duplicates.  A violation is a
    /// build-time fatal error reported as the scan's first `BuildError`.
    pub fn build(entries: Vec<DomainEntry>) -> (r: Result<Dictionary, BuildError>)
        ensures
            match r {
                Ok(d) => build_scan(entry_model(entries@), 0) is None && d@ == entry_model(
                    entries@,
                ) && d.wf(),
                Err(e) => build_scan(entry_model(entries@), 0) == Some(e),
            },
    {
        let ghost m = entry_model(entries@);
        let mut i: usize = 0;
        while i < entries.len()
            invariant
                0 <= i <= entries@.len(),
                m == entry_model(entries@),
                m.len() == entries@.len(),
                build_scan(m, 0) == build_scan(m, i as int),
            decreases entries@.len() - i,
        {
            proof {
                assert(m[i as int] == entries@[i as int]@);
            }
            if entries[i].domain.len() == 0 || !chars_ascii(&entries[i].domain) {
                return Err(BuildError::MalformedKey);
            }
            if i > 0 {
                proof {
                    assert(m[i as int - 1] == entries@[i as int - 1]@);
                }
                if chars_eq(&entries[i - 1].domain, &entries[i].domain) {
                    return Err(BuildError::DuplicateKey);
                }
                if !chars_lt(&entries[i - 1].domain, &entries[i].domain) {
                    return Err(BuildError::UnsortedKeys);
                }
            }
            i = i + 1;
        }
        proof {
            lemma_build_scan_props(m, 0);
            assert forall|a: int, b: int| 0 <= a < b < m.len() implies lex_lt(
                m[a].0,
                m[b].0,
            ) by {
                lemma_lex_chain(m, a, b);
            }
        }
        Ok(Dictionary { entries })
    }

    /// The entries in ascending key order, for serialization.
    pub(crate) fn entries_ref(&self) -> (v: &Vec<DomainEntry>)
        ensures
            entry_model(v@) == self@,
    {
        &self.entries
    }

    /// The mask stored for exactly the suffix of `host` that starts at
    /// `from`, or 0 when that suffix has no entry.
    fn lookup_suffix(&self, host: &str, from: usize) -> (m: u8)
        requires
            from <= host@.len(),
        ensures
            m == mask_of(self@, host@.skip(from as int)),
    {
        let ghost key = host@.skip(from as int);
        proof {
            assert(self@.skip(0) =~= self@);
        }
        let mut i: usize = 0;
        while i < self.entries.len()
            invariant
                0 <= i <= self.entries@.len(),
                from <= host@.len(),
                key == host@.skip(from as int),
                self@ == entry_model(self.entries@),
                self@.len() == self.entries@.len(),
                mask_of(self@, key) == mask_of(self@.skip(i as int), key),
            decreases self.entries@.len() - i,
        {
            proof {
                assert(self@[i as int] == self.entries@[i as int]@);
                assert(self@.skip(i as int)[0] == self@[i as int]);
            }
            if str_suffix_eq_chars(host, from, &self.entries[i].domain) {
                return self.entries[i].mask;
            }
            proof {
                assert(self@.skip(i as int).skip(1) =~= self@.skip(i as int + 1));
            }
            i = i + 1;
        }
        proof {
            assert(self@.skip(i as int).len() == 0);
        }
        0
    }

    /// Exact-match category mask for `host`; no parent walk.
    pub fn lookup(&self, host: &str) -> (m: u8)
        ensures
            m == mask_of(self@, host@),
    {
        proof {
            assert(host@.skip(0) =~= host@);
        }
        self.lookup_suffix(host, 0)
    }

    /// The walk-up category mask of `host`: queries `host`, then each
    /// successive parent obtained by stripping the leftmost label, and ORs
    /// every mask found.  The walk stops before a bare top-level label.
    pub fn walk(&self, host: &str) -> (m: u8)
        ensures
            m == walk_mask(self@, host@),
    {
        let len = host.unicode_len();
        let mut from: usize = 0;
        let mut acc: u8 = 0;
        proof {
            assert(host@.skip(0) =~= host@);
            lemma_mask_or_zero(walk_mask(self@, host@));
        }
        loop
            invariant
                0 <= from <= len,
                len == host@.len(),
                walk_mask(self@, host@) == acc | walk_mask(self@, host@.skip(from as int)),
            decreases len - from,
        {
            let ghost cur = host@.skip(from as int);
            let hit = self.lookup_suffix(host, from);
            let acc2 = acc | hit;
            let dot = find_char(host, from, '.');
            proof {
                lemma_next_char(host@, from as int, '.');
                lemma_next_char_shift(host@, from as int, from as int, '.');
                assert(next_char(cur, 0, '.') == dot - from);
            }
            if dot == len {
                proof {
                    assert(!has_dot(cur));
                    assert(walk_mask(self@, cur) == hit);
                }
                return acc2;
            }
            let next_from = dot + 1;
            proof {
                assert(has_dot(cur));
                assert(parent_host(cur) =~= host@.skip(next_from as int));
            }
            let dot2 = find_char(host, next_from, '.');
            proof {
                lemma_next_char(host@, next_from as int, '.');
                lemma_next_char_shift(host@, next_from as int, next_from as int, '.');
                assert(next_char(host@.skip(next_from as int), 0, '.') == dot2 - next_from);
            }
            if dot2 == len {
                proof {
                    assert(!has_dot(parent_host(cur)));
                    assert(walk_mask(self@, cur) == hit);
                }
                return acc2;
            }
            proof {
                assert(has_dot(parent_host(cur)));
                assert(walk_mask(self@, cur) == hit | walk_mask(
                    self@,
                    host@.skip(next_from as int),
                ));
                lemma_mask_or_assoc(acc, hit, walk_mask(self@, host@.skip(next_from as int)));
            }
            acc = acc2;
            from = next_from;
        }
    }
}

/// Law: a subdomain inherits every category of its dictionary parent.  When
/// a dotted domain `d` carries category `c` in the dictionary, prefixing
/// any single dot-free label still shows `c` through the walk.  (A dotless
/// `d` is excluded: the walk never queries a bare parent label.)
pub proof fn lemma_subdomain_inherits(
    m: Seq<(Seq<char>, u8)>,
    lab: Seq<char>,
    d: Seq<char>,
    c: Category,
)
    requires
        lab.len() > 0,
        forall|i: int| 0 <= i < lab.len() ==> lab[i] != '.',
        has_dot(d),
        mask_of(m, d) & spec_bit(c) != 0,
    ensures
        walk_mask(m, lab + seq!['.'] + d) & spec_bit(c) != 0,
{
    let h = lab + seq!['.'] + d;
    lemma_next_char(h, 0, '.');
    assert(h[lab.len() as int] == '.');
    assert(forall|j: int| 0 <= j < lab.len() ==> h[j] == lab[j]);
    assert(next_char(h, 0, '.') == lab.len());
    assert(has_dot(h));
    assert(parent_host(h) =~= d);
    if has_dot(parent_host(d)) {
        lemma_mask_or_carries_bit(mask_of(m, d), walk_mask(m, parent_host(d)), spec_bit(c));
    }
    assert(walk_mask(m, d) & spec_bit(c) != 0);
    lemma_mask_or_carries_bit(mask_of(m, h), walk_mask(m, d), spec_bit(c));
    assert(walk_mask(m, h) == mask_of(m, h) | walk_mask(m, d));
}

/// Law: the walk is monotonic under suffix-stripping.  Everything the walk
/// finds starting from the dotted parent of `h` it also finds starting from
/// `h` itself.
pub proof fn lemma_walk_monotonic(m: Seq<(Seq<char>, u8)>, h: Seq<char>)
    requires
        has_dot(h),
        has_dot(parent_host(h)),
    ensures
        walk_mask(m, h) & walk_mask(m, parent_host(h)) == walk_mask(m, parent_host(h)),
{
    lemma_mask_or_superset(mask_of(m, h), walk_mask(m, parent_host(h)));
}

} // verus!
