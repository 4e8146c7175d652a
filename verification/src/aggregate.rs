//! The aggregator: merges normalized domains from all active sources into
//! one deduplicated domain-to-mask mapping, and applies the build-time
//! whitelist to the bad category only.

use vstd::prelude::*;
use crate::category::{
    lemma_mask_and_zero, lemma_mask_or_nonzero, lemma_mask_or_zero, spec_bit, Category,
};
use crate::chars::{
    ascii_seq, chars_eq, chars_lt, lemma_lex_lt_trichotomy, lex_lt, str_eq_chars, str_to_chars,
    strings_model,
};
use crate::dict::{
    contains_key, entries_wf, entry_model, lemma_mask_of_absent, lemma_mask_of_append, mask_of,
    DomainEntry,
};

verus! {

/// Well-formedness of an aggregated mapping: dictionary-well-formed keys
/// and no entry with an empty mask, since an empty mask means "absent".
pub open spec fn agg_wf(m: Seq<(Seq<char>, u8)>) -> bool {
    entries_wf(m) && (forall|i: int| 0 <= i < m.len() ==> m[i].1 != 0)
}

/// Well-formedness restricts to the tail of a mapping.
pub proof fn lemma_agg_wf_skip(m: Seq<(Seq<char>, u8)>)
    requires
        agg_wf(m),
        m.len() > 0,
    ensures
        agg_wf(m.skip(1)),
{
    assert forall|i: int| 0 <= i < m.skip(1).len() implies m.skip(1)[i].0.len() > 0 && ascii_seq(
        m.skip(1)[i].0,
    ) by {
        assert(m.skip(1)[i] == m[i + 1]);
        assert(m[i + 1].0.len() > 0 && ascii_seq(m[i + 1].0));
    }
    assert forall|i: int, j: int| 0 <= i < j < m.skip(1).len() implies lex_lt(
        m.skip(1)[i].0,
        m.skip(1)[j].0,
    ) by {
        assert(m.skip(1)[i] == m[i + 1]);
        assert(m.skip(1)[j] == m[j + 1]);
        assert(lex_lt(m[i + 1].0, m[j + 1].0));
    }
    assert forall|i: int| 0 <= i < m.skip(1).len() implies m.skip(1)[i].1 != 0 by {
        assert(m.skip(1)[i] == m[i + 1]);
        assert(m[i + 1].1 != 0);
    }
}

/// In a well-formed mapping the head key does not recur in the tail.
pub proof fn lemma_head_not_in_tail(m: Seq<(Seq<char>, u8)>)
    requires
        entries_wf(m),
        m.len() > 0,
    ensures
        !contains_key(m.skip(1), m[0].0),
{
    if contains_key(m.skip(1), m[0].0) {
        let i = choose|i: int| 0 <= i < m.skip(1).len() && m.skip(1)[i].0 == m[0].0;
        assert(m.skip(1)[i] == m[i + 1]);
        assert(lex_lt(m[0].0, m[i + 1].0));
        lemma_lex_lt_trichotomy(m[0].0, m[i + 1].0);
    }
}

/// `mask_of` on a mapping split around position `p`: entries before `p`
/// win, then `p` itself, then the rest.
proof fn lemma_mask_of_decompose(m: Seq<(Seq<char>, u8)>, p: int, k: Seq<char>)
    requires
        0 <= p < m.len(),
    ensures
        mask_of(m, k) == if contains_key(m.subrange(0, p), k) {
            mask_of(m.subrange(0, p), k)
        } else if m[p].0 == k {
            m[p].1
        } else {
            mask_of(m.subrange(p + 1, m.len() as int), k)
        },
{
    let a = m.subrange(0, p);
    let mid = seq![m[p]];
    let b = m.subrange(p + 1, m.len() as int);
    assert(m =~= a + (mid + b));
    lemma_mask_of_append(a, mid + b, k);
    lemma_mask_of_append(mid, b, k);
    assert(mid.skip(1) =~= Seq::<(Seq<char>, u8)>::empty());
}

/// Replacing the mask at position `p` by a non-zero superset mask keeps
/// the mapping well-formed and changes only that key's mask.
proof fn lemma_add_update(om: Seq<(Seq<char>, u8)>, p: int, b: u8, nm: Seq<(Seq<char>, u8)>)
    requires
        agg_wf(om),
        0 <= p < om.len(),
        b != 0,
        nm.len() == om.len(),
        forall|j: int| 0 <= j < om.len() && j != p ==> nm[j] == om[j],
        nm[p] == (om[p].0, om[p].1 | b),
    ensures
        agg_wf(nm),
        forall|k: Seq<char>|
            mask_of(nm, k) == if k == om[p].0 {
                mask_of(om, k) | b
            } else {
                mask_of(om, k)
            },
{
    assert forall|i: int| 0 <= i < nm.len() implies nm[i].0.len() > 0 && ascii_seq(nm[i].0) by {
        assert(om[i].0.len() > 0 && ascii_seq(om[i].0));
        assert(nm[i].0 == om[i].0);
    }
    assert forall|i: int, j: int| 0 <= i < j < nm.len() implies lex_lt(nm[i].0, nm[j].0) by {
        assert(lex_lt(om[i].0, om[j].0));
        assert(nm[i].0 == om[i].0);
        assert(nm[j].0 == om[j].0);
    }
    assert forall|i: int| 0 <= i < nm.len() implies nm[i].1 != 0 by {
        if i == p {
            lemma_mask_or_nonzero(om[p].1, b);
        } else {
            assert(om[i].1 != 0);
        }
    }
    assert forall|k: Seq<char>|
        mask_of(nm, k) == (if k == om[p].0 {
            mask_of(om, k) | b
        } else {
            mask_of(om, k)
        }) by {
        lemma_mask_of_decompose(om, p, k);
        lemma_mask_of_decompose(nm, p, k);
        assert(om.subrange(0, p) =~= nm.subrange(0, p));
        assert(om.subrange(p + 1, om.len() as int) =~= nm.subrange(p + 1, nm.len() as int));
        if contains_key(om.subrange(0, p), k) {
            let i = choose|i: int| 0 <= i < p && om.subrange(0, p)[i].0 == k;
            assert(om[i].0 == k);
            assert(lex_lt(om[i].0, om[p].0));
            lemma_lex_lt_trichotomy(om[i].0, om[p].0);
            assert(k != om[p].0);
        }
    }
}

/// Inserting a fresh key at its sorted position keeps the mapping
/// well-formed and gives only that key a mask.
proof fn lemma_add_insert(
    om: Seq<(Seq<char>, u8)>,
    p: int,
    key: Seq<char>,
    b: u8,
    nm: Seq<(Seq<char>, u8)>,
)
    requires
        agg_wf(om),
        0 <= p <= om.len(),
        b != 0,
        key.len() > 0,
        ascii_seq(key),
        forall|j: int| 0 <= j < p ==> lex_lt(om[j].0, key),
        forall|j: int| p <= j < om.len() ==> lex_lt(key, om[j].0),
        nm =~= om.subrange(0, p) + (seq![(key, b)] + om.subrange(p, om.len() as int)),
    ensures
        agg_wf(nm),
        forall|k: Seq<char>|
            mask_of(nm, k) == if k == key {
                mask_of(om, k) | b
            } else {
                mask_of(om, k)
            },
{
    let a = om.subrange(0, p);
    let bb = om.subrange(p, om.len() as int);
    assert(om =~= a + bb);
    assert forall|i: int| 0 <= i < nm.len() implies nm[i].0.len() > 0 && ascii_seq(nm[i].0) by {
        if i < p {
            assert(nm[i] == om[i]);
            assert(om[i].0.len() > 0 && ascii_seq(om[i].0));
        } else if i > p {
            assert(nm[i] == om[i - 1]);
            assert(om[i - 1].0.len() > 0 && ascii_seq(om[i - 1].0));
        }
    }
    assert forall|i: int| 0 <= i < nm.len() implies nm[i].1 != 0 by {
        if i < p {
            assert(nm[i] == om[i]);
            assert(om[i].1 != 0);
        } else if i > p {
            assert(nm[i] == om[i - 1]);
            assert(om[i - 1].1 != 0);
        }
    }
    assert forall|i: int, j: int| 0 <= i < j < nm.len() implies lex_lt(nm[i].0, nm[j].0) by {
        if j < p {
            assert(nm[i] == om[i]);
            assert(nm[j] == om[j]);
            assert(lex_lt(om[i].0, om[j].0));
        } else if i < p && j == p {
            assert(nm[i] == om[i]);
            assert(lex_lt(om[i].0, key));
        } else if i < p && j > p {
            assert(nm[i] == om[i]);
            assert(nm[j] == om[j - 1]);
            assert(lex_lt(om[i].0, om[j - 1].0));
        } else if i == p {
            assert(nm[j] == om[j - 1]);
            assert(lex_lt(key, om[j - 1].0));
        } else {
            assert(nm[i] == om[i - 1]);
            assert(nm[j] == om[j - 1]);
            assert(lex_lt(om[i - 1].0, om[j - 1].0));
        }
    }
    assert forall|k: Seq<char>|
        mask_of(nm, k) == (if k == key {
            mask_of(om, k) | b
        } else {
            mask_of(om, k)
        }) by {
        lemma_mask_of_append(a, seq![(key, b)] + bb, k);
        lemma_mask_of_append(seq![(key, b)], bb, k);
        lemma_mask_of_append(a, bb, k);
        assert(seq![(key, b)].skip(1) =~= Seq::<(Seq<char>, u8)>::empty());
        if k == key {
            if contains_key(a, k) {
                let i = choose|i: int| 0 <= i < a.len() && a[i].0 == k;
                assert(om[i].0 == k);
                assert(lex_lt(om[i].0, key));
                lemma_lex_lt_trichotomy(om[i].0, key);
            }
            if contains_key(bb, k) {
                let i = choose|i: int| 0 <= i < bb.len() && bb[i].0 == k;
                assert(om[p + i].0 == k);
                assert(lex_lt(key, om[p + i].0));
                lemma_lex_lt_trichotomy(key, om[p + i].0);
            }
            lemma_mask_of_absent(bb, k);
            lemma_mask_or_zero(b);
        }
    }
}

/// The whitelist applied to a mapping: a whitelisted domain loses the bad
/// bit (mask bit 1) and only that; an entry whose mask becomes empty
/// disappears.  The other categories are never whitelisted.
pub open spec fn whitelist_model(
    m: Seq<(Seq<char>, u8)>,
    wl: Seq<Seq<char>>,
) -> Seq<(Seq<char>, u8)>
    decreases m.len(),
{
    if m.len() == 0 {
        m
    } else {
        let nmask = if wl.contains(m[0].0) {
            m[0].1 & 0xfe
        } else {
            m[0].1
        };
        if nmask == 0 {
            whitelist_model(m.skip(1), wl)
        } else {
            seq![(m[0].0, nmask)] + whitelist_model(m.skip(1), wl)
        }
    }
}

/// Every key of the whitelisted mapping was a key of the input.
proof fn lemma_whitelist_contains(m: Seq<(Seq<char>, u8)>, wl: Seq<Seq<char>>, k: Seq<char>)
    requires
        contains_key(whitelist_model(m, wl), k),
    ensures
        contains_key(m, k),
    decreases m.len(),
{
    let wlm = whitelist_model(m, wl);
    let rest = whitelist_model(m.skip(1), wl);
    let nmask = if wl.contains(m[0].0) {
        m[0].1 & 0xfe
    } else {
        m[0].1
    };
    if nmask == 0 || m[0].0 != k {
        let i = choose|i: int| 0 <= i < wlm.len() && wlm[i].0 == k;
        if nmask == 0 {
            assert(rest[i].0 == k);
        } else {
            assert(wlm[i] == (seq![(m[0].0, nmask)] + rest)[i]);
            assert(i > 0);
            assert(rest[i - 1].0 == k);
        }
        lemma_whitelist_contains(m.skip(1), wl, k);
        let w = choose|w: int| 0 <= w < m.skip(1).len() && m.skip(1)[w].0 == k;
        assert(m[w + 1].0 == k);
    }
}

/// The whitelisted mapping stays well-formed and its keys come from the
/// input mapping.
proof fn lemma_whitelist_wf(m: Seq<(Seq<char>, u8)>, wl: Seq<Seq<char>>)
    requires
        agg_wf(m),
    ensures
        agg_wf(whitelist_model(m, wl)),
        forall|j: int|
            0 <= j < whitelist_model(m, wl).len() ==> contains_key(
                m,
                (#[trigger] whitelist_model(m, wl)[j]).0,
            ),
    decreases m.len(),
{
    let wlm = whitelist_model(m, wl);
    if m.len() > 0 {
        lemma_agg_wf_skip(m);
        lemma_whitelist_wf(m.skip(1), wl);
        let rest = whitelist_model(m.skip(1), wl);
        assert forall|j: int| 0 <= j < rest.len() implies contains_key(m, rest[j].0) by {
            assert(contains_key(m.skip(1), rest[j].0));
            let w = choose|w: int| 0 <= w < m.skip(1).len() && m.skip(1)[w].0 == rest[j].0;
            assert(m[w + 1].0 == rest[j].0);
        }
        let nmask = if wl.contains(m[0].0) {
            m[0].1 & 0xfe
        } else {
            m[0].1
        };
        if nmask == 0 {
            assert(wlm == rest);
        } else {
            assert(wlm == seq![(m[0].0, nmask)] + rest);
            assert(wlm[0] == (m[0].0, nmask));
            assert forall|j: int| 0 <= j < wlm.len() implies contains_key(m, wlm[j].0) by {
                if j == 0 {
                    assert(m[0].0 == wlm[0].0);
                } else {
                    assert(wlm[j] == rest[j - 1]);
                    assert(contains_key(m, rest[j - 1].0));
                }
            }
            assert forall|j: int|
                0 <= j < wlm.len() implies wlm[j].0.len() > 0 && ascii_seq(wlm[j].0) by {
                if j == 0 {
                    assert(m[0].0.len() > 0 && ascii_seq(m[0].0));
                } else {
                    assert(wlm[j] == rest[j - 1]);
                    assert(rest[j - 1].0.len() > 0 && ascii_seq(rest[j - 1].0));
                }
            }
            assert forall|j: int| 0 <= j < wlm.len() implies wlm[j].1 != 0 by {
                if j > 0 {
                    assert(wlm[j] == rest[j - 1]);
                    assert(rest[j - 1].1 != 0);
                }
            }
            assert forall|i: int, j: int| 0 <= i < j < wlm.len() implies lex_lt(
                wlm[i].0,
                wlm[j].0,
            ) by {
                if i == 0 {
                    assert(wlm[j] == rest[j - 1]);
                    assert(contains_key(m.skip(1), rest[j - 1].0));
                    let w = choose|w: int|
                        0 <= w < m.skip(1).len() && m.skip(1)[w].0 == rest[j - 1].0;
                    assert(m[w + 1].0 == rest[j - 1].0);
                    assert(lex_lt(m[0].0, m[w + 1].0));
                } else {
                    assert(wlm[i] == rest[i - 1]);
                    assert(wlm[j] == rest[j - 1]);
                    assert(lex_lt(rest[i - 1].0, rest[j - 1].0));
                }
            }
        }
    }
}

/// Whitelisting rewrites exactly the masks of whitelisted keys.
proof fn lemma_whitelist_mask(m: Seq<(Seq<char>, u8)>, wl: Seq<Seq<char>>, k: Seq<char>)
    requires
        agg_wf(m),
    ensures
        mask_of(whitelist_model(m, wl), k) == if wl.contains(k) {
            mask_of(m, k) & 0xfe
        } else {
            mask_of(m, k)
        },
    decreases m.len(),
{
    let wlm = whitelist_model(m, wl);
    if m.len() == 0 {
        lemma_mask_and_zero(0xfe);
    } else {
        lemma_agg_wf_skip(m);
        lemma_whitelist_mask(m.skip(1), wl, k);
        let rest = whitelist_model(m.skip(1), wl);
        let nmask = if wl.contains(m[0].0) {
            m[0].1 & 0xfe
        } else {
            m[0].1
        };
        if nmask == 0 {
            assert(wlm == rest);
            if m[0].0 == k {
                lemma_head_not_in_tail(m);
                if contains_key(rest, k) {
                    lemma_whitelist_contains(m.skip(1), wl, k);
                }
                lemma_mask_of_absent(rest, k);
                lemma_mask_of_absent(m.skip(1), k);
            }
        } else {
            assert(wlm == seq![(m[0].0, nmask)] + rest);
            lemma_mask_of_append(seq![(m[0].0, nmask)], rest, k);
            assert(seq![(m[0].0, nmask)].skip(1) =~= Seq::<(Seq<char>, u8)>::empty());
            if m[0].0 == k {
                assert(contains_key(seq![(m[0].0, nmask)], k));
                assert(mask_of(seq![(m[0].0, nmask)], k) == nmask);
            }
        }
    }
}

/// Exact membership of `key` in the whitelist.
fn in_whitelist(wl: &Vec<String>, key: &Vec<char>) -> (r: bool)
    ensures
        r == strings_model(wl@).contains(key@),
{
    let mut i: usize = 0;
    while i < wl.len()
        invariant
            0 <= i <= wl@.len(),
            strings_model(wl@).len() == wl@.len(),
            forall|j: int| 0 <= j < i ==> strings_model(wl@)[j] != key@,
        decreases wl@.len() - i,
    {
        proof {
            assert(strings_model(wl@)[i as int] == wl@[i as int]@);
        }
        if str_eq_chars(wl[i].as_str(), key) {
            return true;
        }
        i = i + 1;
    }
    false
}

/// Merges (domain, category) pairs from every active source into one
/// deduplicated mapping from domain to the OR of the category bits it
/// appeared under.  Duplicate insertions are idempotent: the mapping
/// behaves as one set per category.
pub struct Aggregator {
    entries: Vec<DomainEntry>,
}

impl View for Aggregator {
    type V = Seq<(Seq<char>, u8)>;

    closed spec fn view(&self) -> Seq<(Seq<char>, u8)> {
        entry_model(self.entries@)
    }
}

impl Aggregator {
    /// The aggregator's internal invariant.
    pub open spec fn wf(&self) -> bool {
        agg_wf(self@)
    }

    /// An empty aggregation.
    pub fn new() -> (a: Aggregator)
        ensures
            a@ == Seq::<(Seq<char>, u8)>::empty(),
            a.wf(),
    {
        let a = Aggregator { entries: Vec::new() };
        proof {
            assert(a@ =~= Seq::<(Seq<char>, u8)>::empty());
        }
        a
    }

    /// Records that `domain` appeared in a source of `category`: the
    /// domain's mask gains the category's bit and every other entry stays
    /// as it was.  The domain must already be canonical: non-empty ASCII.
    pub fn add(&mut self, domain: &str, category: Category)
        requires
            old(self).wf(),
            domain@.len() > 0,
            ascii_seq(domain@),
        ensures
            final(self).wf(),
            forall|k: Seq<char>|
                mask_of(final(self)@, k) == if k == domain@ {
                    mask_of(old(self)@, k) | spec_bit(category)
                } else {
                    mask_of(old(self)@, k)
                },
    {
        let key = str_to_chars(domain);
        let b = category.bit();
        proof {
            assert(spec_bit(category) != 0);
        }
        let ghost om = self@;
        let ghost oe = self.entries@;
        let mut p: usize = 0;
        while p < self.entries.len() && chars_lt(&self.entries[p].domain, &key)
            invariant
                0 <= p <= self.entries@.len(),
                key@ == domain@,
                self.entries@ == oe,
                om == entry_model(oe),
                om.len() == oe.len(),
                forall|j: int| 0 <= j < p ==> lex_lt(om[j].0, key@),
            decreases self.entries@.len() - p,
        {
            proof {
                assert(om[p as int] == oe[p as int]@);
            }
            p = p + 1;
        }
        let mut at_key = false;
        if p < self.entries.len() {
            proof {
                assert(om[p as int] == oe[p as int]@);
            }
            if chars_eq(&self.entries[p].domain, &key) {
                at_key = true;
            }
        }
        if at_key {
            let m0 = self.entries[p].mask;
            let mut e = self.entries.remove(p);
            e.mask = m0 | b;
            self.entries.insert(p, e);
            proof {
                let fe = self.entries@;
                assert forall|j: int| 0 <= j < fe.len() && j != p as int implies fe[j]
                    == oe[j] by {
                    assert(fe == oe.remove(p as int).insert(p as int, e));
                }
                assert(fe[p as int] == e);
                let nm = entry_model(fe);
                assert(nm.len() == om.len());
                assert forall|j: int| 0 <= j < om.len() && j != p as int implies nm[j]
                    == om[j] by {
                    assert(nm[j] == fe[j]@);
                    assert(om[j] == oe[j]@);
                }
                assert(nm[p as int] == (om[p as int].0, om[p as int].1 | b));
                lemma_add_update(om, p as int, b, nm);
            }
        } else {
            proof {
                if p < om.len() {
                    assert(!lex_lt(om[p as int].0, key@));
                    assert(om[p as int].0 != key@);
                    lemma_lex_lt_trichotomy(om[p as int].0, key@);
                    assert(lex_lt(key@, om[p as int].0));
                }
                assert forall|j: int| p as int <= j < om.len() implies lex_lt(key@, om[j].0) by {
                    if j > p as int {
                        assert(lex_lt(om[p as int].0, om[j].0));
                        crate::chars::lemma_lex_lt_trans(key@, om[p as int].0, om[j].0);
                    }
                }
            }
            let e = DomainEntry { domain: key, mask: b };
            self.entries.insert(p, e);
            proof {
                let fe = self.entries@;
                assert(fe == oe.insert(p as int, e));
                let nm = entry_model(fe);
                assert forall|j: int| 0 <= j < nm.len() implies nm[j] == (om.subrange(0, p as int)
                    + (seq![(domain@, spec_bit(category))] + om.subrange(
                    p as int,
                    om.len() as int,
                )))[j] by {
                    assert(nm[j] == fe[j]@);
                    if j < p as int {
                        assert(fe[j] == oe[j]);
                        assert(om[j] == oe[j]@);
                    } else if j > p as int {
                        assert(fe[j] == oe[j - 1]);
                        assert(om[j - 1] == oe[j - 1]@);
                    }
                }
                assert(nm =~= om.subrange(0, p as int) + (seq![(domain@, spec_bit(category))]
                    + om.subrange(p as int, om.len() as int)));
                lemma_add_insert(om, p as int, domain@, spec_bit(category), nm);
            }
        }
    }

    /// Applies the build-time whitelist after all sources are consumed:
    /// every whitelisted domain is removed from the bad category only;
    /// its ads, tracking and gambling bits survive, and a domain whose
    /// mask becomes empty leaves the mapping entirely.
    pub fn apply_whitelist(&mut self, whitelist: &Vec<String>)
        requires
            old(self).wf(),
        ensures
            final(self).wf(),
            final(self)@ == whitelist_model(old(self)@, strings_model(whitelist@)),
            forall|k: Seq<char>|
                mask_of(final(self)@, k) == if strings_model(whitelist@).contains(k) {
                    mask_of(old(self)@, k) & 0xfe
                } else {
                    mask_of(old(self)@, k)
                },
    {
        let ghost om = self@;
        let ghost wl = strings_model(whitelist@);
        let mut rest: Vec<DomainEntry> = Vec::new();
        core::mem::swap(&mut rest, &mut self.entries);
        let mut out: Vec<DomainEntry> = Vec::new();
        proof {
            assert(entry_model(rest@) == om);
            assert(entry_model(out@) + whitelist_model(om, wl) =~= whitelist_model(om, wl));
        }
        while rest.len() > 0
            invariant
                wl == strings_model(whitelist@),
                agg_wf(entry_model(rest@)),
                whitelist_model(om, wl) == entry_model(out@) + whitelist_model(
                    entry_model(rest@),
                    wl,
                ),
            decreases rest@.len(),
        {
            let ghost rm = entry_model(rest@);
            let ghost pre = out@;
            let e = rest.remove(0);
            proof {
                assert(rm[0] == e@);
                assert(entry_model(rest@) =~= rm.skip(1));
                lemma_agg_wf_skip(rm);
            }
            let in_wl = in_whitelist(whitelist, &e.domain);
            let nmask = if in_wl {
                e.mask & 0xfe
            } else {
                e.mask
            };
            if nmask != 0 {
                let mut e2 = e;
                e2.mask = nmask;
                out.push(e2);
                proof {
                    assert(entry_model(out@) =~= entry_model(pre) + seq![(rm[0].0, nmask)]);
                    assert((entry_model(pre) + seq![(rm[0].0, nmask)]) + whitelist_model(
                        rm.skip(1),
                        wl,
                    ) =~= entry_model(pre) + (seq![(rm[0].0, nmask)] + whitelist_model(
                        rm.skip(1),
                        wl,
                    )));
                }
            }
        }
        self.entries = out;
        proof {
            assert(entry_model(rest@).len() == 0);
            assert(entry_model(out@) + whitelist_model(entry_model(rest@), wl) =~= entry_model(
                out@,
            ));
            lemma_whitelist_wf(om, wl);
            assert forall|k: Seq<char>|
                mask_of(self@, k) == (if wl.contains(k) {
                    mask_of(om, k) & 0xfe
                } else {
                    mask_of(om, k)
                }) by {
                lemma_whitelist_mask(om, wl, k);
            }
        }
    }

    /// Hands the aggregated entries over in ascending key order, for
    /// pruning and dictionary construction.
    pub fn into_entries(self) -> (v: Vec<DomainEntry>)
        ensures
            entry_model(v@) == self@,
    {
        self.entries
    }
}

} // verus!
