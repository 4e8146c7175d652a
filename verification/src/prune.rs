//! The redundancy pruner: removes every entry whose category mask an
//! ancestor domain's mask fully subsumes, since the matcher's walk
//! classifies such an entry through the ancestor anyway.

use vstd::prelude::*;
use crate::aggregate::{agg_wf, lemma_agg_wf_skip, lemma_head_not_in_tail, Aggregator};
use crate::category::{
    lemma_mask_and_zero, lemma_mask_or_superset, lemma_mask_or_zero, lemma_mask_submask_nonzero,
    lemma_submask_or_absorb, lemma_submask_refl, lemma_submask_trans, submask,
};
use crate::chars::{
    chars_suffix_eq, clone_chars, find_char_vec, lemma_lex_lt_trichotomy, lemma_next_char,
    lemma_next_char_shift, lex_lt, next_char,
};
use crate::dict::{
    contains_key, entry_model, has_dot, lemma_mask_of_absent, lemma_mask_of_append,
    lemma_walk_monotonic, lemma_wf_build_scan, mask_of, parent_host, walk_mask, Dictionary,
    DomainEntry,
};

verus! {

/// Some dotted proper ancestor of `h` (per the walk rule: the chain stops
/// before a bare top-level label) carries every bit of `mask` in `m`.
pub open spec fn ancestor_subsumes(m: Seq<(Seq<char>, u8)>, h: Seq<char>, mask: u8) -> bool
    decreases h.len(),
{
    if !has_dot(h) {
        false
    } else {
        proof {
            lemma_next_char(h, 0, '.');
        }
        if has_dot(parent_host(h)) {
            (mask_of(m, parent_host(h)) & mask == mask) || ancestor_subsumes(
                m,
                parent_host(h),
                mask,
            )
        } else {
            false
        }
    }
}

/// The mapping after one pruning pass: entries fully subsumed by an
/// ancestor in the snapshot `snap` disappear.  Decisions are taken
/// against the stable snapshot, never against removals of the same pass.
pub open spec fn prune_model(
    m: Seq<(Seq<char>, u8)>,
    snap: Seq<(Seq<char>, u8)>,
) -> Seq<(Seq<char>, u8)>
    decreases m.len(),
{
    if m.len() == 0 {
        m
    } else if ancestor_subsumes(snap, m[0].0, m[0].1) {
        prune_model(m.skip(1), snap)
    } else {
        seq![m[0]] + prune_model(m.skip(1), snap)
    }
}

/// The mask stored for exactly the suffix of `key` starting at `from`.
fn entries_mask_suffix(entries: &Vec<DomainEntry>, key: &Vec<char>, from: usize) -> (r: u8)
    requires
        from <= key@.len(),
    ensures
        r == mask_of(entry_model(entries@), key@.skip(from as int)),
{
    let ghost m = entry_model(entries@);
    let ghost k = key@.skip(from as int);
    proof {
        assert(m.skip(0) =~= m);
    }
    let mut i: usize = 0;
    while i < entries.len()
        invariant
            0 <= i <= entries@.len(),
            from <= key@.len(),
            m == entry_model(entries@),
            m.len() == entries@.len(),
            k == key@.skip(from as int),
            mask_of(m, k) == mask_of(m.skip(i as int), k),
        decreases entries@.len() - i,
    {
        proof {
            assert(m[i as int] == entries@[i as int]@);
            assert(m.skip(i as int)[0] == m[i as int]);
        }
        if chars_suffix_eq(key, from, &entries[i].domain) {
            return entries[i].mask;
        }
        proof {
            assert(m.skip(i as int).skip(1) =~= m.skip(i as int + 1));
        }
        i = i + 1;
    }
    proof {
        assert(m.skip(i as int).len() == 0);
    }
    0
}

/// Whether some dotted proper ancestor of `key` in the snapshot carries
/// every bit of `mask`, scanning ancestors nearest-first.
fn is_subsumed(entries: &Vec<DomainEntry>, key: &Vec<char>, mask: u8) -> (r: bool)
    ensures
        r == ancestor_subsumes(entry_model(entries@), key@, mask),
{
    let ghost m = entry_model(entries@);
    let len = key.len();
    let mut from: usize = 0;
    proof {
        assert(key@.skip(0) =~= key@);
    }
    loop
        invariant
            0 <= from <= len,
            len == key@.len(),
            m == entry_model(entries@),
            ancestor_subsumes(m, key@, mask) == ancestor_subsumes(m, key@.skip(from as int), mask),
        decreases len - from,
    {
        let ghost cur = key@.skip(from as int);
        let dot = find_char_vec(key, from, '.');
        proof {
            lemma_next_char(key@, from as int, '.');
            lemma_next_char_shift(key@, from as int, from as int, '.');
            assert(next_char(cur, 0, '.') == dot - from);
        }
        if dot == len {
            proof {
                assert(!has_dot(cur));
            }
            return false;
        }
        let next_from = dot + 1;
        proof {
            assert(has_dot(cur));
            assert(parent_host(cur) =~= key@.skip(next_from as int));
        }
        let dot2 = find_char_vec(key, next_from, '.');
        proof {
            lemma_next_char(key@, next_from as int, '.');
            lemma_next_char_shift(key@, next_from as int, next_from as int, '.');
            assert(next_char(key@.skip(next_from as int), 0, '.') == dot2 - next_from);
        }
        if dot2 == len {
            proof {
                assert(!has_dot(parent_host(cur)));
            }
            return false;
        }
        proof {
            assert(has_dot(parent_host(cur)));
        }
        let pm = entries_mask_suffix(entries, key, next_from);
        if pm & mask == mask {
            return true;
        }
        from = next_from;
    }
}

/// One pruning pass over the aggregated entries: an entry survives iff no
/// dotted ancestor in the input snapshot fully subsumes its mask.
pub fn prune_entries(entries: Vec<DomainEntry>) -> (out: Vec<DomainEntry>)
    ensures
        entry_model(out@) == prune_model(entry_model(entries@), entry_model(entries@)),
{
    let ghost m = entry_model(entries@);
    let mut out: Vec<DomainEntry> = Vec::new();
    let mut i: usize = 0;
    proof {
        assert(m.skip(0) =~= m);
        assert(entry_model(out@) + prune_model(m, m) =~= prune_model(m, m));
    }
    while i < entries.len()
        invariant
            0 <= i <= entries@.len(),
            m == entry_model(entries@),
            m.len() == entries@.len(),
            prune_model(m, m) == entry_model(out@) + prune_model(m.skip(i as int), m),
        decreases entries@.len() - i,
    {
        proof {
            assert(m[i as int] == entries@[i as int]@);
            assert(m.skip(i as int)[0] == m[i as int]);
            assert(m.skip(i as int).skip(1) =~= m.skip(i as int + 1));
        }
        let ghost pre = out@;
        let subsumed = is_subsumed(&entries, &entries[i].domain, entries[i].mask);
        if !subsumed {
            out.push(
                DomainEntry { domain: clone_chars(&entries[i].domain), mask: entries[i].mask },
            );
            proof {
                assert(entry_model(out@) =~= entry_model(pre) + seq![m[i as int]]);
                assert((entry_model(pre) + seq![m[i as int]]) + prune_model(
                    m.skip(i as int + 1),
                    m,
                ) =~= entry_model(pre) + (seq![m[i as int]] + prune_model(m.skip(i as int + 1), m)));
            }
        }
        i = i + 1;
    }
    proof {
        assert(m.skip(m.len() as int).len() == 0);
        assert(entry_model(out@) + prune_model(m.skip(m.len() as int), m) =~= entry_model(out@));
    }
    out
}

/// Pruning preserves well-formedness, only drops entries, and every
/// survivor was not subsumed in the snapshot.
pub proof fn lemma_prune_wf(m: Seq<(Seq<char>, u8)>, snap: Seq<(Seq<char>, u8)>)
    requires
        agg_wf(m),
    ensures
        agg_wf(prune_model(m, snap)),
        forall|j: int|
            0 <= j < prune_model(m, snap).len() ==> m.contains(#[trigger] prune_model(m, snap)[j]),
        forall|j: int|
            0 <= j < prune_model(m, snap).len() ==> !ancestor_subsumes(
                snap,
                (#[trigger] prune_model(m, snap)[j]).0,
                prune_model(m, snap)[j].1,
            ),
    decreases m.len(),
{
    let pm = prune_model(m, snap);
    if m.len() == 0 {
        assert(pm.len() == 0);
    } else {
        lemma_agg_wf_skip(m);
        lemma_prune_wf(m.skip(1), snap);
        let rest = prune_model(m.skip(1), snap);
        assert forall|j: int| 0 <= j < rest.len() implies m.contains(rest[j]) by {
            assert(m.skip(1).contains(rest[j]));
            let i = choose|i: int| 0 <= i < m.skip(1).len() && m.skip(1)[i] == rest[j];
            assert(m[i + 1] == rest[j]);
        }
        if ancestor_subsumes(snap, m[0].0, m[0].1) {
            assert(pm == rest);
        } else {
            assert(pm == seq![m[0]] + rest);
            assert(pm[0] == m[0]);
            assert forall|j: int| 0 <= j < pm.len() implies m.contains(pm[j]) by {
                if j == 0 {
                    assert(m[0] == pm[0]);
                } else {
                    assert(pm[j] == rest[j - 1]);
                    assert(m.contains(rest[j - 1]));
                }
            }
            assert forall|j: int|
                0 <= j < pm.len() implies pm[j].0.len() > 0 && crate::chars::ascii_seq(
                pm[j].0,
            ) by {
                if j == 0 {
                    assert(m[0].0.len() > 0 && crate::chars::ascii_seq(m[0].0));
                } else {
                    assert(pm[j] == rest[j - 1]);
                    assert(rest[j - 1].0.len() > 0 && crate::chars::ascii_seq(rest[j - 1].0));
                }
            }
            assert forall|j: int| 0 <= j < pm.len() implies pm[j].1 != 0 by {
                if j == 0 {
                    assert(m[0].1 != 0);
                } else {
                    assert(pm[j] == rest[j - 1]);
                    assert(rest[j - 1].1 != 0);
                }
            }
            assert forall|i: int, j: int| 0 <= i < j < pm.len() implies lex_lt(
                pm[i].0,
                pm[j].0,
            ) by {
                if i == 0 {
                    assert(pm[j] == rest[j - 1]);
                    assert(m.skip(1).contains(rest[j - 1]));
                    let w = choose|w: int|
                        0 <= w < m.skip(1).len() && m.skip(1)[w] == rest[j - 1];
                    assert(m[w + 1] == rest[j - 1]);
                    assert(lex_lt(m[0].0, m[w + 1].0));
                } else {
                    assert(pm[i] == rest[i - 1]);
                    assert(pm[j] == rest[j - 1]);
                    assert(lex_lt(rest[i - 1].0, rest[j - 1].0));
                }
            }
            assert forall|j: int|
                0 <= j < pm.len() implies !ancestor_subsumes(snap, pm[j].0, pm[j].1) by {
                if j > 0 {
                    assert(pm[j] == rest[j - 1]);
                    assert(!ancestor_subsumes(snap, rest[j - 1].0, rest[j - 1].1));
                }
            }
        }
    }
}

/// A surviving key reads its unpruned mask; a pruned or absent key reads
/// the empty mask.
proof fn lemma_prune_mask(m: Seq<(Seq<char>, u8)>, snap: Seq<(Seq<char>, u8)>, key: Seq<char>)
    requires
        agg_wf(m),
    ensures
        mask_of(prune_model(m, snap), key) == if contains_key(m, key) && !ancestor_subsumes(
            snap,
            key,
            mask_of(m, key),
        ) {
            mask_of(m, key)
        } else {
            0
        },
    decreases m.len(),
{
    let pm = prune_model(m, snap);
    if m.len() > 0 {
        lemma_agg_wf_skip(m);
        lemma_prune_mask(m.skip(1), snap, key);
        let rest = prune_model(m.skip(1), snap);
        if m[0].0 == key {
            assert(contains_key(m, key));
            lemma_head_not_in_tail(m);
            assert(mask_of(rest, key) == 0);
        } else {
            if contains_key(m, key) {
                let i = choose|i: int| 0 <= i < m.len() && m[i].0 == key;
                assert(m.skip(1)[i - 1].0 == key);
                assert(contains_key(m.skip(1), key));
            }
            if contains_key(m.skip(1), key) {
                let i = choose|i: int| 0 <= i < m.skip(1).len() && m.skip(1)[i].0 == key;
                assert(m[i + 1].0 == key);
                assert(contains_key(m, key));
            }
        }
        if ancestor_subsumes(snap, m[0].0, m[0].1) {
            assert(pm == rest);
        } else {
            assert(pm == seq![m[0]] + rest);
            lemma_mask_of_append(seq![m[0]], rest, key);
            assert(seq![m[0]].skip(1) =~= Seq::<(Seq<char>, u8)>::empty());
            if m[0].0 == key {
                assert(contains_key(seq![m[0]], key));
                assert(mask_of(seq![m[0]], key) == m[0].1);
            }
        }
    }
}

/// Subsumption transfers to a mapping that keeps every present mask.
proof fn lemma_subsumes_mono(
    m1: Seq<(Seq<char>, u8)>,
    m2: Seq<(Seq<char>, u8)>,
    h: Seq<char>,
    mask: u8,
)
    requires
        mask != 0,
        forall|p: Seq<char>| #[trigger]
            mask_of(m1, p) == mask_of(m2, p) || mask_of(m1, p) == 0,
        ancestor_subsumes(m1, h, mask),
    ensures
        ancestor_subsumes(m2, h, mask),
    decreases h.len(),
{
    lemma_next_char(h, 0, '.');
    let p = parent_host(h);
    if mask_of(m1, p) & mask == mask {
        lemma_mask_submask_nonzero(mask_of(m1, p), mask);
        assert(mask_of(m1, p) == mask_of(m2, p));
    } else {
        lemma_subsumes_mono(m1, m2, p, mask);
    }
}

/// Law: pruning is exhaustive.  After the pass, no surviving entry is
/// fully subsumed by any of its dotted ancestors in the pruned mapping
/// itself: no fully-redundant entry is left over.
pub proof fn lemma_prune_exhaustive(m: Seq<(Seq<char>, u8)>)
    requires
        agg_wf(m),
    ensures
        forall|j: int|
            0 <= j < prune_model(m, m).len() ==> !ancestor_subsumes(
                prune_model(m, m),
                (#[trigger] prune_model(m, m)[j]).0,
                prune_model(m, m)[j].1,
            ),
{
    let pm = prune_model(m, m);
    lemma_prune_wf(m, m);
    assert forall|p: Seq<char>| #[trigger]
        mask_of(pm, p) == mask_of(m, p) || mask_of(pm, p) == 0 by {
        lemma_prune_mask(m, m, p);
    }
    assert forall|j: int|
        0 <= j < pm.len() implies !ancestor_subsumes(pm, pm[j].0, pm[j].1) by {
        if ancestor_subsumes(pm, pm[j].0, pm[j].1) {
            assert(pm[j].1 != 0);
            lemma_subsumes_mono(pm, m, pm[j].0, pm[j].1);
            assert(!ancestor_subsumes(m, pm[j].0, pm[j].1));
        }
    }
}

/// A mask fully subsumed by some dotted ancestor in the snapshot stays
/// visible in the pruned mapping's walk from the same host.
proof fn lemma_subsumed_mask_in_pruned_walk(m: Seq<(Seq<char>, u8)>, h: Seq<char>, v: u8)
    requires
        agg_wf(m),
        ancestor_subsumes(m, h, v),
    ensures
        submask(v, walk_mask(prune_model(m, m), h)),
    decreases h.len(),
{
    let pm = prune_model(m, m);
    lemma_next_char(h, 0, '.');
    let p = parent_host(h);
    assert(has_dot(h) && has_dot(p));
    lemma_walk_monotonic(pm, h);
    assert(submask(walk_mask(pm, p), walk_mask(pm, h)));
    if mask_of(m, p) & v == v {
        let w = mask_of(m, p);
        if v == 0 {
            lemma_mask_and_zero(walk_mask(pm, h));
        } else {
            if !contains_key(m, p) {
                lemma_mask_of_absent(m, p);
                lemma_mask_and_zero(v);
            }
            assert(contains_key(m, p));
            lemma_prune_mask(m, m, p);
            if ancestor_subsumes(m, p, w) {
                lemma_subsumed_mask_in_pruned_walk(m, p, w);
                lemma_submask_trans(v, w, walk_mask(pm, p));
                lemma_submask_trans(v, walk_mask(pm, p), walk_mask(pm, h));
            } else {
                assert(mask_of(pm, p) == w);
                if has_dot(parent_host(p)) {
                    lemma_next_char(p, 0, '.');
                    lemma_mask_or_superset(mask_of(pm, p), walk_mask(pm, parent_host(p)));
                    lemma_mask_or_superset(walk_mask(pm, parent_host(p)), mask_of(pm, p));
                    assert(submask(w, walk_mask(pm, p)));
                } else {
                    assert(walk_mask(pm, p) == w);
                    lemma_submask_refl(w);
                }
                lemma_submask_trans(v, w, walk_mask(pm, p));
                lemma_submask_trans(v, walk_mask(pm, p), walk_mask(pm, h));
            }
        }
    } else {
        lemma_subsumed_mask_in_pruned_walk(m, p, v);
        lemma_submask_trans(v, walk_mask(pm, p), walk_mask(pm, h));
    }
}

/// Law: pruning changes no observable answer.  For every host, the walk
/// over the pruned mapping returns exactly the walk over the unpruned
/// mapping: removed entries are recovered through the ancestors that
/// subsumed them.
pub proof fn lemma_prune_preserves_walk(m: Seq<(Seq<char>, u8)>, h: Seq<char>)
    requires
        agg_wf(m),
    ensures
        walk_mask(prune_model(m, m), h) == walk_mask(m, h),
    decreases h.len(),
{
    let pm = prune_model(m, m);
    lemma_next_char(h, 0, '.');
    lemma_prune_mask(m, m, h);
    if !has_dot(h) {
        if !contains_key(m, h) {
            lemma_mask_of_absent(m, h);
        }
    } else {
        let p = parent_host(h);
        if !has_dot(p) {
            if !contains_key(m, h) {
                lemma_mask_of_absent(m, h);
            }
        } else {
            lemma_prune_preserves_walk(m, p);
            let w = walk_mask(m, p);
            if contains_key(m, h) && ancestor_subsumes(m, h, mask_of(m, h)) {
                assert(mask_of(pm, h) == 0);
                lemma_mask_or_zero(w);
                assert(walk_mask(pm, h) == w);
                lemma_subsumed_mask_in_pruned_walk(m, h, mask_of(m, h));
                assert(submask(mask_of(m, h), w));
                lemma_submask_or_absorb(mask_of(m, h), w);
            } else {
                if !contains_key(m, h) {
                    lemma_mask_of_absent(m, h);
                }
            }
        }
    }
}

/// Builds the runtime dictionary from an aggregation: prunes redundant
/// subdomain entries against a stable snapshot of the mapping, then
/// assembles the sorted immutable structure.  Pruning is invisible to the
/// matcher: the dictionary's walk answers exactly as the unpruned mapping
/// would.
pub fn build_dictionary(agg: Aggregator) -> (d: Dictionary)
    requires
        agg.wf(),
    ensures
        d@ == prune_model(agg@, agg@),
        d.wf(),
        forall|h: Seq<char>| #[trigger] walk_mask(d@, h) == walk_mask(agg@, h),
{
    let ghost m = agg@;
    let entries = agg.into_entries();
    let pruned = prune_entries(entries);
    proof {
        lemma_prune_wf(m, m);
        lemma_wf_build_scan(prune_model(m, m), 0);
        assert forall|h: Seq<char>| #[trigger] walk_mask(prune_model(m, m), h) == walk_mask(
            m,
            h,
        ) by {
            lemma_prune_preserves_walk(m, h);
        }
    }
    match Dictionary::build(pruned) {
        Ok(d) => d,
        Err(_) => {
            proof {
                assert(false);
            }
            vstd::pervasive::unreached()
        },
    }
}

} // verus!
