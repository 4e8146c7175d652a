//! The artifact codec: the built dictionary serialized into one immutable
//! binary blob at build time, and the deserializer that rebuilds the
//! dictionary from that blob at startup.
//!
//! Wire format: a 4-byte little-endian entry count, then for each entry in
//! ascending key order a 4-byte little-endian key length, the key's ASCII
//! bytes, and one mask byte.

use vstd::prelude::*;
use crate::chars::ascii_seq;
use crate::dict::{
    build_scan, entries_wf, entry_model, lemma_entries_wf_skip, Dictionary, DomainEntry,
};

verus! {

/// The four little-endian bytes of a 32-bit length.
pub open spec fn le32(n: u32) -> Seq<u8> {
    seq![
        (n & 0xff) as u8,
        ((n >> 8) & 0xff) as u8,
        ((n >> 16) & 0xff) as u8,
        ((n >> 24) & 0xff) as u8,
    ]
}

/// The 32-bit length four little-endian bytes encode.
pub open spec fn le32_val(b0: u8, b1: u8, b2: u8, b3: u8) -> u32 {
    (b0 as u32) | ((b1 as u32) << 8) | ((b2 as u32) << 16) | ((b3 as u32) << 24)
}

/// Decoding an encoded length gives the length back.
proof fn lemma_le32_round_trip(n: u32)
    ensures
        le32_val(
            (n & 0xff) as u8,
            ((n >> 8) & 0xff) as u8,
            ((n >> 16) & 0xff) as u8,
            ((n >> 24) & 0xff) as u8,
        ) == n,
{
    assert(((n & 0xff) as u8 as u32) | ((((n >> 8) & 0xff) as u8 as u32) << 8) | ((((n >> 16)
        & 0xff) as u8 as u32) << 16) | ((((n >> 24) & 0xff) as u8 as u32) << 24) == n)
        by (bit_vector);
}

/// A masked-out byte stays below 256.
proof fn lemma_byte_bound(x: u32)
    ensures
        x & 0xff < 256,
{
    assert(x & 0xff < 256) by (bit_vector);
}

/// An ASCII character survives the round trip through its wire byte.
proof fn lemma_ascii_char_byte(c: char)
    requires
        (c as u32) < 128,
    ensures
        (c as u8) < 128,
        (c as u8) as char == c,
{
    assert(c as u8 == (c as u32) as u8);
    assert(((c as u32) as u8) < 128);
}

/// The key's characters as wire bytes.
pub open spec fn key_bytes(k: Seq<char>) -> Seq<u8> {
    k.map(|i: int, c: char| c as u8)
}

/// All bytes are ASCII.
pub open spec fn ascii_bytes(b: Seq<u8>) -> bool {
    forall|i: int| 0 <= i < b.len() ==> b[i] < 128
}

/// The characters of ASCII wire bytes.
pub open spec fn bytes_key(b: Seq<u8>) -> Seq<char> {
    b.map(|i: int, x: u8| x as char)
}

/// One entry's wire form: key length, key bytes, mask byte.
pub open spec fn entry_bytes(e: (Seq<char>, u8)) -> Seq<u8> {
    le32(e.0.len() as u32) + key_bytes(e.0) + seq![e.1]
}

/// The entries' wire forms, in order.
pub open spec fn entries_bytes(m: Seq<(Seq<char>, u8)>) -> Seq<u8>
    decreases m.len(),
{
    if m.len() == 0 {
        Seq::empty()
    } else {
        entry_bytes(m[0]) + entries_bytes(m.skip(1))
    }
}

/// The whole artifact: entry count, then the entries.
pub open spec fn artifact_bytes(m: Seq<(Seq<char>, u8)>) -> Seq<u8> {
    le32(m.len() as u32) + entries_bytes(m)
}

/// Parses exactly `n` entries out of `b`, consuming every byte.
pub open spec fn parse_entries(b: Seq<u8>, n: nat) -> Option<Seq<(Seq<char>, u8)>>
    decreases n,
{
    if n == 0 {
        if b.len() == 0 {
            Some(Seq::empty())
        } else {
            None
        }
    } else if b.len() < 4 {
        None
    } else {
        let l = le32_val(b[0], b[1], b[2], b[3]) as int;
        if l == 0 || b.len() < 4 + l + 1 {
            None
        } else if !ascii_bytes(b.subrange(4, 4 + l)) {
            None
        } else {
            match parse_entries(b.skip(4 + l + 1), (n - 1) as nat) {
                Some(rest) => Some(seq![(bytes_key(b.subrange(4, 4 + l)), b[4 + l])] + rest),
                None => None,
            }
        }
    }
}

/// Parses a whole artifact blob; `None` means the blob is malformed.
pub open spec fn parse_artifact(b: Seq<u8>) -> Option<Seq<(Seq<char>, u8)>> {
    if b.len() < 4 {
        None
    } else {
        parse_entries(b.skip(4), le32_val(b[0], b[1], b[2], b[3]) as nat)
    }
}

/// The embedded blob failed to deserialize.  The artifact ships with the
/// binary, so this is a packaging defect, not a runtime condition.
#[derive(Clone, Copy, PartialEq, Eq, Structural, Debug)]
pub struct MalformedArtifact;

/// Appends the four little-endian bytes of `n`.
fn push_le32(out: &mut Vec<u8>, n: u32)
    ensures
        final(out)@ == old(out)@ + le32(n),
{
    proof {
        lemma_byte_bound(n);
        lemma_byte_bound(n >> 8);
        lemma_byte_bound(n >> 16);
        lemma_byte_bound(n >> 24);
    }
    out.push((n & 0xff) as u8);
    out.push(((n >> 8) & 0xff) as u8);
    out.push(((n >> 16) & 0xff) as u8);
    out.push(((n >> 24) & 0xff) as u8);
    proof {
        assert(out@ =~= old(out)@ + le32(n));
    }
}

/// Appends the ASCII key's bytes.
fn push_key_bytes(out: &mut Vec<u8>, key: &Vec<char>)
    requires
        ascii_seq(key@),
    ensures
        final(out)@ == old(out)@ + key_bytes(key@),
{
    let mut j: usize = 0;
    while j < key.len()
        invariant
            0 <= j <= key@.len(),
            ascii_seq(key@),
            out@ == old(out)@ + key_bytes(key@.subrange(0, j as int)),
        decreases key@.len() - j,
    {
        proof {
            assert((key@[j as int] as u32) < 128);
        }
        out.push(key[j] as u8);
        proof {
            assert(out@ =~= old(out)@ + key_bytes(key@.subrange(0, j as int + 1)));
        }
        j = j + 1;
    }
    proof {
        assert(key@.subrange(0, key@.len() as int) =~= key@);
    }
}

/// Reads `l` key bytes at `pos` back into characters, or reports a
/// non-ASCII byte.
fn read_key(bytes: &Vec<u8>, pos: usize, l: usize) -> (r: Option<Vec<char>>)
    requires
        pos + l <= bytes@.len(),
    ensures
        match r {
            Some(key) => ascii_bytes(bytes@.subrange(pos as int, pos as int + l as int)) && key@
                == bytes_key(bytes@.subrange(pos as int, pos as int + l as int)),
            None => !ascii_bytes(bytes@.subrange(pos as int, pos as int + l as int)),
        },
{
    let ghost kb = bytes@.subrange(pos as int, pos as int + l as int);
    let len = bytes.len();
    let mut key: Vec<char> = Vec::new();
    let mut j: usize = 0;
    while j < l
        invariant
            0 <= j <= l,
            pos + l <= len,
            len == bytes@.len(),
            kb == bytes@.subrange(pos as int, pos as int + l as int),
            key@ == bytes_key(bytes@.subrange(pos as int, pos as int + j as int)),
            forall|t: int| 0 <= t < j ==> kb[t] < 128,
        decreases l - j,
    {
        let b = bytes[pos + j];
        proof {
            assert(kb[j as int] == bytes@[pos + j]);
        }
        if b >= 128 {
            return None;
        }
        key.push(b as char);
        proof {
            assert(key@ =~= bytes_key(bytes@.subrange(pos as int, pos as int + j as int + 1)));
        }
        j = j + 1;
    }
    Some(key)
}

/// Reads the four little-endian bytes at `pos` as a length.
fn read_le32(bytes: &Vec<u8>, pos: usize) -> (r: u32)
    requires
        pos + 4 <= bytes@.len(),
    ensures
        r == le32_val(
            bytes@[pos as int],
            bytes@[pos as int + 1],
            bytes@[pos as int + 2],
            bytes@[pos as int + 3],
        ),
{
    let len = bytes.len();
    let b0 = bytes[pos];
    let b1 = bytes[pos + 1];
    let b2 = bytes[pos + 2];
    let b3 = bytes[pos + 3];
    (b0 as u32) | ((b1 as u32) << 8) | ((b2 as u32) << 16) | ((b3 as u32) << 24)
}

/// Serializes the dictionary into its immutable artifact blob.  The
/// format caps the entry count and each key length at 32 bits.
pub fn serialize(d: &Dictionary) -> (out: Vec<u8>)
    requires
        d.wf(),
        d@.len() < 4294967296,
        forall|i: int| 0 <= i < d@.len() ==> (#[trigger] d@[i]).0.len() < 4294967296,
    ensures
        out@ == artifact_bytes(d@),
{
    let entries = d.entries_ref();
    let ghost m = d@;
    let mut out: Vec<u8> = Vec::new();
    push_le32(&mut out, entries.len() as u32);
    proof {
        assert(m.skip(0) =~= m);
        assert(out@ + entries_bytes(m) =~= artifact_bytes(m));
    }
    let mut i: usize = 0;
    while i < entries.len()
        invariant
            0 <= i <= entries@.len(),
            m == entry_model(entries@),
            m.len() == entries@.len(),
            entries_wf(m),
            forall|j: int| 0 <= j < m.len() ==> (#[trigger] m[j]).0.len() < 4294967296,
            artifact_bytes(m) == out@ + entries_bytes(m.skip(i as int)),
        decreases entries@.len() - i,
    {
        proof {
            assert(m[i as int] == entries@[i as int]@);
            assert(m[i as int].0.len() > 0 && ascii_seq(m[i as int].0));
            assert(m[i as int].0.len() < 4294967296);
        }
        let ghost pre = out@;
        push_le32(&mut out, entries[i].domain.len() as u32);
        push_key_bytes(&mut out, &entries[i].domain);
        out.push(entries[i].mask);
        proof {
            assert(out@ =~= pre + entry_bytes(m[i as int]));
            assert(m.skip(i as int)[0] == m[i as int]);
            assert(m.skip(i as int).skip(1) =~= m.skip(i as int + 1));
            assert(pre + (entry_bytes(m[i as int]) + entries_bytes(m.skip(i as int + 1))) =~= (pre
                + entry_bytes(m[i as int])) + entries_bytes(m.skip(i as int + 1)));
        }
        i = i + 1;
    }
    proof {
        assert(m.skip(m.len() as int).len() == 0);
        assert(out@ + entries_bytes(m.skip(m.len() as int)) =~= out@);
    }
    out
}

/// Serializes the dictionary when it fits the format's 32-bit limits, and
/// reports an oversized dictionary instead of producing a blob.
pub fn try_serialize(d: &Dictionary) -> (r: Option<Vec<u8>>)
    requires
        d.wf(),
    ensures
        match r {
            Some(out) => out@ == artifact_bytes(d@),
            None => d@.len() >= 4294967296 || exists|i: int|
                0 <= i < d@.len() && (#[trigger] d@[i]).0.len() >= 4294967296,
        },
{
    let entries = d.entries_ref();
    if (entries.len() as u64) >= 4294967296u64 {
        return None;
    }
    let mut i: usize = 0;
    while i < entries.len()
        invariant
            0 <= i <= entries@.len(),
            entry_model(entries@) == d@,
            d@.len() == entries@.len(),
            forall|j: int| 0 <= j < i ==> (#[trigger] d@[j]).0.len() < 4294967296,
        decreases entries@.len() - i,
    {
        proof {
            assert(d@[i as int] == entries@[i as int]@);
        }
        if (entries[i].domain.len() as u64) >= 4294967296u64 {
            return None;
        }
        i = i + 1;
    }
    Some(serialize(d))
}

/// Rebuilds the dictionary from an artifact blob.  The blob must parse
/// exactly and its keys must be non-empty ASCII in strictly ascending
/// order: anything else is reported as a malformed artifact.
pub fn deserialize(bytes: &Vec<u8>) -> (r: Result<Dictionary, MalformedArtifact>)
    ensures
        match r {
            Ok(d) => (match parse_artifact(bytes@) {
                Some(m) => d@ == m && build_scan(m, 0) is None,
                None => false,
            }) && d.wf(),
            Err(_) => match parse_artifact(bytes@) {
                Some(m) => build_scan(m, 0) is Some,
                None => true,
            },
        },
{
    let total = bytes.len();
    if total < 4 {
        return Err(MalformedArtifact);
    }
    let n = read_le32(bytes, 0);
    let mut pos: usize = 4;
    let mut remaining = n;
    let mut acc: Vec<DomainEntry> = Vec::new();
    proof {
        assert(entry_model(acc@) + Seq::<(Seq<char>, u8)>::empty() =~= entry_model(acc@));
        assert(entry_model(acc@).len() == 0);
    }
    while remaining > 0
        invariant
            4 <= pos <= total,
            total == bytes@.len(),
            n == le32_val(bytes@[0], bytes@[1], bytes@[2], bytes@[3]),
            parse_entries(bytes@.skip(4), n as nat) == (match parse_entries(
                bytes@.skip(pos as int),
                remaining as nat,
            ) {
                Some(rest) => Some(entry_model(acc@) + rest),
                None => None,
            }),
        decreases remaining,
    {
        let ghost cur = bytes@.skip(pos as int);
        if total - pos < 4 {
            proof {
                assert(cur.len() < 4);
            }
            return Err(MalformedArtifact);
        }
        let l32 = read_le32(bytes, pos);
        proof {
            assert(cur[0] == bytes@[pos as int]);
            assert(cur[1] == bytes@[pos as int + 1]);
            assert(cur[2] == bytes@[pos as int + 2]);
            assert(cur[3] == bytes@[pos as int + 3]);
        }
        let l = l32 as usize;
        let avail = total - pos - 4;
        if l == 0 || avail < 1 || l > avail - 1 {
            proof {
                assert(l as int == 0 || cur.len() < 4 + l as int + 1);
            }
            return Err(MalformedArtifact);
        }
        let ghost kb0 = bytes@.subrange(pos as int + 4, pos as int + 4 + l as int);
        proof {
            assert(cur.subrange(4, 4 + l as int) =~= kb0);
        }
        let key = match read_key(bytes, pos + 4, l) {
            Some(key) => key,
            None => {
                return Err(MalformedArtifact);
            },
        };
        let mask = bytes[pos + 4 + l];
        let ghost pre = acc@;
        acc.push(DomainEntry { domain: key, mask });
        proof {
            let kb = cur.subrange(4, 4 + l as int);
            assert(kb == kb0);
            assert(ascii_bytes(kb));
            assert(cur[4 + l as int] == bytes@[pos as int + 4 + l as int]);
            assert(cur.skip(4 + l as int + 1) =~= bytes@.skip(pos as int + 4 + l as int + 1));
            assert(entry_model(acc@) =~= entry_model(pre) + seq![(bytes_key(kb), mask)]);
            assert forall|rest: Seq<(Seq<char>, u8)>|
                (entry_model(pre) + seq![(bytes_key(kb), mask)]) + rest =~= entry_model(pre) + (
                seq![(bytes_key(kb), mask)] + rest) by {}
        }
        pos = pos + 4 + l + 1;
        remaining = remaining - 1;
    }
    if pos != total {
        proof {
            assert(bytes@.skip(pos as int).len() > 0);
        }
        return Err(MalformedArtifact);
    }
    proof {
        assert(bytes@.skip(pos as int).len() == 0);
        assert(entry_model(acc@) + Seq::<(Seq<char>, u8)>::empty() =~= entry_model(acc@));
    }
    match Dictionary::build(acc) {
        Ok(d) => Ok(d),
        Err(_) => Err(MalformedArtifact),
    }
}

/// Law: the artifact codec round-trips.  Serializing a well-formed
/// dictionary model and parsing the blob back yields that model exactly,
/// so a correctly packaged artifact never reports `MalformedArtifact`.
#[verifier::rlimit(50)]
pub proof fn lemma_artifact_round_trip(m: Seq<(Seq<char>, u8)>)
    requires
        entries_wf(m),
        m.len() < 4294967296,
        forall|i: int| 0 <= i < m.len() ==> (#[trigger] m[i]).0.len() < 4294967296,
    ensures
        parse_artifact(artifact_bytes(m)) == Some(m),
{
    let b = artifact_bytes(m);
    let c = le32(m.len() as u32);
    assert(b[0] == c[0] && b[1] == c[1] && b[2] == c[2] && b[3] == c[3]);
    lemma_le32_round_trip(m.len() as u32);
    assert(le32_val(b[0], b[1], b[2], b[3]) as nat == m.len());
    assert(b.skip(4) =~= entries_bytes(m));
    lemma_parse_entries_round_trip(m);
}

/// Parsing back the wire form of well-formed entries yields the entries.
#[verifier::rlimit(50)]
proof fn lemma_parse_entries_round_trip(m: Seq<(Seq<char>, u8)>)
    requires
        entries_wf(m),
        forall|i: int| 0 <= i < m.len() ==> (#[trigger] m[i]).0.len() < 4294967296,
    ensures
        parse_entries(entries_bytes(m), m.len()) == Some(m),
    decreases m.len(),
{
    if m.len() == 0 {
        assert(Seq::<(Seq<char>, u8)>::empty() =~= m);
    } else {
        lemma_entries_wf_skip(m);
        assert forall|i: int|
            0 <= i < m.skip(1).len() implies (#[trigger] m.skip(1)[i]).0.len() < 4294967296 by {
            assert(m.skip(1)[i] == m[i + 1]);
            assert(m[i + 1].0.len() < 4294967296);
        }
        lemma_parse_entries_round_trip(m.skip(1));
        let key = m[0].0;
        let l = key.len() as int;
        assert(m[0].0.len() > 0 && ascii_seq(m[0].0));
        let eb = entry_bytes(m[0]);
        let rest = entries_bytes(m.skip(1));
        let b = eb + rest;
        let c = le32(key.len() as u32);
        assert(eb.len() == 4 + l + 1);
        assert(b[0] == c[0] && b[1] == c[1] && b[2] == c[2] && b[3] == c[3]);
        lemma_le32_round_trip(key.len() as u32);
        assert(le32_val(b[0], b[1], b[2], b[3]) as int == l);
        assert(b.len() >= 4 + l + 1);
        let kb = b.subrange(4, 4 + l);
        assert(kb =~= key_bytes(key));
        assert(kb.len() == key.len());
        assert forall|t: int| 0 <= t < kb.len() implies kb[t] < 128 by {
            assert(kb[t] == key_bytes(key)[t]);
            assert(key_bytes(key)[t] == key[t] as u8);
            assert((key[t] as u32) < 128);
            lemma_ascii_char_byte(key[t]);
        }
        assert(ascii_bytes(kb));
        assert forall|t: int| 0 <= t < l implies bytes_key(kb)[t] == key[t] by {
            assert(bytes_key(kb)[t] == kb[t] as char);
            assert(kb[t] == key_bytes(key)[t]);
            assert(key_bytes(key)[t] == key[t] as u8);
            assert((key[t] as u32) < 128);
            lemma_ascii_char_byte(key[t]);
        }
        assert(bytes_key(kb) =~= key);
        assert(b[4 + l] == eb[4 + l]);
        assert(eb[4 + l] == m[0].1);
        assert(b.skip(4 + l + 1) =~= rest);
        assert(seq![(bytes_key(kb), b[4 + l])] + m.skip(1) =~= m);
    }
}

} // verus!
