//! Pack index parsers for version 1 and version 2, with their fanout tables.
use vstd::prelude::*;
use crate::model::bytes::{be32, be64, begins_with, oid_at, read_be32, read_be64, same_bytes};
use crate::model::indexrows::{
    is_new_index, is_old_index, new_index_layout, new_index_row, old_index_layout, Row,
};
use crate::model::outside::{sha1, sha1_of};
use crate::model::text::{dec, push_dec};

verus! {

#[derive(Clone, Copy, Debug)]
pub struct IdxEntry {
    pub oid: [u8; 20],
    pub offset: u64,
    pub crc32: Option<u32>,
}

#[derive(Debug)]
pub struct ParsedIdx {
    pub version: u8,
    pub fanout: [u32; 256],
    pub num_entries: u32,
    pub entries: Vec<IdxEntry>,
    pub pack_checksum: [u8; 20],
    pub idx_checksum: [u8; 20],
    pub computed_idx_sha: [u8; 20],
    pub idx_checksum_ok: bool,
    pub parse_error: Option<String>,
}

/// The magic number of a version 2 index.
pub open spec fn v2_magic() -> Seq<u8> {
    seq![255u8, 116, 79, 99]
}

/// A fanout table that stands at `base`.
pub open spec fn is_fanout(fan: Seq<u32>, buf: Seq<u8>, base: int) -> bool {
    &&& fan.len() == 256
    &&& forall|i: int| 0 <= i < 256 ==> fan[i] == be32(buf, base + i * 4)
}

/// The number of objects that a version 2 index declares.
pub open spec fn v2_count(buf: Seq<u8>) -> nat {
    be32(buf, 1028) as nat
}

/// The raw 32-bit offset of a version 2 entry.
pub open spec fn v2_raw(buf: Seq<u8>, n: nat, i: int) -> u32 {
    be32(buf, 1032 + n * 24 + i * 4)
}

/// The entry refers to the table of 64-bit offsets.
pub open spec fn v2_is_large(raw: u32) -> bool {
    raw >= 0x8000_0000
}

/// Where the 64-bit offset of an entry stands.
pub open spec fn v2_large_at(n: nat, raw: u32) -> int {
    1032 + n * 28 + (raw - 0x8000_0000) * 8
}

/// The 64-bit offset of an entry stands inside the index.
pub open spec fn v2_entry_sound(buf: Seq<u8>, n: nat, i: int) -> bool {
    let raw = v2_raw(buf, n, i);
    v2_is_large(raw) ==> v2_large_at(n, raw) + 8 <= buf.len() - 40
}

/// An entry of a version 2 index.
pub open spec fn is_v2_entry(e: IdxEntry, buf: Seq<u8>, n: nat, i: int) -> bool {
    let raw = v2_raw(buf, n, i);
    &&& e.oid@ == buf.subrange(1032 + i * 20, 1032 + i * 20 + 20)
    &&& e.crc32 == Some(be32(buf, 1032 + n * 20 + i * 4))
    &&& e.offset == if v2_is_large(raw) {
        be64(buf, v2_large_at(n, raw))
    } else {
        raw as u64
    }
}

/// An entry of a version 1 index.
pub open spec fn is_v1_entry(e: IdxEntry, buf: Seq<u8>, i: int) -> bool {
    &&& e.oid@ == buf.subrange(1024 + i * 24 + 4, 1024 + i * 24 + 24)
    &&& e.crc32 is None
    &&& e.offset == be32(buf, 1024 + i * 24)
}

/// The two checksums at the end of an index, and what the tables hash to.
pub open spec fn has_trailer(p: ParsedIdx, buf: Seq<u8>) -> bool {
    let n = buf.len() as int;
    &&& p.pack_checksum@ == buf.subrange(n - 40, n - 20)
    &&& p.idx_checksum@ == buf.subrange(n - 20, n)
    &&& p.computed_idx_sha@ == sha1_of(buf.take(n - 40))
    &&& p.idx_checksum_ok == (p.computed_idx_sha@ == p.idx_checksum@)
}

/// What a version 2 index holds.
pub open spec fn is_v2(p: ParsedIdx, buf: Seq<u8>) -> bool {
    let n = v2_count(buf);
    &&& p.version == 2
    &&& is_fanout(p.fanout@, buf, 8)
    &&& p.num_entries == n
    &&& p.entries@.len() == n
    &&& forall|i: int| 0 <= i < n ==> is_v2_entry(#[trigger] p.entries@[i], buf, n, i)
    &&& has_trailer(p, buf)
    &&& p.parse_error is None
}

/// What a version 1 index holds.
pub open spec fn is_v1(p: ParsedIdx, buf: Seq<u8>) -> bool {
    let n = be32(buf, 1020) as nat;
    &&& p.version == 1
    &&& is_fanout(p.fanout@, buf, 0)
    &&& p.num_entries == n
    &&& p.entries@.len() == n
    &&& forall|i: int| 0 <= i < n ==> is_v1_entry(#[trigger] p.entries@[i], buf, i)
    &&& has_trailer(p, buf)
    &&& p.parse_error is None
}

/// All offsets of a version 2 index can be looked up.
pub open spec fn v2_sound(buf: Seq<u8>) -> bool {
    forall|i: int| 0 <= i < v2_count(buf) ==> #[trigger] v2_entry_sound(buf, v2_count(buf), i)
}

/// What was parsed are the rows, the fanout table and the checksums of an index.
pub open spec fn reads(p: ParsedIdx, rows: Seq<Row>, fan: Seq<u32>, pack_sum: Seq<u8>, sum: Seq<u8>) -> bool {
    &&& p.fanout@ == fan
    &&& p.num_entries == rows.len()
    &&& p.entries@.len() == rows.len()
    &&& forall|i: int|
        0 <= i < rows.len() ==> (#[trigger] p.entries@[i]).oid@ == rows[i].oid && p.entries@[i].offset == rows[i].offset
    &&& forall|i: int|
        0 <= i < rows.len() ==> (#[trigger] p.entries@[i]).crc32 == if p.version == 2 {
            Some(rows[i].crc)
        } else {
            None
        }
    &&& p.pack_checksum@ == pack_sum
    &&& p.idx_checksum@ == sum
}

proof fn lemma_new(b: Seq<u8>, rows: Seq<Row>, fan: Seq<u32>, pack_sum: Seq<u8>, sum: Seq<u8>)
    requires
        is_new_index(b, rows, fan, pack_sum, sum),
    ensures
        b.len() >= 1072,
        v2_magic().is_prefix_of(b),
        be32(b, 4) == 2,
        v2_count(b) == rows.len(),
        b.len() >= 1072 + v2_count(b) * 28,
        v2_sound(b),
        forall|p: ParsedIdx| #[trigger] is_v2(p, b) ==> reads(p, rows, fan, pack_sum, sum),
{
    new_index_layout(rows, fan, pack_sum, sum);
    let n = rows.len();
    assert forall|i: int| 0 <= i < n implies #[trigger] v2_entry_sound(b, n, i) by {
        new_index_row(rows, fan, pack_sum, sum, i);
    }
    assert forall|p: ParsedIdx| #[trigger] is_v2(p, b) implies reads(p, rows, fan, pack_sum, sum) by {
        assert(p.fanout@ =~= fan) by {
            assert forall|j: int| 0 <= j < 256 implies p.fanout@[j] == #[trigger] fan[j] by {}
        }
        assert forall|i: int| 0 <= i < n implies (#[trigger] p.entries@[i]).oid@ == rows[i].oid && p.entries@[i].offset
            == rows[i].offset && p.entries@[i].crc32 == Some(rows[i].crc) by {
            new_index_row(rows, fan, pack_sum, sum, i);
            assert(is_v2_entry(p.entries@[i], b, n, i));
        }
    }
}

proof fn lemma_old(b: Seq<u8>, rows: Seq<Row>, fan: Seq<u32>, pack_sum: Seq<u8>, sum: Seq<u8>)
    requires
        is_old_index(b, rows, fan, pack_sum, sum),
    ensures
        b.len() >= 1064 + rows.len() * 24,
        !v2_magic().is_prefix_of(b),
        be32(b, 1020) == rows.len(),
        forall|p: ParsedIdx| #[trigger] is_v1(p, b) ==> reads(p, rows, fan, pack_sum, sum),
{
    old_index_layout(rows, fan, pack_sum, sum, 0);
    let n = rows.len();
    if v2_magic().is_prefix_of(b) {
        let h = b.subrange(0, 4);
        assert(h == v2_magic());
        assert(h[0] == b[0] && h[1] == b[1] && h[2] == b[2] && h[3] == b[3]);
        assert(be32(b, 0) == 0xff74_4f63);
    }
    assert forall|p: ParsedIdx| #[trigger] is_v1(p, b) implies reads(p, rows, fan, pack_sum, sum) by {
        assert(p.fanout@ =~= fan) by {
            assert forall|j: int| 0 <= j < 256 implies p.fanout@[j] == #[trigger] fan[j] by {
                assert(p.fanout@[j] == be32(b, 0 + j * 4));
            }
        }
        assert forall|i: int| 0 <= i < n implies (#[trigger] p.entries@[i]).oid@ == rows[i].oid && p.entries@[i].offset
            == rows[i].offset && p.entries@[i].crc32 is None by {
            old_index_layout(rows, fan, pack_sum, sum, i);
            assert(is_v1_entry(p.entries@[i], b, i));
            assert(rows[i].offset <= u32::MAX);
        }
    }
}

/// Parses a pack index of either version.
pub fn parse_idx(buf: &[u8]) -> (r: Result<ParsedIdx, String>)
    ensures
        ({
            let b = buf@;
            let n1 = be32(b, 1020) as nat;
            let n2 = v2_count(b);
            let v2 = v2_magic().is_prefix_of(b);
            match r {
                Ok(p) => b.len() >= 1032 && if v2 {
                    be32(b, 4) == 2 && b.len() >= 1072 + n2 * 28 && v2_sound(b) && is_v2(p, b)
                } else {
                    b.len() >= 1064 + n1 * 24 && is_v1(p, b)
                },
                Err(e) => {
                    ||| b.len() < 1032 && e@ == "idx shorter than fanout table"@
                    ||| b.len() >= 1032 && v2 && be32(b, 4) != 2 && e@
                        == "unsupported idx v2 version field "@ + dec(be32(b, 4) as nat)
                    ||| b.len() >= 1032 && v2 && be32(b, 4) == 2 && b.len() < 1072 + n2 * 28 && e@
                        == "idx v2 tables truncated"@
                    ||| b.len() >= 1032 && v2 && be32(b, 4) == 2 && b.len() >= 1072 + n2 * 28 && !v2_sound(b)
                        && e@ == "extended offset index out of range"@
                    ||| b.len() >= 1032 && !v2 && b.len() < 1064 && e@ == "idx v1 too short"@
                    ||| b.len() >= 1064 && !v2 && b.len() < 1064 + n1 * 24 && e@
                        == "idx v1 entries truncated"@
                },
            }
        }),
        forall|rows: Seq<Row>, fan: Seq<u32>, pack_sum: Seq<u8>, sum: Seq<u8>|
            #![trigger is_new_index(buf@, rows, fan, pack_sum, sum)]
            #![trigger is_old_index(buf@, rows, fan, pack_sum, sum)]
            is_new_index(buf@, rows, fan, pack_sum, sum) || is_old_index(buf@, rows, fan, pack_sum, sum) ==> (
            r matches Ok(p) && reads(p, rows, fan, pack_sum, sum)),
{
    proof {
        assert forall|rows: Seq<Row>, fan: Seq<u32>, pack_sum: Seq<u8>, sum: Seq<u8>| #[trigger]
            is_new_index(buf@, rows, fan, pack_sum, sum) implies buf@.len() >= 1072 && v2_magic().is_prefix_of(buf@)
            && be32(buf@, 4) == 2 && buf@.len() >= 1072 + v2_count(buf@) * 28 && v2_sound(buf@) && forall|p: ParsedIdx|
            #[trigger] is_v2(p, buf@) ==> reads(p, rows, fan, pack_sum, sum) by {
            lemma_new(buf@, rows, fan, pack_sum, sum);
        }
        assert forall|rows: Seq<Row>, fan: Seq<u32>, pack_sum: Seq<u8>, sum: Seq<u8>| #[trigger]
            is_old_index(buf@, rows, fan, pack_sum, sum) implies buf@.len() >= 1064 && !v2_magic().is_prefix_of(buf@)
            && buf@.len() >= 1064 + be32(buf@, 1020) * 24 && forall|p: ParsedIdx| #[trigger]
            is_v1(p, buf@) ==> reads(p, rows, fan, pack_sum, sum) by {
            lemma_old(buf@, rows, fan, pack_sum, sum);
        }
    }
    if buf.len() < 1032 {
        return Err("idx shorter than fanout table".to_owned());
    }
    let magic: [u8; 4] = [255, 116, 79, 99];
    assert(magic@ =~= v2_magic());
    if begins_with(buf, magic.as_slice()) {
        parse_v2(buf)
    } else {
        parse_v1(buf)
    }
}

fn fanout(buf: &[u8], base: usize) -> (f: [u32; 256])
    requires
        base + 1024 <= buf@.len(),
    ensures
        is_fanout(f@, buf@, base as int),
{
    assert(base + 1024 <= buf.len());
    let mut f: [u32; 256] = [0u32; 256];
    let mut i: usize = 0;
    while i < 256
        invariant
            i <= 256,
            base + 1024 <= buf.len(),
            f@.len() == 256,
            forall|j: int| 0 <= j < i ==> f@[j] == be32(buf@, base + j * 4),
        decreases 256 - i,
    {
        f[i] = read_be32(buf, base + i * 4);
        i += 1;
    }
    f
}

/// The trailing pack checksum, index checksum and the hash of what precedes them.
fn trailer(buf: &[u8]) -> (t: ([u8; 20], [u8; 20], [u8; 20], bool))
    requires
        buf@.len() >= 40,
    ensures
        t.0@ == buf@.subrange(buf@.len() - 40, buf@.len() - 20),
        t.1@ == buf@.subrange(buf@.len() - 20, buf@.len() as int),
        t.2@ == sha1_of(buf@.take(buf@.len() - 40)),
        t.3 == (t.2@ == t.1@),
{
    let n: usize = buf.len();
    let pack_checksum = oid_at(buf, n - 40);
    let idx_checksum = oid_at(buf, n - 20);
    let body = vstd::slice::slice_subrange(buf, 0, n - 40);
    assert(body@ =~= buf@.take(buf@.len() - 40));
    let computed = sha1(body);
    let ok: bool = same_bytes(computed.as_slice(), idx_checksum.as_slice());
    (pack_checksum, idx_checksum, computed, ok)
}

fn parse_v2(buf: &[u8]) -> (r: Result<ParsedIdx, String>)
    requires
        buf@.len() >= 1032,
    ensures
        ({
            let b = buf@;
            let n2 = v2_count(b);
            match r {
                Ok(p) => be32(b, 4) == 2 && b.len() >= 1072 + n2 * 28 && v2_sound(b) && is_v2(p, b),
                Err(e) => {
                    ||| be32(b, 4) != 2 && e@ == "unsupported idx v2 version field "@ + dec(
                        be32(b, 4) as nat,
                    )
                    ||| be32(b, 4) == 2 && b.len() < 1072 + n2 * 28 && e@ == "idx v2 tables truncated"@
                    ||| be32(b, 4) == 2 && b.len() >= 1072 + n2 * 28 && !v2_sound(b) && e@
                        == "extended offset index out of range"@
                },
            }
        }),
{
    let version: u32 = read_be32(buf, 4);
    if version != 2 {
        let mut m = "unsupported idx v2 version field ".to_owned();
        push_dec(&mut m, version as u64);
        return Err(m);
    }
    let fan = fanout(buf, 8);
    let n32: u32 = fan[255];
    if (buf.len() as u64) < 1072 + n32 as u64 * 28 {
        return Err("idx v2 tables truncated".to_owned());
    }
    let n: usize = n32 as usize;
    let mut entries: Vec<IdxEntry> = Vec::new();
    let mut i: usize = 0;
    while i < n
        invariant
            i <= n,
            n == v2_count(buf@),
            n <= u32::MAX,
            1072 + n * 28 <= buf.len(),
            be32(buf@, 4) == 2,
            entries@.len() == i,
            forall|j: int| 0 <= j < i ==> #[trigger] v2_entry_sound(buf@, n as nat, j),
            forall|j: int| 0 <= j < i ==> is_v2_entry(#[trigger] entries@[j], buf@, n as nat, j),
        decreases n - i,
    {
        let raw: u32 = read_be32(buf, 1032 + n * 24 + i * 4);
        assert(raw == v2_raw(buf@, n as nat, i as int));
        let offset: u64 = if raw >= 0x8000_0000 {
            let at: u64 = 1032 + n as u64 * 28 + (raw - 0x8000_0000) as u64 * 8;
            if at + 8 > buf.len() as u64 - 40 {
                assert(!v2_entry_sound(buf@, n as nat, i as int));
                return Err("extended offset index out of range".to_owned());
            }
            read_be64(buf, at as usize)
        } else {
            raw as u64
        };
        let oid = oid_at(buf, 1032 + i * 20);
        let crc: u32 = read_be32(buf, 1032 + n * 20 + i * 4);
        entries.push(IdxEntry { oid, offset, crc32: Some(crc) });
        i += 1;
    }
    let (pack_checksum, idx_checksum, computed_idx_sha, idx_checksum_ok) = trailer(buf);
    Ok(
        ParsedIdx {
            version: 2,
            fanout: fan,
            num_entries: n32,
            entries,
            pack_checksum,
            idx_checksum,
            computed_idx_sha,
            idx_checksum_ok,
            parse_error: None,
        },
    )
}

fn parse_v1(buf: &[u8]) -> (r: Result<ParsedIdx, String>)
    requires
        buf@.len() >= 1032,
    ensures
        ({
            let b = buf@;
            let n1 = be32(b, 1020) as nat;
            match r {
                Ok(p) => b.len() >= 1064 + n1 * 24 && is_v1(p, b),
                Err(e) => {
                    ||| b.len() < 1064 && e@ == "idx v1 too short"@
                    ||| b.len() >= 1064 && b.len() < 1064 + n1 * 24 && e@ == "idx v1 entries truncated"@
                },
            }
        }),
{
    if buf.len() < 1064 {
        return Err("idx v1 too short".to_owned());
    }
    let fan = fanout(buf, 0);
    let n32: u32 = fan[255];
    if (buf.len() as u64) < 1064 + n32 as u64 * 24 {
        return Err("idx v1 entries truncated".to_owned());
    }
    let n: usize = n32 as usize;
    let mut entries: Vec<IdxEntry> = Vec::new();
    let mut i: usize = 0;
    while i < n
        invariant
            i <= n,
            n <= u32::MAX,
            1064 + n * 24 <= buf.len(),
            entries@.len() == i,
            forall|j: int| 0 <= j < i ==> is_v1_entry(#[trigger] entries@[j], buf@, j),
        decreases n - i,
    {
        let offset: u64 = read_be32(buf, 1024 + i * 24) as u64;
        let oid = oid_at(buf, 1024 + i * 24 + 4);
        entries.push(IdxEntry { oid, offset, crc32: None });
        i += 1;
    }
    let (pack_checksum, idx_checksum, computed_idx_sha, idx_checksum_ok) = trailer(buf);
    Ok(
        ParsedIdx {
            version: 1,
            fanout: fan,
            num_entries: n32,
            entries,
            pack_checksum,
            idx_checksum,
            computed_idx_sha,
            idx_checksum_ok,
            parse_error: None,
        },
    )
}

} // verus!
