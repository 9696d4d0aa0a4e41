//! Index files: fanout, object ids, CRC32 values and 32/64-bit offsets.
use vstd::prelude::*;
use vstd::string::StringExecFns;
use crate::model::bytes::{
    be32, be32_bytes, be64, begins_with, oid_at, read_be32, read_be64, same_bytes,
};
use crate::model::indexrows::{far, is_new_index, new_index_layout, new_index_row, Row};
use crate::model::outside::{hex_encode, sha1, sha1_of};
use crate::model::text::{dec, hex, push_dec, push_hex32, texts};

verus! {

#[derive(Clone, Copy, Debug)]
pub struct IdxEntry {
    pub oid: [u8; 20],
    pub offset: u64,
    /// The CRC32 that the index records (version 2 only).
    pub crc32: Option<u32>,
}

#[derive(Debug)]
pub struct ParsedIdx {
    pub version: u8,
    pub entries: Vec<IdxEntry>,
    /// The last fanout word.
    pub fanout_total: u32,
    pub stored_pack_checksum: Option<[u8; 20]>,
    pub stored_idx_checksum: Option<[u8; 20]>,
    pub computed_idx_checksum: Option<[u8; 20]>,
    pub idx_checksum_ok: bool,
    pub fanout_errors: Vec<String>,
    pub fatal_error: Option<String>,
}

/// The magic number of a version 2 index.
pub open spec fn magic() -> Seq<u8> {
    seq![255u8, 116, 79, 99]
}

/// A file that announces itself as a version 2 index.
pub open spec fn says_v2(d: Seq<u8>) -> bool {
    d.len() >= 8 && magic().is_prefix_of(d)
}

/// Where the fanout table begins.
pub open spec fn fan_start(v2: bool) -> int {
    if v2 {
        8
    } else {
        0
    }
}

pub open spec fn fan(d: Seq<u8>, v2: bool, i: int) -> u32 {
    be32(d, fan_start(v2) + i * 4)
}

/// The number of objects that the fanout table declares.
pub open spec fn total(d: Seq<u8>, v2: bool) -> nat {
    fan(d, v2, 255) as nat
}

/// Where the object ids begin.
pub open spec fn oid_start(v2: bool) -> int {
    fan_start(v2) + 1024
}

/// Where the CRC table begins (version 2).
pub open spec fn crc_start(d: Seq<u8>, v2: bool) -> int {
    oid_start(v2) + total(d, v2) * 20
}

/// Where the 32-bit offsets begin.
pub open spec fn off_start(d: Seq<u8>, v2: bool) -> int {
    if v2 {
        crc_start(d, v2) + total(d, v2) * 4
    } else {
        crc_start(d, v2)
    }
}

/// Where the 64-bit offsets begin.
pub open spec fn large_start(d: Seq<u8>, v2: bool) -> int {
    off_start(d, v2) + total(d, v2) * 4
}

/// The 32-bit offset word of entry `i`.
pub open spec fn word_at(d: Seq<u8>, v2: bool, i: int) -> u32 {
    be32(d, off_start(d, v2) + i * 4)
}

pub open spec fn is_large(w: u32) -> bool {
    w >= 0x8000_0000
}

/// How many of the first `i` entries have a 64-bit offset.
pub open spec fn larges(d: Seq<u8>, v2: bool, i: nat) -> nat
    decreases i,
{
    if i == 0 {
        0
    } else {
        larges(d, v2, (i - 1) as nat) + if is_large(word_at(d, v2, i - 1)) {
            1nat
        } else {
            0nat
        }
    }
}

/// The place of the 64-bit table that the word of entry `i` names lies inside the file.
pub open spec fn place_ok(d: Seq<u8>, v2: bool, i: int) -> bool {
    let w = word_at(d, v2, i);
    is_large(w) ==> large_start(d, v2) + (w - 0x8000_0000) * 8 + 8 <= d.len()
}

/// The first entry whose place in the 64-bit table is missing.
pub open spec fn first_bad(d: Seq<u8>, v2: bool, i: nat) -> Option<nat>
    decreases total(d, v2) - i,
{
    if i >= total(d, v2) {
        None
    } else if !place_ok(d, v2, i as int) {
        Some(i)
    } else {
        first_bad(d, v2, i + 1)
    }
}

/// The offset of entry `i`: its word, or the next 64-bit offset in order.
pub open spec fn offset_of(d: Seq<u8>, v2: bool, i: int) -> u64 {
    let w = word_at(d, v2, i);
    if is_large(w) {
        be64(d, large_start(d, v2) + larges(d, v2, i as nat) * 8)
    } else {
        w as u64
    }
}

/// Where the tables end.
pub open spec fn tables_end(d: Seq<u8>, v2: bool) -> int {
    large_start(d, v2) + larges(d, v2, total(d, v2)) * 8
}

/// The complaint about fanout word `i`, if it is smaller than the one before it.
pub open spec fn fan_complaint(d: Seq<u8>, v2: bool, i: int) -> Option<Seq<char>> {
    if fan(d, v2, i) < fan(d, v2, i - 1) {
        Some(
            "fanout["@ + dec(i as nat) + "] < fanout["@ + dec((i - 1) as nat) + "]（"@ + dec(
                fan(d, v2, i) as nat,
            ) + " < "@ + dec(fan(d, v2, i - 1) as nat) + "），fanout 表非法"@,
        )
    } else {
        None
    }
}

/// The complaints about the first `i` fanout words.
pub open spec fn fan_complaints(d: Seq<u8>, v2: bool, i: nat) -> Seq<Seq<char>>
    decreases i,
{
    if i <= 1 {
        Seq::empty()
    } else {
        let rest = fan_complaints(d, v2, (i - 1) as nat);
        match fan_complaint(d, v2, i - 1) {
            Some(m) => rest.push(m),
            None => rest,
        }
    }
}

/// Why an index cannot be read, if it cannot.
pub open spec fn fatal(d: Seq<u8>) -> Option<Seq<char>> {
    let v2 = says_v2(d);
    let n = total(d, v2);
    if v2 && be32(d, 4) != 2 {
        Some("不支持的 idx 版本 v"@ + dec(be32(d, 4) as nat))
    } else if d.len() < fan_start(v2) + 1024 {
        Some("idx 短于 fanout 表长度"@)
    } else if d.len() < oid_start(v2) + n * 20 {
        Some("idx 缺少 "@ + dec(n) + " 个 oid 表项"@)
    } else if v2 && d.len() < crc_start(d, v2) + n * 4 {
        Some("idx 缺少 crc32 表"@)
    } else if d.len() < large_start(d, v2) {
        Some("idx 缺少 offset 表"@)
    } else if first_bad(d, v2, 0) is Some {
        Some("idx 64 位偏移表缺项（slot "@ + dec(first_bad(d, v2, 0)->0) + "）"@)
    } else if d.len() < tables_end(d, v2) {
        Some("idx 64 位偏移表不完整"@)
    } else if v2 && d.len() < tables_end(d, v2) + 40 {
        Some("idx 缺少尾部校验和"@)
    } else {
        None
    }
}

/// The fanout table was read.
pub open spec fn has_fan(d: Seq<u8>) -> bool {
    let v2 = says_v2(d);
    !(v2 && be32(d, 4) != 2) && d.len() >= fan_start(v2) + 1024
}

/// What is read of an index.
pub open spec fn is_idx(p: ParsedIdx, d: Seq<u8>) -> bool {
    let v2 = says_v2(d);
    let n = total(d, v2);
    &&& p.version == if v2 {
        if be32(d, 4) == 2 {
            2u8
        } else {
            0u8
        }
    } else {
        1u8
    }
    &&& if has_fan(d) {
        p.fanout_total == n && texts(p.fanout_errors@) == fan_complaints(d, v2, 256)
    } else {
        p.fanout_total == 0 && p.fanout_errors@.len() == 0
    }
    &&& match fatal(d) {
        Some(m) => {
            &&& p.fatal_error matches Some(e) && e@ == m
            &&& p.entries@.len() == 0
            &&& p.stored_pack_checksum is None
            &&& p.stored_idx_checksum is None
            &&& p.computed_idx_checksum is None
            &&& !p.idx_checksum_ok
        },
        None => {
            &&& p.fatal_error is None
            &&& p.entries@.len() == n
            &&& forall|i: int| 0 <= i < n ==> is_entry(#[trigger] p.entries@[i], d, v2, i)
            &&& if v2 {
                &&& p.stored_pack_checksum matches Some(c) && c@ == d.subrange(d.len() - 40, d.len() - 20)
                &&& p.stored_idx_checksum matches Some(c) && c@ == d.subrange(
                    d.len() - 20,
                    d.len() as int,
                )
                &&& p.computed_idx_checksum matches Some(c) && c@ == sha1_of(d.take(d.len() - 20))
                &&& p.idx_checksum_ok == (sha1_of(d.take(d.len() - 20)) == d.subrange(
                    d.len() - 20,
                    d.len() as int,
                ))
            } else {
                &&& p.stored_pack_checksum is None
                &&& p.stored_idx_checksum is None
                &&& p.computed_idx_checksum is None
                &&& !p.idx_checksum_ok
            }
        },
    }
}

/// An entry of the index.
pub open spec fn is_entry(e: IdxEntry, d: Seq<u8>, v2: bool, i: int) -> bool {
    &&& e.oid@ == d.subrange(oid_start(v2) + i * 20, oid_start(v2) + i * 20 + 20)
    &&& e.offset == offset_of(d, v2, i)
    &&& e.crc32 == if v2 {
        Some(be32(d, crc_start(d, v2) + i * 4))
    } else {
        None
    }
}

/// What was parsed are the rows and the checksums of an index.
pub open spec fn reads(p: ParsedIdx, rows: Seq<Row>, pack_sum: Seq<u8>, sum: Seq<u8>) -> bool {
    &&& p.fatal_error is None
    &&& p.version == 2
    &&& p.fanout_total == rows.len()
    &&& p.entries@.len() == rows.len()
    &&& forall|i: int|
        0 <= i < rows.len() ==> (#[trigger] p.entries@[i]).oid@ == rows[i].oid && p.entries@[i].offset == rows[i].offset
            && p.entries@[i].crc32 == Some(rows[i].crc)
    &&& p.stored_pack_checksum matches Some(c) && c@ == pack_sum
    &&& p.stored_idx_checksum matches Some(c) && c@ == sum
}

proof fn lemma_larges_far(d: Seq<u8>, rows: Seq<Row>, fan: Seq<u32>, pack_sum: Seq<u8>, sum: Seq<u8>, i: nat)
    requires
        is_new_index(d, rows, fan, pack_sum, sum),
        total(d, true) == rows.len(),
        i <= rows.len(),
    ensures
        larges(d, true, i) == far(rows, i),
    decreases i,
{
    if i > 0 {
        lemma_larges_far(d, rows, fan, pack_sum, sum, (i - 1) as nat);
        new_index_row(rows, fan, pack_sum, sum, i - 1);
        assert(word_at(d, true, i - 1) == be32(d, 1032 + rows.len() * 24 + (i - 1) * 4));
    }
}

proof fn lemma_none_bad(d: Seq<u8>, i: nat)
    requires
        forall|j: int| 0 <= j < total(d, true) ==> #[trigger] place_ok(d, true, j),
    ensures
        first_bad(d, true, i) is None,
    decreases total(d, true) - i,
{
    if i < total(d, true) {
        assert(place_ok(d, true, i as int));
        lemma_none_bad(d, i + 1);
    }
}

/// An index is read as it was written, offsets beyond 31 bits included: whatever the rows, parsing
/// their index succeeds and gives each row and the checksums.
pub proof fn the_rows_of_an_index_are_read(
    d: Seq<u8>,
    rows: Seq<Row>,
    fan: Seq<u32>,
    pack_sum: Seq<u8>,
    sum: Seq<u8>,
)
    requires
        is_new_index(d, rows, fan, pack_sum, sum),
    ensures
        forall|p: ParsedIdx| #[trigger] is_idx(p, d) ==> reads(p, rows, pack_sum, sum),
{
    new_index_layout(rows, fan, pack_sum, sum);
    let n = rows.len();
    assert(says_v2(d));
    assert(be32(d, 8 + 255int * 4) == fan[255]);
    assert(total(d, true) == n);
    assert(off_start(d, true) == 1032 + n * 24);
    assert(large_start(d, true) == 1032 + n * 28);
    lemma_larges_far(d, rows, fan, pack_sum, sum, n);
    assert forall|i: int| 0 <= i < n implies #[trigger] place_ok(d, true, i) by {
        new_index_row(rows, fan, pack_sum, sum, i);
    }
    lemma_none_bad(d, 0);
    assert(fatal(d) is None);
    assert forall|p: ParsedIdx| #[trigger] is_idx(p, d) implies reads(p, rows, pack_sum, sum) by {
        assert forall|i: int| 0 <= i < n implies (#[trigger] p.entries@[i]).oid@ == rows[i].oid && p.entries@[i].offset
            == rows[i].offset && p.entries@[i].crc32 == Some(rows[i].crc) by {
            new_index_row(rows, fan, pack_sum, sum, i);
            lemma_larges_far(d, rows, fan, pack_sum, sum, i as nat);
            assert(is_entry(p.entries@[i], d, true, i));
        }
    }
}

fn empty_idx(version: u8) -> (p: ParsedIdx)
    ensures
        p.version == version,
        p.entries@.len() == 0,
        p.fanout_total == 0,
        p.stored_pack_checksum is None,
        p.stored_idx_checksum is None,
        p.computed_idx_checksum is None,
        !p.idx_checksum_ok,
        p.fanout_errors@.len() == 0,
        p.fatal_error is None,
{
    ParsedIdx {
        version,
        entries: Vec::new(),
        fanout_total: 0,
        stored_pack_checksum: None,
        stored_idx_checksum: None,
        computed_idx_checksum: None,
        idx_checksum_ok: false,
        fanout_errors: Vec::new(),
        fatal_error: None,
    }
}

/// Checks that the fanout words do not decrease.
fn check_fan(d: &[u8], v2: bool) -> (errs: Vec<String>)
    requires
        fan_start(v2) + 1024 <= d@.len(),
    ensures
        texts(errs@) == fan_complaints(d@, v2, 256),
{
    let start: usize = if v2 {
        8
    } else {
        0
    };
    let mut errs: Vec<String> = Vec::new();
    let mut i: usize = 1;
    assert(texts(errs@) =~= fan_complaints(d@, v2, 1));
    while i < 256
        invariant
            1 <= i <= 256,
            start == fan_start(v2),
            start + 1024 <= d.len(),
            texts(errs@) == fan_complaints(d@, v2, i as nat),
        decreases 256 - i,
    {
        let a: u32 = read_be32(d, start + i * 4);
        let b: u32 = read_be32(d, start + (i - 1) * 4);
        let ghost before = errs@;
        if a < b {
            let mut m = "fanout[".to_owned();
            push_dec(&mut m, i as u64);
            m.append("] < fanout[");
            push_dec(&mut m, (i - 1) as u64);
            m.append("]（");
            push_dec(&mut m, a as u64);
            m.append(" < ");
            push_dec(&mut m, b as u64);
            m.append("），fanout 表非法");
            let ghost text = m@;
            errs.push(m);
            assert(texts(errs@) =~= texts(before).push(text));
        }
        i += 1;
    }
    errs
}

/// Finds the first entry whose place in the 64-bit table is missing; without one, how many
/// entries have a 64-bit offset.
fn check_places(d: &[u8], v2: bool, n: usize) -> (r: Result<usize, usize>)
    requires
        n == total(d@, v2),
        large_start(d@, v2) <= d@.len(),
    ensures
        match r {
            Ok(k) => first_bad(d@, v2, 0) is None && k == larges(d@, v2, n as nat) && k <= n,
            Err(i) => first_bad(d@, v2, 0) == Some(i as nat),
        },
{
    assert(large_start(d@, v2) <= d.len());
    let off: usize = if v2 {
        8 + 1024 + n * 24
    } else {
        1024 + n * 20
    };
    let large: u64 = off as u64 + n as u64 * 4;
    let mut k: usize = 0;
    let mut i: usize = 0;
    while i < n
        invariant
            i <= n,
            k <= i,
            n <= u32::MAX,
            n == total(d@, v2),
            off == off_start(d@, v2),
            large == large_start(d@, v2),
            large <= d.len(),
            k == larges(d@, v2, i as nat),
            first_bad(d@, v2, 0) == first_bad(d@, v2, i as nat),
        decreases n - i,
    {
        let w: u32 = read_be32(d, off + i * 4);
        assert(w == word_at(d@, v2, i as int));
        if w >= 0x8000_0000 {
            if large + (w - 0x8000_0000) as u64 * 8 + 8 > d.len() as u64 {
                return Err(i);
            }
            k += 1;
        }
        i += 1;
    }
    Ok(k)
}

/// Reads the entries of an index whose tables are whole.
fn read_entries(d: &[u8], v2: bool, n: usize) -> (entries: Vec<IdxEntry>)
    requires
        n == total(d@, v2),
        tables_end(d@, v2) <= d@.len(),
    ensures
        entries@.len() == n,
        forall|i: int| 0 <= i < n ==> is_entry(#[trigger] entries@[i], d@, v2, i),
{
    proof {
        lemma_larges(d@, v2, 0, n as nat);
        assert(larges(d@, v2, 0) == 0);
        assert(tables_end(d@, v2) <= d.len());
    }
    let ids: usize = if v2 {
        1032
    } else {
        1024
    };
    let crcs: usize = ids + n * 20;
    let off: usize = if v2 {
        crcs + n * 4
    } else {
        crcs
    };
    let large: usize = off + n * 4;
    let mut entries: Vec<IdxEntry> = Vec::new();
    let mut k: usize = 0;
    let mut i: usize = 0;
    while i < n
        invariant
            i <= n,
            k <= i,
            n <= u32::MAX,
            n == total(d@, v2),
            ids == oid_start(v2),
            crcs == crc_start(d@, v2),
            off == off_start(d@, v2),
            large == large_start(d@, v2),
            large + larges(d@, v2, n as nat) * 8 <= d.len(),
            k == larges(d@, v2, i as nat),
            entries@.len() == i,
            forall|j: int| 0 <= j < i ==> is_entry(#[trigger] entries@[j], d@, v2, j),
        decreases n - i,
    {
        let w: u32 = read_be32(d, off + i * 4);
        assert(w == word_at(d@, v2, i as int));
        proof {
            lemma_larges(d@, v2, (i + 1) as nat, n as nat);
        }
        let offset: u64 = if w >= 0x8000_0000 {
            let v: u64 = read_be64(d, large + k * 8);
            k += 1;
            v
        } else {
            w as u64
        };
        let oid = oid_at(d, ids + i * 20);
        let crc32: Option<u32> = if v2 {
            Some(read_be32(d, crcs + i * 4))
        } else {
            None
        };
        entries.push(IdxEntry { oid, offset, crc32 });
        i += 1;
    }
    entries
}

proof fn lemma_larges(d: Seq<u8>, v2: bool, i: nat, n: nat)
    requires
        i <= n,
    ensures
        larges(d, v2, i) <= larges(d, v2, n),
    decreases n,
{
    if i < n {
        lemma_larges(d, v2, i, (n - 1) as nat);
    }
}

pub fn parse_idx(data: &[u8]) -> (p: ParsedIdx)
    ensures
        is_idx(p, data@),
{
    let head: [u8; 4] = [255, 116, 79, 99];
    assert(head@ =~= magic());
    let v2: bool = data.len() >= 8 && begins_with(data, head.as_slice());
    if v2 {
        let ver: u32 = read_be32(data, 4);
        if ver != 2 {
            let mut p = empty_idx(0);
            let mut m = "不支持的 idx 版本 v".to_owned();
            push_dec(&mut m, ver as u64);
            p.fatal_error = Some(m);
            return p;
        }
    }
    let mut p = empty_idx(if v2 {
        2
    } else {
        1
    });
    let start: usize = if v2 {
        8
    } else {
        0
    };
    if data.len() < start + 1024 {
        p.fatal_error = Some("idx 短于 fanout 表长度".to_owned());
        return p;
    }
    let n32: u32 = read_be32(data, start + 255 * 4);
    p.fanout_total = n32;
    p.fanout_errors = check_fan(data, v2);
    let len: u64 = data.len() as u64;
    let n64: u64 = n32 as u64;
    let after_ids: u64 = start as u64 + 1024 + n64 * 20;
    if len < after_ids {
        let mut m = "idx 缺少 ".to_owned();
        push_dec(&mut m, n64);
        m.append(" 个 oid 表项");
        p.fatal_error = Some(m);
        return p;
    }
    let after_crcs: u64 = if v2 {
        after_ids + n64 * 4
    } else {
        after_ids
    };
    if v2 && len < after_crcs {
        p.fatal_error = Some("idx 缺少 crc32 表".to_owned());
        return p;
    }
    if len < after_crcs + n64 * 4 {
        p.fatal_error = Some("idx 缺少 offset 表".to_owned());
        return p;
    }
    let n: usize = n32 as usize;
    let k: usize = match check_places(data, v2, n) {
        Ok(k) => k,
        Err(i) => {
            let mut m = "idx 64 位偏移表缺项（slot ".to_owned();
            push_dec(&mut m, i as u64);
            m.append("）");
            p.fatal_error = Some(m);
            return p;
        },
    };
    let end: u64 = after_crcs + n64 * 4 + k as u64 * 8;
    if len < end {
        p.fatal_error = Some("idx 64 位偏移表不完整".to_owned());
        return p;
    }
    if v2 {
        if len < end + 40 {
            p.fatal_error = Some("idx 缺少尾部校验和".to_owned());
            return p;
        }
        let pc = oid_at(data, data.len() - 40);
        let ic = oid_at(data, data.len() - 20);
        let body = vstd::slice::slice_subrange(data, 0, data.len() - 20);
        assert(body@ =~= data@.take(data@.len() - 20));
        let computed = sha1(body);
        p.idx_checksum_ok = same_bytes(computed.as_slice(), ic.as_slice());
        p.stored_pack_checksum = Some(pc);
        p.stored_idx_checksum = Some(ic);
        p.computed_idx_checksum = Some(computed);
    }
    p.entries = read_entries(data, v2, n);
    p
}

/// What the cross check reads of a pack entry.
#[derive(Clone, Copy, Debug)]
pub struct RawEntry {
    pub offset: u64,
    pub crc32: Option<u32>,
}

/// What the cross check reads of a pack.
#[derive(Debug)]
pub struct ParsedPack {
    pub stored_checksum: [u8; 20],
    pub entries: Vec<RawEntry>,
}

/// The first eight hexadecimal digits of an id.
pub open spec fn short(id: Seq<u8>) -> Seq<char> {
    hex(id).take(8)
}

fn push_short(m: &mut String, id: &[u8; 20])
    ensures
        final(m)@ == old(m)@ + short(id@),
{
    let head: [u8; 4] = [id[0], id[1], id[2], id[3]];
    let text = hex_encode(head.as_slice());
    assert(text@ =~= short(id@));
    m.append(text.as_str());
}

/// The CRC of the last pack entry that starts at `offset`; nothing when none does.
pub open spec fn crc_at(entries: Seq<RawEntry>, offset: u64) -> Option<Option<u32>>
    decreases entries.len(),
{
    if entries.len() == 0 {
        None
    } else if entries.last().offset == offset {
        Some(entries.last().crc32)
    } else {
        crc_at(entries.drop_last(), offset)
    }
}

/// The complaint about one index entry.
pub open spec fn entry_complaint(e: IdxEntry, pack: Seq<RawEntry>) -> Option<Seq<char>> {
    match crc_at(pack, e.offset) {
        None => Some(
            "index 条目 "@ + short(e.oid@) + " 指向偏移 "@ + dec(e.offset as nat) + "，pack 中无此对象起点"@,
        ),
        Some(pc) => match (e.crc32, pc) {
            (Some(a), Some(b)) => if a != b {
                Some(
                    "偏移 "@ + dec(e.offset as nat) + "（"@ + short(e.oid@) + "）CRC32 不一致：index="@ + hex(
                        be32_bytes(a),
                    ) + " pack="@ + hex(be32_bytes(b)),
                )
            } else {
                None
            },
            _ => None,
        },
    }
}

/// The complaints about the first index entries.
pub open spec fn entry_complaints(entries: Seq<IdxEntry>, pack: Seq<RawEntry>) -> Seq<Seq<char>>
    decreases entries.len(),
{
    if entries.len() == 0 {
        Seq::empty()
    } else {
        let rest = entry_complaints(entries.drop_last(), pack);
        match entry_complaint(entries.last(), pack) {
            Some(m) => rest.push(m),
            None => rest,
        }
    }
}

/// All complaints about an index and a pack.
pub open spec fn complaints(idx: ParsedIdx, pack: ParsedPack) -> Seq<Seq<char>> {
    let first: Seq<Seq<char>> = match idx.stored_pack_checksum {
        Some(pc) => if idx.version == 2 && pc@ != pack.stored_checksum@ {
            seq![
                "index 记录的 pack checksum "@ + short(pc@) + " 与 pack 自带 "@ + short(
                    pack.stored_checksum@,
                ) + " 不一致（index 与 pack 不配套）"@,
            ]
        } else {
            Seq::empty()
        },
        None => Seq::empty(),
    };
    let last: Seq<Seq<char>> = if idx.entries@.len() != pack.entries@.len() {
        seq![
            "对象数量不一致：index "@ + dec(idx.entries@.len()) + " 个，pack "@ + dec(pack.entries@.len())
                + " 个"@,
        ]
    } else {
        Seq::empty()
    };
    first + entry_complaints(idx.entries@, pack.entries@) + last
}

fn find_crc(entries: &Vec<RawEntry>, offset: u64) -> (r: Option<Option<u32>>)
    ensures
        r == crc_at(entries@, offset),
{
    let mut i: usize = entries.len();
    assert(entries@.take(i as int) =~= entries@);
    while i > 0
        invariant
            i <= entries@.len(),
            crc_at(entries@, offset) == crc_at(entries@.take(i as int), offset),
        decreases i,
    {
        assert(entries@.take(i as int).drop_last() =~= entries@.take(i - 1));
        i -= 1;
        if entries[i].offset == offset {
            return Some(entries[i].crc32);
        }
    }
    None
}

/// Checks that an index and a pack belong together: checksum, offsets and CRC32.
/// Returns the list of errors, which is empty when they do.
pub fn cross_check(idx: &ParsedIdx, pack: &ParsedPack) -> (errs: Vec<String>)
    ensures
        texts(errs@) == complaints(*idx, *pack),
{
    let mut errs: Vec<String> = Vec::new();
    let ghost first: Seq<Seq<char>> = match idx.stored_pack_checksum {
        Some(pc) => if idx.version == 2 && pc@ != pack.stored_checksum@ {
            seq![
                "index 记录的 pack checksum "@ + short(pc@) + " 与 pack 自带 "@ + short(
                    pack.stored_checksum@,
                ) + " 不一致（index 与 pack 不配套）"@,
            ]
        } else {
            Seq::empty()
        },
        None => Seq::empty(),
    };
    match idx.stored_pack_checksum {
        Some(pc) => {
            if idx.version == 2 && !same_bytes(pc.as_slice(), pack.stored_checksum.as_slice()) {
                let mut m = "index 记录的 pack checksum ".to_owned();
                push_short(&mut m, &pc);
                m.append(" 与 pack 自带 ");
                push_short(&mut m, &pack.stored_checksum);
                m.append(" 不一致（index 与 pack 不配套）");
                errs.push(m);
            }
        },
        None => {},
    }
    assert(texts(errs@) =~= first);
    let mut i: usize = 0;
    assert(first + entry_complaints(idx.entries@.take(0), pack.entries@) =~= first);
    while i < idx.entries.len()
        invariant
            i <= idx.entries@.len(),
            texts(errs@) == first + entry_complaints(idx.entries@.take(i as int), pack.entries@),
        decreases idx.entries@.len() - i,
    {
        let e = idx.entries[i];
        let ghost before = errs@;
        let ghost done = entry_complaints(idx.entries@.take(i as int), pack.entries@);
        proof {
            assert(idx.entries@.take(i + 1).drop_last() =~= idx.entries@.take(i as int));
        }
        match find_crc(&pack.entries, e.offset) {
            None => {
                let mut m = "index 条目 ".to_owned();
                push_short(&mut m, &e.oid);
                m.append(" 指向偏移 ");
                push_dec(&mut m, e.offset);
                m.append("，pack 中无此对象起点");
                let ghost text = m@;
                errs.push(m);
                assert(texts(errs@) =~= texts(before).push(text));
                assert(first + done.push(text) =~= (first + done).push(text));
            },
            Some(pc) => match (e.crc32, pc) {
                (Some(a), Some(b)) => {
                    if a != b {
                        let mut m = "偏移 ".to_owned();
                        push_dec(&mut m, e.offset);
                        m.append("（");
                        push_short(&mut m, &e.oid);
                        m.append("）CRC32 不一致：index=");
                        push_hex32(&mut m, a);
                        m.append(" pack=");
                        push_hex32(&mut m, b);
                        let ghost text = m@;
                        errs.push(m);
                        assert(texts(errs@) =~= texts(before).push(text));
                        assert(first + done.push(text) =~= (first + done).push(text));
                    }
                },
                _ => {},
            },
        }
        i += 1;
    }
    assert(idx.entries@.take(i as int) =~= idx.entries@);
    let ghost before = errs@;
    if idx.entries.len() != pack.entries.len() {
        let mut m = "对象数量不一致：index ".to_owned();
        push_dec(&mut m, idx.entries.len() as u64);
        m.append(" 个，pack ");
        push_dec(&mut m, pack.entries.len() as u64);
        m.append(" 个");
        let ghost text = m@;
        errs.push(m);
        assert(texts(errs@) =~= texts(before).push(text));
    }
    assert(texts(errs@) =~= complaints(*idx, *pack));
    errs
}

/// Index entry `e` agrees with the last pack entry at its offset: there is one, and their checksums are
/// the same where both are known.
pub open spec fn agrees(e: IdxEntry, pack: Seq<RawEntry>) -> bool {
    exists|k: int|
        0 <= k < pack.len() && (#[trigger] pack[k]).offset == e.offset && (forall|j: int|
            k < j < pack.len() ==> (#[trigger] pack[j]).offset != e.offset) && (e.crc32 is Some && pack[k].crc32 is Some
            ==> e.crc32 == pack[k].crc32)
}

proof fn lemma_crc_at(pack: Seq<RawEntry>, offset: u64)
    ensures
        crc_at(pack, offset) is None ==> forall|k: int| 0 <= k < pack.len() ==> (#[trigger] pack[k]).offset != offset,
        crc_at(pack, offset) matches Some(c) ==> exists|k: int|
            0 <= k < pack.len() && (#[trigger] pack[k]).offset == offset && pack[k].crc32 == c && forall|j: int|
                k < j < pack.len() ==> (#[trigger] pack[j]).offset != offset,
    decreases pack.len(),
{
    if pack.len() > 0 {
        let t = pack.drop_last();
        let n = pack.len() - 1;
        if pack.last().offset == offset {
            assert(pack[n].offset == offset);
        } else {
            lemma_crc_at(t, offset);
            match crc_at(t, offset) {
                None => {
                    assert forall|k: int| 0 <= k < pack.len() implies (#[trigger] pack[k]).offset != offset by {
                        if k < n {
                            assert(t[k] == pack[k]);
                        }
                    }
                },
                Some(c) => {
                    let k = choose|k: int|
                        0 <= k < t.len() && (#[trigger] t[k]).offset == offset && t[k].crc32 == c && forall|j: int|
                            k < j < t.len() ==> (#[trigger] t[j]).offset != offset;
                    assert(pack[k].offset == offset);
                    assert forall|j: int| k < j < pack.len() implies (#[trigger] pack[j]).offset != offset by {
                        if j < n {
                            assert(t[j] == pack[j]);
                        }
                    }
                },
            }
        }
    }
}

proof fn lemma_agrees(e: IdxEntry, pack: Seq<RawEntry>)
    ensures
        entry_complaint(e, pack) is None <==> agrees(e, pack),
{
    lemma_crc_at(pack, e.offset);
    if let Some(c) = crc_at(pack, e.offset) {
        let k = choose|k: int|
            0 <= k < pack.len() && (#[trigger] pack[k]).offset == e.offset && pack[k].crc32 == c && forall|j: int|
                k < j < pack.len() ==> (#[trigger] pack[j]).offset != e.offset;
        if agrees(e, pack) {
            let m = choose|m: int|
                0 <= m < pack.len() && (#[trigger] pack[m]).offset == e.offset && (forall|j: int|
                    m < j < pack.len() ==> (#[trigger] pack[j]).offset != e.offset) && (e.crc32 is Some && pack[m].crc32
                    is Some ==> e.crc32 == pack[m].crc32);
            if m < k {
                assert(pack[k].offset != e.offset);
            }
            if k < m {
                assert(pack[m].offset != e.offset);
            }
        }
    }
}

proof fn lemma_no_complaints(v: Seq<IdxEntry>, pack: Seq<RawEntry>)
    ensures
        entry_complaints(v, pack).len() == 0 <==> forall|i: int| 0 <= i < v.len() ==> agrees(#[trigger] v[i], pack),
    decreases v.len(),
{
    if v.len() > 0 {
        let t = v.drop_last();
        lemma_no_complaints(t, pack);
        lemma_agrees(v.last(), pack);
        assert(v[v.len() - 1] == v.last());
        if entry_complaints(v, pack).len() == 0 {
            assert forall|i: int| 0 <= i < v.len() implies agrees(#[trigger] v[i], pack) by {
                if i < t.len() {
                    assert(t[i] == v[i]);
                }
            }
        }
        if forall|i: int| 0 <= i < v.len() ==> agrees(#[trigger] v[i], pack) {
            assert forall|i: int| 0 <= i < t.len() implies agrees(#[trigger] t[i], pack) by {
                assert(t[i] == v[i]);
            }
        }
    }
}

/// Nothing is said against an index and a pack exactly when they belong together: the index of
/// version 2 names the checksum of the pack, both have as many objects, and every index entry agrees
/// with the pack entry at its offset.
pub proof fn what_belongs_together_gives_no_complaint(idx: ParsedIdx, pack: ParsedPack)
    ensures
        complaints(idx, pack).len() == 0 <==> {
            &&& idx.version == 2 && idx.stored_pack_checksum is Some ==> idx.stored_pack_checksum->0@
                == pack.stored_checksum@
            &&& idx.entries@.len() == pack.entries@.len()
            &&& forall|i: int| 0 <= i < idx.entries@.len() ==> agrees(#[trigger] idx.entries@[i], pack.entries@)
        },
{
    lemma_no_complaints(idx.entries@, pack.entries@);
}

} // verus!
