//! Parser of version 2 pack indexes with their fanout table.
use vstd::prelude::*;
use vstd::string::StringExecFns;
use crate::model::bytes::{be32, be64, begins_with, oid_at, read_be32, read_be64};
use crate::model::indexrows::{is_new_index, new_index_layout, new_index_row, Row};
use crate::model::text::{dec, push_dec};

verus! {

#[derive(Clone, Copy, Debug)]
pub struct IndexEntry {
    pub oid: [u8; 20],
    pub pack_offset: u64,
    pub crc: u32,
}

#[derive(Debug)]
pub struct IndexParseResult {
    pub fanout: Vec<u32>,
    pub entries: Vec<IndexEntry>,
    pub pack_checksum: Option<[u8; 20]>,
    pub index_checksum: Option<[u8; 20]>,
    pub fatal: Option<String>,
}

impl Default for IndexParseResult {
    fn default() -> (r: Self)
        ensures
            r.fanout@.len() == 0,
            r.entries@.len() == 0,
            r.pack_checksum is None,
            r.index_checksum is None,
            r.fatal is None,
    {
        IndexParseResult {
            fanout: Vec::new(),
            entries: Vec::new(),
            pack_checksum: None,
            index_checksum: None,
            fatal: None,
        }
    }
}

/// The magic number of a version 2 index.
pub open spec fn magic() -> Seq<u8> {
    seq![255u8, 116, 79, 99]
}

/// The fanout table of an index.
pub open spec fn fanout_of(buf: Seq<u8>) -> Seq<u32> {
    Seq::new(256, |i: int| be32(buf, 8 + i * 4))
}

/// The number of objects that an index declares.
pub open spec fn count_of(buf: Seq<u8>) -> nat {
    be32(buf, 1028) as nat
}

/// The 32-bit offset word of entry `i`.
pub open spec fn offset_word(buf: Seq<u8>, n: nat, i: int) -> u32 {
    be32(buf, 1032 + n * 24 + i * 4)
}

/// The offset of an entry before the table of 64-bit offsets is consulted: a word with its top
/// bit set stands for a place in that table and is kept as a mark near the largest word.
pub open spec fn marked(word: u32) -> u64 {
    if word >= 0x8000_0000 {
        (u64::MAX - (word - 0x8000_0000)) as u64
    } else {
        word as u64
    }
}

/// The offsets, large ones marked.
pub open spec fn marked_offsets(buf: Seq<u8>) -> Seq<u64> {
    let n = count_of(buf);
    Seq::new(n, |i: int| marked(offset_word(buf, n, i)))
}

/// A mark for a place in the table of 64-bit offsets.
pub open spec fn is_mark(x: u64) -> bool {
    x >= 0xffff_ffff_8000_0000
}

/// The marks among the offsets, in order.
pub open spec fn marks(offs: Seq<u64>) -> Seq<u64>
    decreases offs.len(),
{
    if offs.len() == 0 {
        Seq::empty()
    } else {
        let rest = marks(offs.drop_last());
        if is_mark(offs.last()) {
            rest.push(offs.last())
        } else {
            rest
        }
    }
}

/// Where the 64-bit offset that a mark stands for begins.
pub open spec fn mark_at(n: nat, m: u64) -> int {
    1032 + n * 28 + (u64::MAX - m) * 8
}

/// Every offset that equals the mark `m`, replaced by `v`.
pub open spec fn replaced(offs: Seq<u64>, m: u64, v: u64) -> Seq<u64> {
    offs.map_values(|x: u64| if x == m {
        v
    } else {
        x
    })
}

/// The offsets with every mark looked up in turn; nothing when one is out of range.
pub open spec fn looked_up(buf: Seq<u8>, n: nat, offs: Seq<u64>, todo: Seq<u64>) -> Option<Seq<u64>>
    decreases todo.len(),
{
    if todo.len() == 0 {
        Some(offs)
    } else if mark_at(n, todo[0]) + 8 > buf.len() {
        None
    } else {
        looked_up(buf, n, replaced(offs, todo[0], be64(buf, mark_at(n, todo[0]))), todo.skip(1))
    }
}

/// The pack offsets that an index holds.
pub open spec fn offsets_of(buf: Seq<u8>) -> Option<Seq<u64>> {
    looked_up(buf, count_of(buf), marked_offsets(buf), marks(marked_offsets(buf)))
}

/// A result that holds nothing but a fatal error and, where it was read, the fanout table.
pub open spec fn is_fatal(r: IndexParseResult, m: Seq<char>, fanout: Seq<u32>) -> bool {
    &&& r.fatal matches Some(e) && e@ == m
    &&& r.fanout@ == fanout
    &&& r.entries@.len() == 0
    &&& r.pack_checksum is None
    &&& r.index_checksum is None
}

/// What a whole index holds.
pub open spec fn is_index(r: IndexParseResult, buf: Seq<u8>, offs: Seq<u64>) -> bool {
    let n = count_of(buf);
    &&& r.fatal is None
    &&& r.fanout@ == fanout_of(buf)
    &&& r.entries@.len() == n
    &&& forall|i: int|
        0 <= i < n ==> {
            let e = #[trigger] r.entries@[i];
            &&& e.oid@ == buf.subrange(1032 + i * 20, 1032 + i * 20 + 20)
            &&& e.crc == be32(buf, 1032 + n * 20 + i * 4)
            &&& e.pack_offset == offs[i]
        }
    &&& r.pack_checksum matches Some(c) && c@ == buf.subrange(buf.len() - 40, buf.len() - 20)
    &&& r.index_checksum matches Some(c) && c@ == buf.subrange(buf.len() - 20, buf.len() as int)
}

fn with_fatal(m: String) -> (r: IndexParseResult)
    ensures
        is_fatal(r, m@, Seq::empty()),
{
    let mut r = IndexParseResult::default();
    r.fatal = Some(m);
    assert(r.fanout@ =~= Seq::empty());
    r
}

/// What was parsed are the rows, the fanout table and the checksums of an index.
pub open spec fn reads(r: IndexParseResult, rows: Seq<Row>, fan: Seq<u32>, pack_sum: Seq<u8>, sum: Seq<u8>) -> bool {
    &&& r.fatal is None
    &&& r.fanout@ == fan
    &&& r.entries@.len() == rows.len()
    &&& forall|i: int|
        0 <= i < rows.len() ==> (#[trigger] r.entries@[i]).oid@ == rows[i].oid && r.entries@[i].crc == rows[i].crc
            && r.entries@[i].pack_offset == rows[i].offset
    &&& r.pack_checksum matches Some(c) && c@ == pack_sum
    &&& r.index_checksum matches Some(c) && c@ == sum
}

proof fn lemma_looked_up(buf: Seq<u8>, n: nat, offs: Seq<u64>, todo: Seq<u64>)
    requires
        forall|j: int|
            0 <= j < todo.len() ==> mark_at(n, #[trigger] todo[j]) + 8 <= buf.len() && !is_mark(
                be64(buf, mark_at(n, todo[j])),
            ) && is_mark(todo[j]),
    ensures
        looked_up(buf, n, offs, todo) matches Some(v) && v.len() == offs.len() && forall|i: int|
            0 <= i < offs.len() ==> #[trigger] v[i] == if todo.contains(offs[i]) {
                be64(buf, mark_at(n, offs[i]))
            } else {
                offs[i]
            },
    decreases todo.len(),
{
    if todo.len() > 0 {
        let rest = todo.skip(1);
        let m = todo[0];
        let now = replaced(offs, m, be64(buf, mark_at(n, m)));
        assert forall|j: int| 0 <= j < rest.len() implies mark_at(n, #[trigger] rest[j]) + 8 <= buf.len() && !is_mark(
            be64(buf, mark_at(n, rest[j])),
        ) && is_mark(rest[j]) by {
            assert(rest[j] == todo[j + 1]);
        }
        assert(mark_at(n, todo[0]) + 8 <= buf.len());
        lemma_looked_up(buf, n, now, rest);
        let v = looked_up(buf, n, now, rest)->0;
        assert forall|i: int| 0 <= i < offs.len() implies #[trigger] v[i] == if todo.contains(offs[i]) {
            be64(buf, mark_at(n, offs[i]))
        } else {
            offs[i]
        } by {
            assert(now.len() == offs.len());
            if offs[i] == m {
                assert(todo.contains(m));
                if rest.contains(now[i]) {
                    let j = choose|j: int| 0 <= j < rest.len() && rest[j] == now[i];
                    assert(is_mark(rest[j]));
                }
            } else {
                assert(now[i] == offs[i]);
                if todo.contains(offs[i]) {
                    let j = choose|j: int| 0 <= j < todo.len() && todo[j] == offs[i];
                    assert(rest[j - 1] == offs[i]);
                }
                if rest.contains(offs[i]) {
                    let j = choose|j: int| 0 <= j < rest.len() && rest[j] == offs[i];
                    assert(todo[j + 1] == offs[i]);
                }
            }
        }
    }
}

proof fn lemma_marks(offs: Seq<u64>)
    ensures
        forall|x: u64| #[trigger] marks(offs).contains(x) <==> offs.contains(x) && is_mark(x),
    decreases offs.len(),
{
    if offs.len() > 0 {
        let rest = offs.drop_last();
        lemma_marks(rest);
        let m = marks(rest);
        assert forall|x: u64| #[trigger] marks(offs).contains(x) <==> offs.contains(x) && is_mark(x) by {
            assert(m.contains(x) <==> rest.contains(x) && is_mark(x));
            if rest.contains(x) {
                let k = choose|k: int| 0 <= k < rest.len() && rest[k] == x;
                assert(offs[k] == x);
            }
            if offs.contains(x) && x != offs.last() {
                let k = choose|k: int| 0 <= k < offs.len() && offs[k] == x;
                assert(rest[k] == x);
            }
            assert(offs[offs.len() - 1] == offs.last());
            if m.contains(x) {
                let k = choose|k: int| 0 <= k < m.len() && m[k] == x;
                assert(marks(offs)[k] == x);
            }
            if is_mark(offs.last()) {
                assert(marks(offs)[m.len() as int] == offs.last());
            }
            if marks(offs).contains(x) && !m.contains(x) {
                let k = choose|k: int| 0 <= k < marks(offs).len() && marks(offs)[k] == x;
                if k < m.len() {
                    assert(m[k] == x);
                }
            }
        }
    }
}

/// An index is read as it was written, offsets beyond 31 bits included: whatever the rows, as long
/// as no offset lies near the largest word, parsing their index succeeds and gives each row, the
/// fanout table and the checksums.
pub proof fn the_rows_of_an_index_are_read(b: Seq<u8>, rows: Seq<Row>, fan: Seq<u32>, pack_sum: Seq<u8>, sum: Seq<u8>)
    requires
        is_new_index(b, rows, fan, pack_sum, sum),
        forall|i: int| 0 <= i < rows.len() ==> (#[trigger] rows[i]).offset < 0xffff_ffff_8000_0000,
    ensures
        b.len() >= 1072 + count_of(b) * 28,
        magic().is_prefix_of(b),
        be32(b, 4) == 2,
        offsets_of(b) is Some,
        forall|r: IndexParseResult| #[trigger]
            is_index(r, b, offsets_of(b)->0) ==> reads(r, rows, fan, pack_sum, sum),
{
    new_index_layout(rows, fan, pack_sum, sum);
    let n = rows.len();
    let offs = marked_offsets(b);
    let todo = marks(offs);
    assert(count_of(b) == n);
    lemma_marks(offs);
    assert forall|i: int| 0 <= i < n implies (#[trigger] offs[i]) == marked(offset_word(b, n, i)) && (is_mark(offs[i])
        <==> rows[i].offset >= 0x8000_0000) && (!is_mark(offs[i]) ==> offs[i] == rows[i].offset) && (is_mark(offs[i])
        ==> mark_at(n, offs[i]) + 8 <= b.len() && be64(b, mark_at(n, offs[i])) == rows[i].offset) by {
        new_index_row(rows, fan, pack_sum, sum, i);
    }
    assert forall|j: int| 0 <= j < todo.len() implies mark_at(n, #[trigger] todo[j]) + 8 <= b.len() && !is_mark(
        be64(b, mark_at(n, todo[j])),
    ) && is_mark(todo[j]) by {
        assert(todo.contains(todo[j]));
        let i = choose|i: int| 0 <= i < offs.len() && offs[i] == todo[j];
        assert(rows[i].offset < 0xffff_ffff_8000_0000);
    }
    lemma_looked_up(b, n, offs, todo);
    let v = offsets_of(b)->0;
    assert forall|i: int| 0 <= i < n implies #[trigger] v[i] == rows[i].offset by {
        assert(offs[i] == marked(offset_word(b, n, i)));
        assert(offs.contains(offs[i]));
        assert(todo.contains(offs[i]) <==> is_mark(offs[i]));
    }
    assert forall|r: IndexParseResult| #[trigger] is_index(r, b, v) implies reads(r, rows, fan, pack_sum, sum) by {
        assert(r.fanout@ =~= fan) by {
            assert forall|j: int| 0 <= j < 256 implies r.fanout@[j] == #[trigger] fan[j] by {}
        }
        assert forall|i: int| 0 <= i < n implies (#[trigger] r.entries@[i]).oid@ == rows[i].oid && r.entries@[i].crc
            == rows[i].crc && r.entries@[i].pack_offset == rows[i].offset by {
            new_index_row(rows, fan, pack_sum, sum, i);
            assert(v[i] == rows[i].offset);
        }
    }
}

pub fn parse_index(buf: &[u8]) -> (r: IndexParseResult)
    ensures
        ({
            let b = buf@;
            let n = count_of(b);
            if b.len() < 1032 {
                is_fatal(r, "index too short for v2 header+fanout"@, Seq::empty())
            } else if !magic().is_prefix_of(b) {
                is_fatal(r, "missing index v2 magic \\377tOc"@, Seq::empty())
            } else if be32(b, 4) != 2 {
                is_fatal(r, "unsupported index version "@ + dec(be32(b, 4) as nat), Seq::empty())
            } else if 1072 + n * 28 > b.len() {
                is_fatal(
                    r,
                    "index declares "@ + dec(n) + " objects but the file is too short"@,
                    fanout_of(b),
                )
            } else {
                match offsets_of(b) {
                    None => is_fatal(r, "64-bit offset table out of range"@, Seq::empty()),
                    Some(offs) => is_index(r, b, offs),
                }
            }
        }),
{
    if buf.len() < 1032 {
        return with_fatal("index too short for v2 header+fanout".to_owned());
    }
    let head: [u8; 4] = [255, 116, 79, 99];
    assert(head@ =~= magic());
    if !begins_with(buf, head.as_slice()) {
        return with_fatal("missing index v2 magic \\377tOc".to_owned());
    }
    let version: u32 = read_be32(buf, 4);
    if version != 2 {
        let mut m = "unsupported index version ".to_owned();
        push_dec(&mut m, version as u64);
        return with_fatal(m);
    }
    let fanout = read_fanout(buf);
    let n32: u32 = fanout[255];
    if 1072 + n32 as u64 * 28 > buf.len() as u64 {
        let mut m = "index declares ".to_owned();
        push_dec(&mut m, n32 as u64);
        m.append(" objects but the file is too short");
        let mut r = with_fatal(m);
        r.fanout = fanout;
        return r;
    }
    let n: usize = n32 as usize;
    let mut offsets: Vec<u64> = Vec::new();
    let mut todo: Vec<u64> = Vec::new();
    let mut i: usize = 0;
    assert(marked_offsets(buf@).take(0).len() == 0);
    while i < n
        invariant
            i <= n,
            n == count_of(buf@),
            1072 + n * 28 <= buf.len(),
            offsets@ == marked_offsets(buf@).take(i as int),
            todo@ == marks(marked_offsets(buf@).take(i as int)),
            forall|j: int| 0 <= j < todo@.len() ==> is_mark(#[trigger] todo@[j]),
        decreases n - i,
    {
        let word: u32 = read_be32(buf, 1032 + n * 24 + i * 4);
        let x: u64 = if word >= 0x8000_0000 {
            u64::MAX - (word - 0x8000_0000) as u64
        } else {
            word as u64
        };
        assert(x == marked_offsets(buf@)[i as int]);
        offsets.push(x);
        if x >= 0xffff_ffff_8000_0000 {
            todo.push(x);
        }
        proof {
            let t = marked_offsets(buf@).take(i + 1);
            assert(t.drop_last() =~= marked_offsets(buf@).take(i as int));
            assert(offsets@ =~= t);
        }
        i += 1;
    }
    assert(marked_offsets(buf@).take(n as int) =~= marked_offsets(buf@));
    let mut k: usize = 0;
    assert(todo@.skip(0) =~= todo@);
    while k < todo.len()
        invariant
            k <= todo@.len(),
            n == count_of(buf@),
            magic().is_prefix_of(buf@),
            be32(buf@, 4) == 2,
            n <= u32::MAX,
            1072 + n * 28 <= buf.len(),
            offsets@.len() == n,
            todo@ == marks(marked_offsets(buf@)),
            forall|j: int| 0 <= j < todo@.len() ==> is_mark(#[trigger] todo@[j]),
            offsets_of(buf@) == looked_up(buf@, n as nat, offsets@, todo@.skip(k as int)),
        decreases todo@.len() - k,
    {
        let m: u64 = todo[k];
        assert(is_mark(todo@[k as int]));
        assert(todo@.skip(k as int)[0] == m);
        let at: u64 = 1032 + n as u64 * 28 + (u64::MAX - m) * 8;
        if at + 8 > buf.len() as u64 {
            return with_fatal("64-bit offset table out of range".to_owned());
        }
        let v: u64 = read_be64(buf, at as usize);
        let ghost before = offsets@;
        let mut j: usize = 0;
        while j < n
            invariant
                j <= n,
                offsets@.len() == n,
                before.len() == n,
                forall|q: int| 0 <= q < j ==> offsets@[q] == replaced(before, m, v)[q],
                forall|q: int| j <= q < n ==> offsets@[q] == before[q],
            decreases n - j,
        {
            if offsets[j] == m {
                offsets.set(j, v);
            }
            j += 1;
        }
        assert(offsets@ =~= replaced(before, m, v));
        assert(todo@.skip(k as int).skip(1) =~= todo@.skip(k + 1));
        k += 1;
    }
    let mut entries: Vec<IndexEntry> = Vec::new();
    let mut i: usize = 0;
    while i < n
        invariant
            i <= n,
            n == count_of(buf@),
            1072 + n * 28 <= buf.len(),
            offsets@.len() == n,
            entries@.len() == i,
            forall|j: int|
                0 <= j < i ==> {
                    let e = #[trigger] entries@[j];
                    &&& e.oid@ == buf@.subrange(1032 + j * 20, 1032 + j * 20 + 20)
                    &&& e.crc == be32(buf@, 1032 + n * 20 + j * 4)
                    &&& e.pack_offset == offsets@[j]
                },
        decreases n - i,
    {
        let oid = oid_at(buf, 1032 + i * 20);
        let crc: u32 = read_be32(buf, 1032 + n * 20 + i * 4);
        entries.push(IndexEntry { oid, pack_offset: offsets[i], crc });
        i += 1;
    }
    let pack_checksum = oid_at(buf, buf.len() - 40);
    let index_checksum = oid_at(buf, buf.len() - 20);
    IndexParseResult {
        fanout,
        entries,
        pack_checksum: Some(pack_checksum),
        index_checksum: Some(index_checksum),
        fatal: None,
    }
}

fn read_fanout(buf: &[u8]) -> (f: Vec<u32>)
    requires
        buf@.len() >= 1032,
    ensures
        f@ == fanout_of(buf@),
{
    let mut f: Vec<u32> = Vec::new();
    let mut i: usize = 0;
    while i < 256
        invariant
            i <= 256,
            buf.len() >= 1032,
            f@ == fanout_of(buf@).take(i as int),
        decreases 256 - i,
    {
        f.push(read_be32(buf, 8 + i * 4));
        i += 1;
        assert(f@ =~= fanout_of(buf@).take(i as int));
    }
    assert(f@ =~= fanout_of(buf@));
    f
}

} // verus!
