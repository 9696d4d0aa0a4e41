//! Packs, version 2 indexes and loose objects, with zlib boundaries found by streaming
//! inflation.
use vstd::prelude::*;
use vstd::string::StringExecFns;
use vstd::utf8::{decode_utf8, encode_utf8, valid_utf8};
use crate::analyze::graph::text_opt;
use crate::model::bytes::{
    be32, be64, begins_with, copy_range, find_byte, first_at, oid_at, push_all, push_range, read_be32,
    read_be64, same_bytes,
};
use crate::model::crc::crc32_of;
use crate::model::delta::{instr_at, lemma_instr, read_instr, Instr};
use crate::model::entryhead::{distances_are_read, has_head, heads_are_read};
use crate::model::indexrows::{is_new_index, new_index_layout, new_index_row, Row};
use crate::model::object::{dec_bytes_roundtrip, frame, lemma_frame_head, lemma_names_are_words, object_frame};
use crate::model::order::views;
use crate::model::outside::{
    crc32fast_hash, hex_encode, lemma_stream_push, oxide_packed, sha1, sha1_of, sha256, sha256_of,
    stream_call, stream_consumed, stream_produced, utf8_text, StreamReader, StreamStatus,
};
use crate::model::text::{
    after, before, dec, decimal, hex, parse_decimal, push_dec, same_text, split_once,
};
use crate::model::varint::{
    ends, head_bytes, header_bytes, header_code, header_size, header_size_at, le128_scan_late, ofs128, ofs128_at,
    ofs128_bytes, run, run_at, scan_le128_late, touched, word, Scan,
};

verus! {

pub const OBJ_COMMIT: u8 = 1;

pub const OBJ_TREE: u8 = 2;

pub const OBJ_BLOB: u8 = 3;

pub const OBJ_TAG: u8 = 4;

pub const OBJ_OFS_DELTA: u8 = 6;

pub const OBJ_REF_DELTA: u8 = 7;

/// The name of a type code.
pub open spec fn name_of(t: u8) -> Seq<char> {
    if t == OBJ_COMMIT {
        "commit"@
    } else if t == OBJ_TREE {
        "tree"@
    } else if t == OBJ_BLOB {
        "blob"@
    } else if t == OBJ_TAG {
        "tag"@
    } else if t == OBJ_OFS_DELTA {
        "ofs-delta"@
    } else if t == OBJ_REF_DELTA {
        "ref-delta"@
    } else {
        "unknown"@
    }
}

/// The type code with a name, for whole objects.
pub open spec fn code_of(s: Seq<char>) -> Option<u8> {
    if s == "commit"@ {
        Some(OBJ_COMMIT)
    } else if s == "tree"@ {
        Some(OBJ_TREE)
    } else if s == "blob"@ {
        Some(OBJ_BLOB)
    } else if s == "tag"@ {
        Some(OBJ_TAG)
    } else {
        None
    }
}

/// A type code of a whole object.
pub open spec fn is_full(t: u8) -> bool {
    1 <= t <= 4
}

/// The name of a type code.
pub fn kind_name(t: u8) -> (s: &'static str)
    ensures
        s@ == name_of(t),
{
    match t {
        1 => "commit",
        2 => "tree",
        3 => "blob",
        4 => "tag",
        6 => "ofs-delta",
        7 => "ref-delta",
        _ => "unknown",
    }
}

pub fn type_from_name(s: &str) -> (r: Option<u8>)
    ensures
        r == code_of(s@),
{
    if same_text(s, "commit") {
        Some(OBJ_COMMIT)
    } else if same_text(s, "tree") {
        Some(OBJ_TREE)
    } else if same_text(s, "blob") {
        Some(OBJ_BLOB)
    } else if same_text(s, "tag") {
        Some(OBJ_TAG)
    } else {
        None
    }
}

pub fn is_full_type(t: u8) -> (r: bool)
    ensures
        r == is_full(t),
{
    1 <= t && t <= 4
}

/// The codes of whole objects are read back from their names.
pub proof fn names_are_read_back(t: u8)
    requires
        is_full(t),
    ensures
        code_of(name_of(t)) == Some(t),
{
    reveal_strlit("commit");
    reveal_strlit("tree");
    reveal_strlit("blob");
    reveal_strlit("tag");
    assert("commit"@.len() == 6 && "tree"@.len() == 4 && "blob"@.len() == 4 && "tag"@.len() == 3);
    assert("tree"@[0] == 't' && "blob"@[0] == 'b');
}

/// The id of an object.
pub fn git_oid(obj_type: u8, content: &[u8]) -> (id: [u8; 20])
    ensures
        id@ == sha1_of(object_frame(name_of(obj_type), content@)),
{
    let framed = frame(kind_name(obj_type), content);
    sha1(framed.as_slice())
}

/// The bytes from `pos` on; none when `pos` is past the end.
pub open spec fn from_pos(data: Seq<u8>, pos: nat) -> Seq<u8> {
    if pos <= data.len() {
        data.skip(pos as int)
    } else {
        Seq::empty()
    }
}

/// The header of a pack entry at the head of `s`: its type, its size, and how many bytes it takes.
pub open spec fn entry_head(s: Seq<u8>) -> Result<(u8, u64, nat), Seq<char>> {
    if s.len() == 0 {
        Err("entry header 越界"@)
    } else if run(s) >= 10 && s.len() > 10 {
        Err("size varint 过长"@)
    } else if !ends(s) {
        Err("entry header 截断"@)
    } else {
        Ok((header_code(s[0]), (header_size(head_bytes(s)) % word()) as u64, touched(s)))
    }
}

/// Reads the header of a pack entry: three type bits and four size bits, then groups of seven.
/// Returns the type, the size and where the header ends.
pub fn parse_entry_header(data: &[u8], pos: usize) -> (r: Result<(u8, u64, usize), String>)
    ensures
        match r {
            Ok((t, size, end)) => pos < end <= data@.len() && entry_head(from_pos(data@, pos as nat)) == Ok::<
                (u8, u64, nat),
                Seq<char>,
            >((t, size, (end - pos) as nat)),
            Err(e) => entry_head(from_pos(data@, pos as nat)) == Err::<(u8, u64, nat), Seq<char>>(e@),
        },
{
    if pos >= data.len() {
        return Err("entry header 越界".to_owned());
    }
    let ghost s = data@.skip(pos as int);
    let k: usize = run_at(data, pos);
    if k >= 10 && data.len() - pos > 10 {
        return Err("size varint 过长".to_owned());
    }
    if k >= data.len() - pos {
        return Err("entry header 截断".to_owned());
    }
    assert(head_bytes(s) =~= data@.subrange(pos as int, pos + k + 1));
    let code: u8 = (data[pos] / 16) % 8;
    Ok((code, header_size_at(data, pos, k + 1), pos + k + 1))
}

/// Reads the distance of an offset delta. Returns it and where it ends.
pub fn parse_ofs_distance(data: &[u8], pos: usize) -> (r: Result<(u64, usize), String>)
    ensures
        ({
            let s = from_pos(data@, pos as nat);
            match r {
                Ok((distance, end)) => {
                    &&& ends(s)
                    &&& distance as nat == ofs128(head_bytes(s)) % word()
                    &&& end == pos + touched(s)
                    &&& pos < end <= data@.len()
                },
                Err(e) => !ends(s) && e@ == "ofs-delta 偏移截断"@,
            }
        }),
{
    if pos >= data.len() {
        return Err("ofs-delta 偏移截断".to_owned());
    }
    let ghost s = data@.skip(pos as int);
    let k: usize = run_at(data, pos);
    if k >= data.len() - pos {
        return Err("ofs-delta 偏移截断".to_owned());
    }
    assert(head_bytes(s) =~= data@.subrange(pos as int, pos + k + 1));
    Ok((ofs128_at(data, pos, k + 1), pos + k + 1))
}

/// A size of a delta header at the head of `s`: its value and how many bytes it takes.
pub open spec fn delta_size(s: Seq<u8>) -> Result<(u64, nat), Seq<char>> {
    match le128_scan_late(s) {
        Scan::Value { value, len } => Ok((value, len as nat)),
        Scan::TooLong => Err("delta size varint 过长"@),
        Scan::Truncated => Err("delta size varint 截断"@),
    }
}

/// Reads a little-endian size of a delta header. Returns it and where it ends.
pub fn parse_size_varint(data: &[u8], pos: usize) -> (r: Result<(u64, usize), String>)
    ensures
        match r {
            Ok((v, end)) => pos < end <= data@.len() && delta_size(from_pos(data@, pos as nat)) == Ok::<
                (u64, nat),
                Seq<char>,
            >((v, (end - pos) as nat)),
            Err(e) => delta_size(from_pos(data@, pos as nat)) == Err::<(u64, nat), Seq<char>>(e@),
        },
{
    if pos > data.len() {
        proof {
            assert(run(Seq::<u8>::empty()) == 0);
        }
        return Err("delta size varint 截断".to_owned());
    }
    match scan_le128_late(data, pos) {
        Scan::Value { value, len } => Ok((value, pos + len)),
        Scan::TooLong => Err("delta size varint 过长".to_owned()),
        Scan::Truncated => Err("delta size varint 截断".to_owned()),
    }
}

/// The two sizes of a delta and where its instructions begin.
pub open spec fn delta_head(d: Seq<u8>) -> Result<(u64, u64, nat), Seq<char>> {
    match delta_size(d) {
        Err(e) => Err(e),
        Ok((base, n1)) => match delta_size(d.skip(n1 as int)) {
            Err(e) => Err(e),
            Ok((out, n2)) => Ok((base, out, n1 + n2)),
        },
    }
}

pub fn parse_delta_header(delta: &[u8]) -> (r: Result<(u64, u64, usize), String>)
    ensures
        match r {
            Ok((base, out, at)) => at <= delta@.len() && delta_head(delta@) == Ok::<(u64, u64, nat), Seq<char>>(
                (base, out, at as nat),
            ),
            Err(e) => delta_head(delta@) == Err::<(u64, u64, nat), Seq<char>>(e@),
        },
{
    assert(delta@.skip(0) =~= delta@);
    let (base, p1) = match parse_size_varint(delta, 0) {
        Ok(v) => v,
        Err(e) => return Err(e),
    };
    let (out, p2) = match parse_size_varint(delta, p1) {
        Ok(v) => v,
        Err(e) => return Err(e),
    };
    Ok((base, out, p2))
}

/// What inflating a stream gave.
#[derive(Debug)]
pub struct InflateOutcome {
    pub output: Vec<u8>,
    /// The compressed bytes that the stream took: its boundary.
    pub consumed: usize,
    /// The end of the stream was reached, and its checksum held.
    pub complete: bool,
    /// It was stopped because the output grew past the limit: no whole object.
    pub budget_exceeded: bool,
}

/// The model of what inflating a stream gave.
pub ghost struct OutcomeModel {
    pub output: Seq<u8>,
    pub consumed: nat,
    pub complete: bool,
    pub budget_exceeded: bool,
}

impl View for InflateOutcome {
    type V = OutcomeModel;

    open spec fn view(&self) -> OutcomeModel {
        OutcomeModel {
            output: self.output@,
            consumed: self.consumed as nat,
            complete: self.complete,
            budget_exceeded: self.budget_exceeded,
        }
    }
}

/// What a stream at the head of `source` inflates to, after the calls that `rooms` tells of.
pub open spec fn stream_run(source: Seq<u8>, max_out: Option<u64>, rooms: Seq<nat>) -> Result<
    OutcomeModel,
    Seq<char>,
>
    decreases
        source.len() - stream_consumed(source, rooms) + usize::MAX - stream_produced(source, rooms).len(),
{
    let next = rooms.push(0x1_0000);
    let call = stream_call(source, next);
    let out = stream_produced(source, rooms) + call.produced;
    let used = stream_consumed(source, rooms) + call.consumed;
    let m = OutcomeModel { output: out, consumed: used, complete: false, budget_exceeded: false };
    if call.status == StreamStatus::Failed {
        Err("zlib 解压失败: "@ + call.message)
    } else if max_out is Some && out.len() > max_out->0 {
        Ok(OutcomeModel { budget_exceeded: true, ..m })
    } else if call.status == StreamStatus::Ended {
        Ok(OutcomeModel { complete: true, ..m })
    } else if call.consumed == 0 && call.produced.len() == 0 {
        if used >= source.len() {
            Ok(m)
        } else {
            Err("zlib 流无法继续推进（数据损坏）"@)
        }
    } else if stream_consumed(source, next) == used && stream_produced(source, next) == out && used
        <= source.len() && out.len() <= usize::MAX {
        stream_run(source, max_out, next)
    } else {
        Err("zlib 流无法继续推进（数据损坏）"@)
    }
}

/// Inflates the stream that begins at `start`, with its exact boundary. Input that ends before
/// the stream does gives an outcome that is not complete.
///
/// A stream that the encoder wrote is read back whole while it stays under the limit.
pub fn inflate_zlib(data: &[u8], start: usize, max_out: Option<u64>) -> (r: Result<InflateOutcome, String>)
    ensures
        match r {
            Ok(o) => {
                &&& start <= data@.len()
                &&& stream_run(data@.skip(start as int), max_out, Seq::empty()) == Ok::<OutcomeModel, Seq<char>>(
                    o@,
                )
                &&& start + o.consumed <= data@.len()
            },
            Err(e) => if start > data@.len() {
                e@ == "zlib 起点越界"@
            } else {
                stream_run(data@.skip(start as int), max_out, Seq::empty()) == Err::<OutcomeModel, Seq<char>>(
                    e@,
                )
            },
        },
        start <= data@.len() ==> forall|x: Seq<u8>| #[trigger]
            oxide_packed(x).is_prefix_of(data@.skip(start as int)) && (max_out is None || x.len() <= max_out->0)
                ==> (r matches Ok(o) && o.output@ == x && o.complete && o.consumed == oxide_packed(x).len()),
{
    if start > data.len() {
        return Err("zlib 起点越界".to_owned());
    }
    let source = vstd::slice::slice_subrange(data, start, data.len());
    assert(source@ =~= data@.skip(start as int));
    let mut z = StreamReader::start(source);
    let mut out: Vec<u8> = Vec::new();
    let mut pos: usize = 0;
    loop
        invariant
            z.source() == source@,
            source@ == data@.skip(start as int),
            start + source@.len() == data@.len(),
            pos == stream_consumed(source@, z.rooms()),
            pos <= source.len(),
            out@ == stream_produced(source@, z.rooms()),
            stream_run(source@, max_out, Seq::empty()) == stream_run(source@, max_out, z.rooms()),
        decreases source@.len() - pos + usize::MAX - out@.len(),
    {
        let ghost rooms = z.rooms();
        let call = z.step(source, 0x1_0000);
        proof {
            lemma_stream_push(source@, rooms, 0x1_0000);
        }
        if matches!(call.status, StreamStatus::Failed) {
            let mut m = "zlib 解压失败: ".to_owned();
            m.append(call.message.as_str());
            return Err(m);
        }
        push_all(&mut out, call.produced.as_slice());
        pos += call.consumed;
        assert(out@.len() == out.len());
        if let Some(max) = max_out {
            if out.len() as u64 > max {
                return Ok(InflateOutcome { output: out, consumed: pos, complete: false, budget_exceeded: true });
            }
        }
        if matches!(call.status, StreamStatus::Ended) {
            return Ok(InflateOutcome { output: out, consumed: pos, complete: true, budget_exceeded: false });
        }
        if call.consumed == 0 && call.produced.len() == 0 {
            if pos >= source.len() {
                return Ok(
                    InflateOutcome { output: out, consumed: pos, complete: false, budget_exceeded: false },
                );
            }
            return Err("zlib 流无法继续推进（数据损坏）".to_owned());
        }
    }
}

/// What a delta is made of.
#[derive(Clone, Copy, Debug)]
pub struct DeltaInfo {
    pub base_size: u64,
    pub declared_out_size: u64,
    pub instr_offset: usize,
    pub instr_len: usize,
    pub copy_count: u64,
    pub insert_count: u64,
}

/// What stops the instruction at `pos`.
pub open spec fn obstacle(base: Seq<u8>, d: Seq<u8>, pos: int) -> Option<Seq<char>> {
    match instr_at(d, pos) {
        Instr::CutOffset => Some("copy 操作数截断"@),
        Instr::CutLength => Some("copy 操作数截断"@),
        Instr::Reserved => Some("非法 delta 指令 0x00"@),
        Instr::CutInsert { len } => Some(
            "insert 指令越界：需要 "@ + dec(len as nat) + " 字节，剩余 "@ + dec((d.len() - pos - 1) as nat),
        ),
        Instr::Copy { offset, size, next } => if offset + size > base.len() {
            Some(
                "copy 指令越界：offset="@ + dec(offset as nat) + " size="@ + dec(size as nat)
                    + "，base 长度 "@ + dec(base.len()),
            )
        } else {
            None
        },
        Instr::Insert { .. } => None,
    }
}

/// What the instruction at `pos` appends, and where the next one begins.
pub open spec fn effect(base: Seq<u8>, d: Seq<u8>, pos: int) -> (Seq<u8>, int) {
    match instr_at(d, pos) {
        Instr::Copy { offset, size, next } => (base.subrange(offset as int, offset + size), next as int),
        Instr::Insert { from, len, next } => (d.subrange(from as int, next as int), next as int),
        _ => (Seq::empty(), d.len() as int),
    }
}

/// What a limit says against an output of `made` bytes.
pub open spec fn too_big(made: nat, promised: u64, max_out: Option<u64>) -> Option<Seq<char>> {
    if max_out is Some && made > max_out->0 {
        Some("delta 展开超过预算（"@ + dec(max_out->0 as nat) + " 字节）"@)
    } else if made > promised {
        Some("delta 输出超过声明大小 "@ + dec(promised as nat))
    } else {
        None
    }
}

/// What the instructions from `pos` on make of `out`, with the copies and inserts counted.
pub open spec fn played(
    base: Seq<u8>,
    d: Seq<u8>,
    promised: u64,
    max_out: Option<u64>,
    pos: int,
    out: Seq<u8>,
    copies: nat,
    inserts: nat,
) -> Result<(Seq<u8>, nat, nat), Seq<char>>
    decreases d.len() - pos,
{
    if pos >= d.len() {
        if out.len() != promised {
            Err("delta 输出大小不符：声明 "@ + dec(promised as nat) + "，实际 "@ + dec(out.len()))
        } else {
            Ok((out, copies, inserts))
        }
    } else {
        match obstacle(base, d, pos) {
            Some(m) => Err(m),
            None => {
                let e = effect(base, d, pos);
                let next = out + e.0;
                match too_big(next.len(), promised, max_out) {
                    Some(m) => Err(m),
                    None => if e.1 <= pos || e.1 > d.len() {
                        Err("copy 操作数截断"@)
                    } else if instr_at(d, pos) is Copy {
                        played(base, d, promised, max_out, e.1, next, copies + 1, inserts)
                    } else {
                        played(base, d, promised, max_out, e.1, next, copies, inserts + 1)
                    },
                }
            },
        }
    }
}

/// What applying a delta gives.
pub open spec fn delta_result(base: Seq<u8>, d: Seq<u8>, max_out: Option<u64>) -> Result<
    (Seq<u8>, DeltaInfo),
    Seq<char>,
> {
    match delta_head(d) {
        Err(e) => Err(e),
        Ok((base_size, out_size, at)) => if base_size != base.len() {
            Err("delta base 大小不匹配：声明 "@ + dec(base_size as nat) + "，实际 "@ + dec(base.len()))
        } else {
            match played(base, d, out_size, max_out, at as int, Seq::empty(), 0, 0) {
                Err(e) => Err(e),
                Ok((out, copies, inserts)) => Ok(
                    (
                        out,
                        DeltaInfo {
                            base_size,
                            declared_out_size: out_size,
                            instr_offset: at as usize,
                            instr_len: (d.len() - at) as usize,
                            copy_count: copies as u64,
                            insert_count: inserts as u64,
                        },
                    ),
                ),
            }
        },
    }
}

/// Applies a delta. The size of the base, the declared size of the output and the bounds of
/// every copy and insert are checked.
pub fn apply_delta(base: &[u8], delta: &[u8], max_out: Option<u64>) -> (r: Result<(Vec<u8>, DeltaInfo), String>)
    ensures
        match r {
            Ok((out, info)) => delta_result(base@, delta@, max_out) == Ok::<(Seq<u8>, DeltaInfo), Seq<char>>(
                (out@, info),
            ),
            Err(e) => delta_result(base@, delta@, max_out) == Err::<(Seq<u8>, DeltaInfo), Seq<char>>(e@),
        },
{
    let (base_size, out_size, start) = match parse_delta_header(delta) {
        Ok(v) => v,
        Err(e) => return Err(e),
    };
    let base_len: u64 = base.len() as u64;
    let total: usize = delta.len();
    if base_size != base_len {
        let mut m = "delta base 大小不匹配：声明 ".to_owned();
        push_dec(&mut m, base_size);
        m.append("，实际 ");
        push_dec(&mut m, base_len);
        return Err(m);
    }
    let mut out: Vec<u8> = Vec::new();
    let mut pos: usize = start;
    let mut copies: u64 = 0;
    let mut inserts: u64 = 0;
    while pos < delta.len()
        invariant
            start <= pos <= delta@.len(),
            total == delta@.len(),
            base_len == base@.len(),
            base_size == base_len,
            delta_head(delta@) == Ok::<(u64, u64, nat), Seq<char>>((base_size, out_size, start as nat)),
            copies + inserts <= pos,
            out@.len() <= out_size,
            played(base@, delta@, out_size, max_out, start as int, Seq::empty(), 0, 0) == played(
                base@,
                delta@,
                out_size,
                max_out,
                pos as int,
                out@,
                copies as nat,
                inserts as nat,
            ),
        decreases delta@.len() - pos,
    {
        let ghost was = pos as int;
        let ghost prev = out@;
        assert(base@.len() == base.len());
        proof {
            lemma_instr(delta@, pos as int);
        }
        match read_instr(delta, pos) {
            Instr::CutOffset => return Err("copy 操作数截断".to_owned()),
            Instr::CutLength => return Err("copy 操作数截断".to_owned()),
            Instr::Reserved => return Err("非法 delta 指令 0x00".to_owned()),
            Instr::CutInsert { len } => {
                let mut m = "insert 指令越界：需要 ".to_owned();
                push_dec(&mut m, len as u64);
                m.append(" 字节，剩余 ");
                push_dec(&mut m, (total - pos - 1) as u64);
                return Err(m);
            },
            Instr::Copy { offset, size, next } => {
                if offset + size > base_len {
                    let mut m = "copy 指令越界：offset=".to_owned();
                    push_dec(&mut m, offset);
                    m.append(" size=");
                    push_dec(&mut m, size);
                    m.append("，base 长度 ");
                    push_dec(&mut m, base_len);
                    return Err(m);
                }
                push_range(&mut out, base, offset as usize, (offset + size) as usize);
                copies += 1;
                pos = next;
            },
            Instr::Insert { from, len, next } => {
                push_range(&mut out, delta, from, next);
                inserts += 1;
                pos = next;
            },
        }
        assert(obstacle(base@, delta@, was) is None);
        assert(out@ =~= prev + effect(base@, delta@, was).0);
        assert(pos == effect(base@, delta@, was).1);
        let made: u64 = out.len() as u64;
        assert(made == out@.len());
        if let Some(max) = max_out {
            if made > max {
                let mut m = "delta 展开超过预算（".to_owned();
                push_dec(&mut m, max);
                m.append(" 字节）");
                return Err(m);
            }
        }
        if made > out_size {
            let mut m = "delta 输出超过声明大小 ".to_owned();
            push_dec(&mut m, out_size);
            return Err(m);
        }
    }
    let made: u64 = out.len() as u64;
    if made != out_size {
        let mut m = "delta 输出大小不符：声明 ".to_owned();
        push_dec(&mut m, out_size);
        m.append("，实际 ");
        push_dec(&mut m, made);
        return Err(m);
    }
    Ok(
        (
            out,
            DeltaInfo {
                base_size,
                declared_out_size: out_size,
                instr_offset: start,
                instr_len: total - start,
                copy_count: copies,
                insert_count: inserts,
            },
        ),
    )
}

/// Why something could not be parsed, and what that came from.
#[derive(Debug)]
pub struct Failure {
    pub message: String,
    pub cause: Option<String>,
}

/// The model of a failure.
pub ghost struct Trouble {
    pub message: Seq<char>,
    pub cause: Option<Seq<char>>,
}

impl View for Failure {
    type V = Trouble;

    open spec fn view(&self) -> Trouble {
        Trouble { message: self.message@, cause: text_opt(self.cause) }
    }
}

/// A failure without a cause.
pub open spec fn plain(message: Seq<char>) -> Trouble {
    Trouble { message, cause: None }
}

/// A failure with the one that it came from.
pub open spec fn from_cause(message: Seq<char>, cause: Seq<char>) -> Trouble {
    Trouble { message, cause: Some(cause) }
}

fn fail(message: String) -> (f: Failure)
    ensures
        f@ == plain(message@),
{
    Failure { message, cause: None }
}

fn fail_from(message: String, cause: String) -> (f: Failure)
    ensures
        f@ == from_cause(message@, cause@),
{
    Failure { message, cause: Some(cause) }
}

/// The base of a delta entry.
#[derive(Clone, Copy, Debug)]
pub enum DeltaBase {
    Ofs { distance: u64, base_offset: u64 },
    Ref { oid: [u8; 20] },
}

/// The model of the base of a delta entry.
pub ghost enum BaseModel {
    Ofs { distance: u64, base_offset: u64 },
    Ref { oid: Seq<u8> },
}

impl View for DeltaBase {
    type V = BaseModel;

    open spec fn view(&self) -> BaseModel {
        match *self {
            DeltaBase::Ofs { distance, base_offset } => BaseModel::Ofs { distance, base_offset },
            DeltaBase::Ref { oid } => BaseModel::Ref { oid: oid@ },
        }
    }
}

/// An entry of a pack.
#[derive(Debug)]
pub struct PackEntry {
    pub ordinal: u32,
    pub offset: u64,
    pub obj_type: u8,
    pub declared_size: u64,
    pub base: Option<DeltaBase>,
    pub data_offset: u64,
    pub data_len: u64,
    pub end_offset: u64,
    /// The checksum of the bytes of the entry, to be held against an index.
    pub crc32: u32,
    /// What was found wrong with the data; the boundary is recorded all the same.
    pub inflate_note: Option<String>,
}

/// The model of an entry.
pub ghost struct EntryModel {
    pub ordinal: u32,
    pub offset: u64,
    pub obj_type: u8,
    pub declared_size: u64,
    pub base: Option<BaseModel>,
    pub data_offset: u64,
    pub data_len: u64,
    pub end_offset: u64,
    pub crc32: u32,
    pub inflate_note: Option<Seq<char>>,
}

impl View for PackEntry {
    type V = EntryModel;

    open spec fn view(&self) -> EntryModel {
        EntryModel {
            ordinal: self.ordinal,
            offset: self.offset,
            obj_type: self.obj_type,
            declared_size: self.declared_size,
            base: match self.base {
                Some(b) => Some(b@),
                None => None,
            },
            data_offset: self.data_offset,
            data_len: self.data_len,
            end_offset: self.end_offset,
            crc32: self.crc32,
            inflate_note: text_opt(self.inflate_note),
        }
    }
}

/// A parsed pack.
#[derive(Debug)]
pub struct ParsedPack {
    pub version: u32,
    pub object_count: u32,
    pub entries: Vec<PackEntry>,
    pub trailer: [u8; 20],
    pub trailer_ok: bool,
    pub trailing_bytes: usize,
}

/// `entry #n`, with its offset where it is told.
pub open spec fn entry_label(ordinal: u32, offset: Option<nat>) -> Seq<char> {
    "entry #"@ + dec(ordinal as nat) + match offset {
        Some(o) => "（offset "@ + dec(o) + "）"@,
        None => ""@,
    }
}

/// The base of an entry at `offset` whose type is `t`, read at `at`; and where its data begin.
pub open spec fn base_at(d: Seq<u8>, t: u8, ordinal: u32, offset: nat, at: nat) -> Result<
    (Option<BaseModel>, nat),
    Trouble,
> {
    let s = d.skip(at as int);
    if t == OBJ_OFS_DELTA {
        if ends(s) {
            let distance = (ofs128(head_bytes(s)) % word()) as u64;
            Ok(
                (
                    Some(
                        BaseModel::Ofs {
                            distance,
                            base_offset: if distance > offset {
                                0
                            } else {
                                (offset - distance) as u64
                            },
                        },
                    ),
                    at + touched(s),
                ),
            )
        } else {
            Err(from_cause(entry_label(ordinal, None) + " ofs-delta 偏移解析失败"@, "ofs-delta 偏移截断"@))
        }
    } else if t == OBJ_REF_DELTA {
        if at + 20 > d.len() {
            Err(plain(entry_label(ordinal, None) + " ref-delta base oid 截断"@))
        } else {
            Ok((Some(BaseModel::Ref { oid: d.subrange(at as int, at as int + 20) }), at + 20))
        }
    } else if is_full(t) {
        Ok((None, at))
    } else {
        Err(plain(entry_label(ordinal, None) + " 非法对象类型 "@ + dec(t as nat)))
    }
}

/// What is wrong with the data of an entry.
pub open spec fn note_of(o: OutcomeModel, size: u64) -> Option<Seq<char>> {
    if !o.complete {
        Some("zlib 流提前结束（截断）"@)
    } else if o.output.len() != size {
        Some("大小欺骗：header 声明 "@ + dec(size as nat) + "，实际解压 "@ + dec(o.output.len()))
    } else {
        None
    }
}

/// The entry at `pos`.
pub open spec fn entry_at(d: Seq<u8>, ordinal: u32, pos: nat) -> Result<EntryModel, Trouble> {
    match entry_head(d.skip(pos as int)) {
        Err(e) => Err(from_cause(entry_label(ordinal, Some(pos)) + "header 解析失败"@, e)),
        Ok((t, size, n)) => match base_at(d, t, ordinal, pos, pos + n) {
            Err(e) => Err(e),
            Ok((base, at)) => match stream_run(d.skip(at as int), None, Seq::empty()) {
                Err(e) => Err(from_cause(entry_label(ordinal, Some(pos)) + "zlib 解析失败"@, e)),
                Ok(o) => Ok(
                    EntryModel {
                        ordinal,
                        offset: pos as u64,
                        obj_type: t,
                        declared_size: size,
                        base,
                        data_offset: at as u64,
                        data_len: o.consumed as u64,
                        end_offset: (at + o.consumed) as u64,
                        crc32: crc32_of(d.subrange(pos as int, (at + o.consumed) as int)),
                        inflate_note: note_of(o, size),
                    },
                ),
            },
        },
    }
}

/// The entries from `ordinal` on, which begin at `pos`, behind those already found; and where
/// they end.
pub open spec fn entries_from(d: Seq<u8>, count: u32, ordinal: u32, pos: nat, found: Seq<EntryModel>) -> Result<
    (Seq<EntryModel>, nat),
    Trouble,
>
    decreases count - ordinal,
{
    if ordinal >= count {
        Ok((found, pos))
    } else {
        match entry_at(d, ordinal, pos) {
            Err(e) => Err(e),
            Ok(e) => entries_from(d, count, (ordinal + 1) as u32, e.end_offset as nat, found.push(e)),
        }
    }
}

/// The message of a pack that is too short.
pub open spec fn short_pack(n: nat) -> Seq<char> {
    "pack 文件过短（"@ + dec(n) + " 字节）"@
}

/// What a pack holds.
pub open spec fn is_pack(p: ParsedPack, d: Seq<u8>) -> bool {
    let version = be32(d, 4);
    let count = be32(d, 8);
    &&& d.len() >= 32
    &&& d.subrange(0, 4) == seq![80u8, 65, 67, 75]
    &&& version == 2 || version == 3
    &&& p.version == version
    &&& p.object_count == count
    &&& match entries_from(d, count, 0, 12, Seq::empty()) {
        Ok((found, end)) => {
            &&& end + 20 <= d.len()
            &&& views(p.entries@) == found
            &&& p.trailer@ == d.subrange(end as int, end as int + 20)
            &&& p.trailer_ok == (sha1_of(d.take(end as int)) == p.trailer@)
            &&& p.trailing_bytes == d.len() - end - 20
        },
        Err(_) => false,
    }
}

/// Why a pack cannot be parsed.
pub open spec fn pack_trouble(d: Seq<u8>) -> Option<Trouble> {
    let version = be32(d, 4);
    if d.len() < 32 {
        Some(plain(short_pack(d.len())))
    } else if d.subrange(0, 4) != seq![80u8, 65, 67, 75] {
        Some(plain("缺少 PACK 魔数"@))
    } else if version != 2 && version != 3 {
        Some(plain("不支持的 pack 版本 "@ + dec(version as nat)))
    } else {
        match entries_from(d, be32(d, 8), 0, 12, Seq::empty()) {
            Err(e) => Some(e),
            Ok((_, end)) => if end + 20 > d.len() {
                Some(plain("pack trailer 缺失（entry 数据可能超长）"@))
            } else {
                None
            },
        }
    }
}

fn label(ordinal: u32, offset: Option<u64>) -> (s: String)
    ensures
        s@ == entry_label(
            ordinal,
            match offset {
                Some(o) => Some(o as nat),
                None => None,
            },
        ),
{
    let mut s = "entry #".to_owned();
    push_dec(&mut s, ordinal as u64);
    match offset {
        Some(o) => {
            let ghost head = s@;
            s.append("（offset ");
            push_dec(&mut s, o);
            s.append("）");
            assert(s@ =~= head + ("（offset "@ + dec(o as nat) + "）"@));
        },
        None => s.append(""),
    }
    s
}

fn read_base(data: &[u8], t: u8, ordinal: u32, offset: usize, at: usize) -> (r: Result<
    (Option<DeltaBase>, usize),
    Failure,
>)
    requires
        at <= data@.len(),
    ensures
        match r {
            Ok((b, end)) => {
                &&& at <= end <= data@.len()
                &&& base_at(data@, t, ordinal, offset as nat, at as nat) == Ok::<
                    (Option<BaseModel>, nat),
                    Trouble,
                >(
                    (
                        match b {
                            Some(x) => Some(x@),
                            None => None,
                        },
                        end as nat,
                    ),
                )
            },
            Err(e) => base_at(data@, t, ordinal, offset as nat, at as nat) == Err::<
                (Option<BaseModel>, nat),
                Trouble,
            >(e@),
        },
{
    if t == OBJ_OFS_DELTA {
        match parse_ofs_distance(data, at) {
            Ok((distance, end)) => {
                let from: u64 = offset as u64;
                let base_offset: u64 = if distance > from {
                    0
                } else {
                    from - distance
                };
                Ok((Some(DeltaBase::Ofs { distance, base_offset }), end))
            },
            Err(e) => {
                let mut m = label(ordinal, None);
                m.append(" ofs-delta 偏移解析失败");
                Err(fail_from(m, e))
            },
        }
    } else if t == OBJ_REF_DELTA {
        if data.len() - at < 20 {
            let mut m = label(ordinal, None);
            m.append(" ref-delta base oid 截断");
            return Err(fail(m));
        }
        Ok((Some(DeltaBase::Ref { oid: oid_at(data, at) }), at + 20))
    } else if is_full_type(t) {
        Ok((None, at))
    } else {
        let mut m = label(ordinal, None);
        m.append(" 非法对象类型 ");
        push_dec(&mut m, t as u64);
        Err(fail(m))
    }
}

fn read_entry(data: &[u8], ordinal: u32, pos: usize) -> (r: Result<PackEntry, Failure>)
    requires
        pos <= data@.len(),
    ensures
        match r {
            Ok(e) => {
                &&& entry_at(data@, ordinal, pos as nat) == Ok::<EntryModel, Trouble>(e@)
                &&& pos < e.end_offset <= data@.len()
            },
            Err(e) => entry_at(data@, ordinal, pos as nat) == Err::<EntryModel, Trouble>(e@),
        },
{
    let total: usize = data.len();
    let offset: u64 = pos as u64;
    let (t, size, p2) = match parse_entry_header(data, pos) {
        Ok(v) => v,
        Err(e) => {
            let mut m = label(ordinal, Some(offset));
            m.append("header 解析失败");
            return Err(fail_from(m, e));
        },
    };
    let (base, at) = match read_base(data, t, ordinal, pos, p2) {
        Ok(v) => v,
        Err(e) => return Err(e),
    };
    let outcome = match inflate_zlib(data, at, None) {
        Ok(o) => o,
        Err(e) => {
            let mut m = label(ordinal, Some(offset));
            m.append("zlib 解析失败");
            return Err(fail_from(m, e));
        },
    };
    assert(at + outcome.consumed <= data.len());
    let end: usize = at + outcome.consumed;
    let bytes = vstd::slice::slice_subrange(data, pos, end);
    assert(bytes@ =~= data@.subrange(pos as int, end as int));
    let crc: u32 = crc32fast_hash(bytes);
    let made: u64 = outcome.output.len() as u64;
    assert(outcome.output@.len() == outcome.output.len());
    let note = if !outcome.complete {
        Some("zlib 流提前结束（截断）".to_owned())
    } else if made != size {
        let mut m = "大小欺骗：header 声明 ".to_owned();
        push_dec(&mut m, size);
        m.append("，实际解压 ");
        push_dec(&mut m, made);
        Some(m)
    } else {
        None
    };
    Ok(
        PackEntry {
            ordinal,
            offset,
            obj_type: t,
            declared_size: size,
            base,
            data_offset: at as u64,
            data_len: outcome.consumed as u64,
            end_offset: end as u64,
            crc32: crc,
            inflate_note: note,
        },
    )
}

/// Parses a pack: its header, the header of every entry, the bases of deltas, the boundaries of
/// the zlib streams and the checksum at the end.
pub fn parse_pack(data: &[u8]) -> (r: Result<ParsedPack, Failure>)
    ensures
        match r {
            Ok(p) => is_pack(p, data@) && pack_trouble(data@) is None,
            Err(e) => pack_trouble(data@) == Some(e@),
        },
{
    let total: usize = data.len();
    if total < 32 {
        let mut m = "pack 文件过短（".to_owned();
        push_dec(&mut m, total as u64);
        m.append(" 字节）");
        return Err(fail(m));
    }
    let head: [u8; 4] = [80, 65, 67, 75];
    assert(head@ =~= seq![80u8, 65, 67, 75]);
    if !begins_with(data, head.as_slice()) {
        return Err(fail("缺少 PACK 魔数".to_owned()));
    }
    let version: u32 = read_be32(data, 4);
    if version != 2 && version != 3 {
        let mut m = "不支持的 pack 版本 ".to_owned();
        push_dec(&mut m, version as u64);
        return Err(fail(m));
    }
    let count: u32 = read_be32(data, 8);
    let mut entries: Vec<PackEntry> = Vec::new();
    let mut pos: usize = 12;
    let mut ordinal: u32 = 0;
    assert(views(entries@) =~= Seq::empty());
    while ordinal < count
        invariant
            ordinal <= count,
            12 <= pos <= data@.len(),
            total == data@.len(),
            total >= 32,
            data@.subrange(0, 4) == seq![80u8, 65, 67, 75],
            version == be32(data@, 4),
            version == 2 || version == 3,
            count == be32(data@, 8),
            entries_from(data@, count, 0, 12, Seq::empty()) == entries_from(
                data@,
                count,
                ordinal,
                pos as nat,
                views(entries@),
            ),
        decreases count - ordinal,
    {
        let e = match read_entry(data, ordinal, pos) {
            Ok(e) => e,
            Err(e) => return Err(e),
        };
        assert(e.end_offset <= data.len());
        pos = e.end_offset as usize;
        let ghost before = entries@;
        entries.push(e);
        assert(views(entries@) =~= views(before).push(e@));
        ordinal += 1;
    }
    if total - pos < 20 {
        return Err(fail("pack trailer 缺失（entry 数据可能超长）".to_owned()));
    }
    let trailer = oid_at(data, pos);
    let body = vstd::slice::slice_subrange(data, 0, pos);
    assert(body@ =~= data@.take(pos as int));
    let digest = sha1(body);
    let trailer_ok: bool = same_bytes(digest.as_slice(), trailer.as_slice());
    Ok(
        ParsedPack {
            version,
            object_count: count,
            entries,
            trailer,
            trailer_ok,
            trailing_bytes: total - pos - 20,
        },
    )
}

/// The entries of a pack follow one another without a gap.
pub proof fn entries_adjoin(d: Seq<u8>, count: u32, ordinal: u32, pos: nat, found: Seq<EntryModel>)
    requires
        d.len() <= u64::MAX,
        pos <= u64::MAX,
        forall|i: int| 0 <= i < found.len() - 1 ==> (#[trigger] found[i]).end_offset == found[i + 1].offset,
        found.len() > 0 ==> found.last().end_offset == pos,
    ensures
        entries_from(d, count, ordinal, pos, found) matches Ok((all, end)) ==> forall|i: int|
            0 <= i < all.len() - 1 ==> (#[trigger] all[i]).end_offset == all[i + 1].offset,
    decreases count - ordinal,
{
    if ordinal < count {
        match entry_at(d, ordinal, pos) {
            Err(_) => {},
            Ok(e) => {
                let more = found.push(e);
                assert forall|i: int| 0 <= i < more.len() - 1 implies (#[trigger] more[i]).end_offset == more[i
                    + 1].offset by {
                    if i < found.len() - 1 {
                        assert(found[i].end_offset == found[i + 1].offset);
                    }
                }
                entries_adjoin(d, count, (ordinal + 1) as u32, e.end_offset as nat, more);
            },
        }
    }
}

/// An entry is told as it stands: its type and size as its head spells them, the base that it names,
/// where its data begin and end, and the checksum of all its bytes. It has no note exactly when its
/// stream is complete and inflates to the size that was declared.
pub proof fn an_entry_is_told_as_it_stands(
    d: Seq<u8>,
    ordinal: u32,
    pos: nat,
    code: nat,
    size: nat,
    base: Seq<u8>,
    distance: nat,
)
    requires
        d.len() <= usize::MAX,
        has_head(d, pos as int, code, size, base),
        1 <= code <= 4 || code == 6 || code == 7,
        code <= 4 ==> base.len() == 0,
        code == 6 ==> distance < 0x1_0000_0000_0000_0000 && base == ofs128_bytes(distance),
        code == 7 ==> base.len() == 20,
    ensures
        ({
            let at = pos + header_bytes(code, size).len() + base.len();
            let stream = stream_run(d.skip(at as int), None, Seq::empty());
            let r = entry_at(d, ordinal, pos);
            &&& r is Ok <==> stream is Ok
            &&& r is Ok && at + stream->Ok_0.consumed <= d.len() ==> {
                let e = r->Ok_0;
                let o = stream->Ok_0;
                &&& e.ordinal == ordinal && e.offset == pos && e.obj_type == code && e.declared_size == size
                &&& e.data_offset == at && e.data_len == o.consumed && e.end_offset == at + o.consumed
                &&& e.crc32 == crc32_of(d.subrange(pos as int, (at + o.consumed) as int))
                &&& code <= 4 ==> e.base is None
                &&& code == 7 ==> e.base == Some(BaseModel::Ref { oid: base })
                &&& code == 6 ==> (e.base matches Some(BaseModel::Ofs { distance: k, base_offset }) && k == distance && (
                distance <= pos ==> base_offset + distance == pos))
                &&& e.inflate_note is None <==> o.complete && o.output.len() == size
            }
        }),
{
    heads_are_read(d, pos as int, code, size, base);
    let at = pos + header_bytes(code, size).len();
    if code == 6 {
        distances_are_read(d, at as int, distance);
    }
}

/// An entry of an index.
#[derive(Clone, Copy, Debug)]
pub struct IndexEntry {
    pub oid: [u8; 20],
    pub crc32: u32,
    pub offset: u64,
}

/// A parsed index.
#[derive(Debug)]
pub struct ParsedIndex {
    pub fanout: Vec<u32>,
    pub entries: Vec<IndexEntry>,
    pub pack_checksum: [u8; 20],
    pub index_checksum: [u8; 20],
    pub fanout_ok: bool,
    pub checksum_ok: bool,
}

/// The fanout table of an index.
pub open spec fn fanout_of(d: Seq<u8>) -> Seq<u32> {
    Seq::new(256, |i: int| be32(d, 8 + 4 * i))
}

/// The number of objects that an index declares.
pub open spec fn count_of(d: Seq<u8>) -> nat {
    be32(d, 1028) as nat
}

/// The least length of an index with `n` objects.
pub open spec fn needed(n: nat) -> nat {
    1072 + n * 28
}

/// Where the 64-bit offset that a word stands for begins.
pub open spec fn large_at(n: nat, word: u32) -> int {
    1032 + n * 28 + (word - 0x8000_0000) * 8
}

/// The word of entry `i` stands for a place in the table of 64-bit offsets that is not there.
pub open spec fn stray(d: Seq<u8>, n: nat, i: int) -> bool {
    let w = be32(d, 1032 + n * 24 + i * 4);
    w >= 0x8000_0000 && large_at(n, w) + 8 > d.len() - 40
}

/// The offset of entry `i`.
pub open spec fn offset_of(d: Seq<u8>, n: nat, i: int) -> u64 {
    let w = be32(d, 1032 + n * 24 + i * 4);
    if w >= 0x8000_0000 {
        be64(d, large_at(n, w))
    } else {
        w as u64
    }
}

/// Why an index cannot be parsed.
pub open spec fn index_trouble(d: Seq<u8>) -> Option<Seq<char>> {
    if d.len() < 1072 {
        Some("index 文件过短"@)
    } else if d.subrange(0, 4) != seq![255u8, 116, 79, 99] {
        Some("仅支持 index v2（缺少 \\xfftOc 魔数）"@)
    } else if be32(d, 4) != 2 {
        Some("不支持的 index 版本 "@ + dec(be32(d, 4) as nat))
    } else if d.len() < needed(count_of(d)) {
        Some(
            "index 截断：需要至少 "@ + dec(needed(count_of(d))) + " 字节，实际 "@ + dec(d.len()),
        )
    } else if exists|i: int| 0 <= i < count_of(d) && #[trigger] stray(d, count_of(d), i) {
        Some("index 大偏移表越界"@)
    } else {
        None
    }
}

/// What entry `i` of an index is.
pub open spec fn is_entry(e: IndexEntry, d: Seq<u8>, n: nat, i: int) -> bool {
    &&& e.oid@ == d.subrange(1032 + 20 * i, 1032 + 20 * i + 20)
    &&& e.crc32 == be32(d, 1032 + n * 20 + 4 * i)
    &&& e.offset == offset_of(d, n, i)
}

/// What an index holds.
pub open spec fn is_parsed_index(p: ParsedIndex, d: Seq<u8>) -> bool {
    let n = count_of(d);
    let len = d.len() as int;
    &&& p.fanout@ == fanout_of(d)
    &&& p.fanout_ok == (forall|i: int| 0 <= i < 255 ==> #[trigger] be32(d, 8 + 4 * i) <= be32(d, 12 + 4 * i))
    &&& p.entries@.len() == n
    &&& forall|i: int| 0 <= i < n ==> is_entry(#[trigger] p.entries@[i], d, n, i)
    &&& p.pack_checksum@ == d.subrange(len - 40, len - 20)
    &&& p.index_checksum@ == d.subrange(len - 20, len)
    &&& p.checksum_ok == (sha1_of(d.take(len - 20)) == p.index_checksum@)
}

/// What was parsed are the rows, the fanout table and the checksums of an index.
pub open spec fn reads_index(p: ParsedIndex, rows: Seq<Row>, fan: Seq<u32>, pack_sum: Seq<u8>, sum: Seq<u8>) -> bool {
    &&& p.fanout@ == fan
    &&& p.entries@.len() == rows.len()
    &&& forall|i: int|
        0 <= i < rows.len() ==> (#[trigger] p.entries@[i]).oid@ == rows[i].oid && p.entries@[i].offset == rows[i].offset
            && p.entries@[i].crc32 == rows[i].crc
    &&& p.pack_checksum@ == pack_sum
    &&& p.index_checksum@ == sum
}

/// An index is read as it was written, offsets beyond 31 bits included: whatever the rows, parsing
/// their index succeeds and gives each row, the fanout table and the checksums.
pub proof fn the_rows_of_an_index_are_read(d: Seq<u8>, rows: Seq<Row>, fan: Seq<u32>, pack_sum: Seq<u8>, sum: Seq<u8>)
    requires
        is_new_index(d, rows, fan, pack_sum, sum),
    ensures
        index_trouble(d) is None,
        forall|p: ParsedIndex| #[trigger] is_parsed_index(p, d) ==> reads_index(p, rows, fan, pack_sum, sum),
{
    new_index_layout(rows, fan, pack_sum, sum);
    let n = rows.len();
    assert(count_of(d) == n);
    assert forall|i: int| 0 <= i < n implies !#[trigger] stray(d, n, i) by {
        new_index_row(rows, fan, pack_sum, sum, i);
    }
    assert forall|p: ParsedIndex| #[trigger] is_parsed_index(p, d) implies reads_index(p, rows, fan, pack_sum, sum) by {
        assert(p.fanout@ =~= fan) by {
            assert forall|j: int| 0 <= j < 256 implies p.fanout@[j] == #[trigger] fan[j] by {}
        }
        assert forall|i: int| 0 <= i < n implies (#[trigger] p.entries@[i]).oid@ == rows[i].oid && p.entries@[i].offset
            == rows[i].offset && p.entries@[i].crc32 == rows[i].crc by {
            new_index_row(rows, fan, pack_sum, sum, i);
            assert(is_entry(p.entries@[i], d, n, i));
        }
    }
}

/// Parses a version 2 index: the fanout table, ids, checksums, offsets with the table of 64-bit
/// ones, and the two checksums at the end.
pub fn parse_index(data: &[u8]) -> (r: Result<ParsedIndex, String>)
    ensures
        match r {
            Ok(p) => index_trouble(data@) is None && is_parsed_index(p, data@),
            Err(e) => index_trouble(data@) == Some(e@),
        },
{
    let total: usize = data.len();
    if total < 1072 {
        return Err("index 文件过短".to_owned());
    }
    let head: [u8; 4] = [255, 116, 79, 99];
    assert(head@ =~= seq![255u8, 116, 79, 99]);
    if !begins_with(data, head.as_slice()) {
        return Err("仅支持 index v2（缺少 \\xfftOc 魔数）".to_owned());
    }
    let version: u32 = read_be32(data, 4);
    if version != 2 {
        let mut m = "不支持的 index 版本 ".to_owned();
        push_dec(&mut m, version as u64);
        return Err(m);
    }
    let mut fanout: Vec<u32> = Vec::new();
    let mut fanout_ok: bool = true;
    let mut k: usize = 0;
    while k < 256
        invariant
            k <= 256,
            total == data@.len(),
            total >= 1072,
            fanout@.len() == k,
            forall|i: int| 0 <= i < k ==> #[trigger] fanout@[i] == be32(data@, 8 + 4 * i),
            fanout_ok == (forall|i: int|
                0 <= i < k - 1 ==> #[trigger] be32(data@, 8 + 4 * i) <= be32(data@, 12 + 4 * i)),
        decreases 256 - k,
    {
        let w: u32 = read_be32(data, 8 + 4 * k);
        if k > 0 {
            assert(be32(data@, 8 + 4 * (k - 1)) == fanout@[k - 1]);
            assert(12 + 4 * (k - 1) == 8 + 4 * k);
            if fanout[k - 1] > w {
                assert(be32(data@, 8 + 4 * (k - 1)) > be32(data@, 12 + 4 * (k - 1)));
                fanout_ok = false;
            }
        }
        fanout.push(w);
        k += 1;
    }
    assert(fanout@ =~= fanout_of(data@));
    let count: u64 = fanout[255] as u64;
    let ghost n = count_of(data@);
    assert(count == n);
    let need: u64 = 1072 + count * 28;
    if (total as u64) < need {
        let mut m = "index 截断：需要至少 ".to_owned();
        push_dec(&mut m, need);
        m.append(" 字节，实际 ");
        push_dec(&mut m, total as u64);
        return Err(m);
    }
    assert(need <= data.len());
    let objects: usize = count as usize;
    let mut entries: Vec<IndexEntry> = Vec::new();
    let mut i: usize = 0;
    while i < objects
        invariant
            i <= objects,
            objects == n,
            n == count_of(data@),
            total == data@.len(),
            total == data.len(),
            needed(n) <= total,
            entries@.len() == i,
            forall|j: int| 0 <= j < i ==> is_entry(#[trigger] entries@[j], data@, n, j),
            forall|j: int| 0 <= j < i ==> !#[trigger] stray(data@, n, j),
            data@.len() >= 1072,
            data@.subrange(0, 4) == seq![255u8, 116, 79, 99],
            be32(data@, 4) == 2,
        decreases objects - i,
    {
        let oid = oid_at(data, 1032 + 20 * i);
        let crc: u32 = read_be32(data, 1032 + 20 * objects + 4 * i);
        let w: u32 = read_be32(data, 1032 + 24 * objects + 4 * i);
        let offset: u64 = if w >= 0x8000_0000 {
            let at: u64 = 1032 + 28 * (objects as u64) + 8 * ((w - 0x8000_0000) as u64);
            if at + 8 > (total - 40) as u64 {
                assert(stray(data@, n, i as int));
                return Err("index 大偏移表越界".to_owned());
            }
            read_be64(data, at as usize)
        } else {
            w as u64
        };
        assert(!stray(data@, n, i as int));
        entries.push(IndexEntry { oid, crc32: crc, offset });
        assert(is_entry(entries@[i as int], data@, n, i as int));
        i += 1;
    }
    let pack_checksum = oid_at(data, total - 40);
    let index_checksum = oid_at(data, total - 20);
    let body = vstd::slice::slice_subrange(data, 0, total - 20);
    assert(body@ =~= data@.take(total - 20));
    let digest = sha1(body);
    let checksum_ok: bool = same_bytes(digest.as_slice(), index_checksum.as_slice());
    Ok(ParsedIndex { fanout, entries, pack_checksum, index_checksum, fanout_ok, checksum_ok })
}

/// A parsed loose object.
#[derive(Debug)]
pub struct ParsedLoose {
    pub obj_type: u8,
    pub declared_size: u64,
    pub content: Vec<u8>,
    pub oid: [u8; 20],
    pub header_ok: bool,
}

/// The model of a parsed loose object.
pub ghost struct LooseModel {
    pub obj_type: u8,
    pub declared_size: u64,
    pub content: Seq<u8>,
    pub oid: Seq<u8>,
    pub header_ok: bool,
}

impl View for ParsedLoose {
    type V = LooseModel;

    open spec fn view(&self) -> LooseModel {
        LooseModel {
            obj_type: self.obj_type,
            declared_size: self.declared_size,
            content: self.content@,
            oid: self.oid@,
            header_ok: self.header_ok,
        }
    }
}

/// What a framed object holds.
pub open spec fn unframed(f: Seq<u8>) -> Result<LooseModel, Seq<char>> {
    let nul = first_at(f, 0);
    let head = decode_utf8(f.take(nul as int));
    let body = f.skip(nul as int + 1);
    if nul >= f.len() {
        Err("loose object 缺少 NUL header"@)
    } else if !valid_utf8(f.take(nul as int)) {
        Err("loose object header 非 UTF-8"@)
    } else {
        match after(head, ' ') {
            None => Err("loose object header 缺少空格"@),
            Some(len) => match code_of(before(head, ' ')) {
                None => Err("loose object 未知类型 "@ + before(head, ' ')),
                Some(t) => match decimal(encode_utf8(len), u64::MAX as nat) {
                    None => Err("loose object size 非数字"@),
                    Some(n) => Ok(
                        LooseModel {
                            obj_type: t,
                            declared_size: n as u64,
                            content: body,
                            oid: sha1_of(object_frame(name_of(t), body)),
                            header_ok: n == body.len(),
                        },
                    ),
                },
            },
        }
    }
}

/// What a loose object holds.
pub open spec fn loose_of(d: Seq<u8>) -> Result<LooseModel, Seq<char>> {
    match stream_run(d, None, Seq::empty()) {
        Err(e) => Err(e),
        Ok(o) => if !o.complete {
            Err("loose object zlib 流截断"@)
        } else {
            unframed(o.output)
        },
    }
}

/// Reads a framed object.
pub fn read_frame(buf: &[u8]) -> (r: Result<ParsedLoose, String>)
    ensures
        match r {
            Ok(p) => unframed(buf@) == Ok::<LooseModel, Seq<char>>(p@),
            Err(e) => unframed(buf@) == Err::<LooseModel, Seq<char>>(e@),
        },
{
    let nul: usize = find_byte(buf, 0);
    if nul >= buf.len() {
        return Err("loose object 缺少 NUL header".to_owned());
    }
    let bytes = vstd::slice::slice_subrange(buf, 0, nul);
    assert(bytes@ =~= buf@.take(nul as int));
    let head = match utf8_text(bytes) {
        Ok(h) => h,
        Err(_) => return Err("loose object header 非 UTF-8".to_owned()),
    };
    let (name, rest) = split_once(head.as_str(), ' ');
    let len = match rest {
        Some(l) => l,
        None => return Err("loose object header 缺少空格".to_owned()),
    };
    let obj_type: u8 = match type_from_name(name.as_str()) {
        Some(t) => t,
        None => {
            let mut m = "loose object 未知类型 ".to_owned();
            m.append(name.as_str());
            return Err(m);
        },
    };
    let declared: u64 = match parse_decimal(len.as_str().as_bytes()) {
        Some(n) => n,
        None => return Err("loose object size 非数字".to_owned()),
    };
    let content = copy_range(buf, nul + 1, buf.len());
    assert(content@ =~= buf@.skip(nul as int + 1));
    assert(content@.len() == content.len());
    let header_ok: bool = declared == content.len() as u64;
    let oid = git_oid(obj_type, content.as_slice());
    Ok(ParsedLoose { obj_type, declared_size: declared, content, oid, header_ok })
}

/// Parses a loose object: a zlib stream of the framed content.
///
/// A loose object that the encoder wrote is read for what was framed.
pub fn parse_loose(data: &[u8]) -> (r: Result<ParsedLoose, String>)
    ensures
        match r {
            Ok(p) => loose_of(data@) == Ok::<LooseModel, Seq<char>>(p@),
            Err(e) => loose_of(data@) == Err::<LooseModel, Seq<char>>(e@),
        },
        forall|x: Seq<u8>| #[trigger]
            oxide_packed(x).is_prefix_of(data@) ==> match r {
                Ok(p) => unframed(x) == Ok::<LooseModel, Seq<char>>(p@),
                Err(e) => unframed(x) == Err::<LooseModel, Seq<char>>(e@),
            },
{
    assert(data@.skip(0) =~= data@);
    let outcome = match inflate_zlib(data, 0, None) {
        Ok(o) => o,
        Err(e) => return Err(e),
    };
    if !outcome.complete {
        return Err("loose object zlib 流截断".to_owned());
    }
    read_frame(outcome.output.as_slice())
}

/// The SHA-256 digest of bytes, as text.
pub fn sha256_hex(data: &[u8]) -> (s: String)
    ensures
        s@ == hex(sha256_of(data@)),
{
    let sum = sha256(data);
    hex_encode(sum.as_slice())
}

pub fn oid_hex(oid: &[u8]) -> (s: String)
    ensures
        s@ == hex(oid@),
{
    hex_encode(oid)
}

/// A framed object is split into its type and its content again, and so a loose object that was
/// framed and compressed is read back.
pub proof fn frames_are_split_again(t: u8, body: Seq<u8>)
    requires
        is_full(t),
        body.len() <= u64::MAX,
    ensures
        unframed(object_frame(name_of(t), body)) == Ok::<LooseModel, Seq<char>>(
            LooseModel {
                obj_type: t,
                declared_size: body.len() as u64,
                content: body,
                oid: sha1_of(object_frame(name_of(t), body)),
                header_ok: true,
            },
        ),
{
    lemma_names_are_words();
    names_are_read_back(t);
    lemma_frame_head(name_of(t), body.len(), body);
    dec_bytes_roundtrip(body.len());
}

proof fn lemma_played(
    base: Seq<u8>,
    d: Seq<u8>,
    promised: u64,
    max_out: Option<u64>,
    pos: int,
    out: Seq<u8>,
    copies: nat,
    inserts: nat,
)
    requires
        0 <= pos <= d.len() <= usize::MAX,
    ensures
        ({
            let r = played(base, d, promised, max_out, pos, out, copies, inserts);
            let w = crate::model::delta::played(base, d, pos, out);
            &&& w is Some ==> out.len() <= (w->0).len()
            &&& r is Ok ==> w == Some((r->Ok_0).0) && (r->Ok_0).0.len() == promised
            &&& w is Some && (w->0).len() == promised && (max_out is None || promised <= max_out->0) ==> r is Ok
            &&& r is Ok && max_out is Some && pos < d.len() ==> promised <= max_out->0
        }),
    decreases d.len() - pos,
{
    if pos < d.len() {
        lemma_instr(d, pos);
        crate::model::delta::playing_appends_what_is_said(base, d, pos, out);
        if obstacle(base, d, pos) is None {
            let e = effect(base, d, pos);
            let next = out + e.0;
            if instr_at(d, pos) is Copy {
                lemma_played(base, d, promised, max_out, e.1, next, copies + 1, inserts);
            } else {
                lemma_played(base, d, promised, max_out, e.1, next, copies, inserts + 1);
            }
            if e.1 >= d.len() && next.len() <= promised {
                assert(max_out is Some && next.len() > max_out->0 ==> too_big(next.len(), promised, max_out) is Some);
            }
        }
    }
}

/// A delta is applied exactly when its head names the length of the base, its instructions build as many
/// bytes as it promises, and these are no more than may be built. The result is what they build.
pub proof fn applies_exactly_when_sound(base: Seq<u8>, d: Seq<u8>, max_out: Option<u64>)
    requires
        d.len() <= usize::MAX,
    ensures
        ({
            let r = delta_result(base, d, max_out);
            &&& r is Ok ==> {
                let (out, info) = r->Ok_0;
                &&& delta_head(d) is Ok
                &&& info.base_size == base.len() && info.declared_out_size == out.len()
                &&& info.instr_offset + info.instr_len == d.len()
                &&& crate::model::delta::played(base, d, info.instr_offset as int, Seq::empty()) == Some(out)
                &&& max_out is Some && info.instr_len > 0 ==> out.len() <= max_out->0
            }
            &&& delta_head(d) is Ok ==> {
                let (b, n, at) = delta_head(d)->Ok_0;
                let w = crate::model::delta::played(base, d, at as int, Seq::empty());
                b == base.len() && w is Some && (w->0).len() == n && (max_out is None || n <= max_out->0) ==> r is Ok
            }
        }),
{
    if let Ok((b, n, at)) = delta_head(d) {
        crate::model::varint::lemma_run_bounds(d);
        if let Ok((v, k)) = delta_size(d) {
            crate::model::varint::lemma_run_bounds(d.skip(k as int));
        }
        lemma_played(base, d, n, max_out, at as int, Seq::empty(), 0, 0);
    }
}

} // verus!
