//! What the bytes of a source file hold.
use vstd::prelude::*;
use crate::kernel::engine::rows::{ClaimRow, IdxModel, LooseModel, PackModel};
use crate::kernel::git::GitType;
use crate::kernel::idx::{
    is_v1_entry, is_v2_entry, parse_idx, v2_count, v2_is_large, v2_large_at, v2_magic, v2_raw, v2_sound,
    ParsedIdx,
};
use crate::kernel::loose::{loose_head, loose_run, parse_loose, ParsedLoose};
use crate::kernel::pack::{pack_magic, parse_pack, scanned, ParsedPack};
use crate::kernel::engine::rows::id_opt;
use crate::model::bytes::{be32, be64, first_at};
use crate::model::outside::sha1_of;
use crate::model::text::dec;

verus! {

/// What a pack file holds, or why it cannot be read.
pub open spec fn pack_file(b: Seq<u8>) -> Result<PackModel, Seq<char>> {
    if b.len() < 32 {
        Err("file shorter than pack header+trailer"@)
    } else if !pack_magic().is_prefix_of(b) {
        Err("bad pack magic"@)
    } else if be32(b, 4) != 2 {
        Err("unsupported pack version "@ + dec(be32(b, 4) as nat))
    } else {
        let s = scanned(b, be32(b, 8) as nat, 0, 12, Seq::empty());
        let trailer = b.subrange(b.len() - 20, b.len() as int);
        let computed = sha1_of(b.take(b.len() - 20));
        Ok(
            PackModel {
                version: 2,
                num_entries: be32(b, 8),
                entries: s.0,
                trailer_sha: trailer,
                computed_sha: computed,
                checksum_ok: trailer == computed,
                scan_error: s.1,
            },
        )
    }
}

/// Parses a pack file.
pub fn read_pack_file(data: &[u8]) -> (r: Result<ParsedPack, String>)
    ensures
        match r {
            Ok(p) => {
                &&& pack_file(data@) == Ok::<PackModel, Seq<char>>(p.deep_view())
                &&& data@.len() >= 32
            },
            Err(e) => pack_file(data@) == Err::<PackModel, Seq<char>>(e@),
        },
{
    parse_pack(data)
}

/// Row `i` of a version 2 index.
pub open spec fn v2_row(b: Seq<u8>, i: int) -> ClaimRow {
    let n = v2_count(b);
    let raw = v2_raw(b, n, i);
    ClaimRow {
        oid: b.subrange(1032 + i * 20, 1032 + i * 20 + 20),
        offset: if v2_is_large(raw) {
            be64(b, v2_large_at(n, raw))
        } else {
            raw as u64
        },
        crc32: Some(be32(b, 1032 + n * 20 + i * 4)),
    }
}

/// Row `i` of a version 1 index.
pub open spec fn v1_row(b: Seq<u8>, i: int) -> ClaimRow {
    ClaimRow {
        oid: b.subrange(1024 + i * 24 + 4, 1024 + i * 24 + 24),
        offset: be32(b, 1024 + i * 24) as u64,
        crc32: None,
    }
}

/// The fanout table that stands at `base`.
pub open spec fn fanout_at(b: Seq<u8>, base: int) -> Seq<u32> {
    Seq::new(256, |i: int| be32(b, base + i * 4))
}

/// An index file of a version, with its fanout table at `base` and given rows.
pub open spec fn idx_with(b: Seq<u8>, version: u8, base: int, count: u32, rows: Seq<ClaimRow>) -> IdxModel {
    let trailer = b.subrange(b.len() - 20, b.len() as int);
    let computed = sha1_of(b.take(b.len() - 40));
    IdxModel {
        version,
        fanout: fanout_at(b, base),
        num_entries: count,
        entries: rows,
        pack_checksum: b.subrange(b.len() - 40, b.len() - 20),
        idx_checksum: trailer,
        computed_idx_sha: computed,
        idx_checksum_ok: trailer == computed,
        parse_error: None,
    }
}

/// What an index file holds, or why it cannot be read.
pub open spec fn idx_file(b: Seq<u8>) -> Result<IdxModel, Seq<char>> {
    let n1 = be32(b, 1020) as nat;
    let n2 = v2_count(b);
    if b.len() < 1032 {
        Err("idx shorter than fanout table"@)
    } else if v2_magic().is_prefix_of(b) {
        if be32(b, 4) != 2 {
            Err("unsupported idx v2 version field "@ + dec(be32(b, 4) as nat))
        } else if b.len() < 1072 + n2 * 28 {
            Err("idx v2 tables truncated"@)
        } else if !v2_sound(b) {
            Err("extended offset index out of range"@)
        } else {
            Ok(idx_with(b, 2, 8, be32(b, 1028), Seq::new(n2, |i: int| v2_row(b, i))))
        }
    } else if b.len() < 1064 {
        Err("idx v1 too short"@)
    } else if b.len() < 1064 + n1 * 24 {
        Err("idx v1 entries truncated"@)
    } else {
        Ok(idx_with(b, 1, 0, be32(b, 1020), Seq::new(n1, |i: int| v1_row(b, i))))
    }
}

/// Parses an index file.
pub fn read_idx_file(data: &[u8]) -> (r: Result<ParsedIdx, String>)
    ensures
        match r {
            Ok(p) => idx_file(data@) == Ok::<IdxModel, Seq<char>>(p.deep_view()),
            Err(e) => idx_file(data@) == Err::<IdxModel, Seq<char>>(e@),
        },
{
    let r = parse_idx(data);
    proof {
        if r is Ok {
            let p = r->Ok_0;
            let b = data@;
            let rows = p.deep_view().entries;
            if v2_magic().is_prefix_of(b) {
                assert forall|i: int| 0 <= i < rows.len() implies rows[i] == v2_row(b, i) by {
                    assert(is_v2_entry(p.entries@[i], b, v2_count(b), i));
                }
                assert(rows =~= Seq::new(v2_count(b), |i: int| v2_row(b, i)));
                assert(p.fanout@ =~= fanout_at(b, 8));
            } else {
                assert forall|i: int| 0 <= i < rows.len() implies rows[i] == v1_row(b, i) by {
                    assert(is_v1_entry(p.entries@[i], b, i));
                }
                assert(rows =~= Seq::new(be32(b, 1020) as nat, |i: int| v1_row(b, i)));
                assert(p.fanout@ =~= fanout_at(b, 0));
            }
        }
    }
    r
}

/// What a loose object file holds.
pub open spec fn loose_file(b: Seq<u8>, path_oid: Option<Seq<u8>>) -> LooseModel {
    match loose_run(b, Seq::empty()) {
        Err(m) => LooseModel {
            path_oid,
            kind: GitType::Blob,
            content: Err(m),
            declared_size: 0,
            consumed: None,
        },
        Ok((out, consumed)) => match loose_head(out) {
            Err(m) => LooseModel {
                path_oid,
                kind: GitType::Blob,
                content: Err("loose header: "@ + m),
                declared_size: 0,
                consumed: Some((consumed as usize) as nat),
            },
            Ok((kind, n)) => {
                let body = out.skip(first_at(out, 0) as int + 1);
                LooseModel {
                    path_oid,
                    kind,
                    content: if body.len() == n {
                        Ok(body)
                    } else {
                        Err(
                            "loose header declares "@ + dec(n) + " bytes but body is "@ + dec(body.len())
                                + " bytes"@,
                        )
                    },
                    declared_size: n as u64,
                    consumed: Some((consumed as usize) as nat),
                }
            },
        },
    }
}

/// Reads a loose object file.
pub fn read_loose_file(data: &[u8], path_oid: Option<[u8; 20]>) -> (p: ParsedLoose)
    ensures
        p.deep_view() == loose_file(data@, id_opt(path_oid)),
{
    parse_loose(data, path_oid)
}

/// A pack file can be read exactly when it is long enough, begins with its four letters and is of the
/// second version. Its checksum is good exactly when its last twenty bytes are the digest of all before.
pub proof fn a_pack_file_is_told_as_it_is(b: Seq<u8>)
    ensures
        pack_file(b) is Ok <==> b.len() >= 32 && b[0] == 0x50 && b[1] == 0x41 && b[2] == 0x43 && b[3] == 0x4b && be32(b, 4)
            == 2,
        pack_file(b) is Ok ==> {
            let p = pack_file(b)->Ok_0;
            &&& p.version == 2 && p.num_entries == be32(b, 8)
            &&& p.trailer_sha == b.skip(b.len() - 20)
            &&& p.computed_sha == sha1_of(b.subrange(0, b.len() - 20))
            &&& p.checksum_ok <==> p.trailer_sha == p.computed_sha
        },
{
    let magic = seq![80u8, 65, 67, 75];
    assert(pack_magic() =~= magic);
    if b.len() >= 32 {
        let head = b.subrange(0, 4);
        if b[0] == 0x50 && b[1] == 0x41 && b[2] == 0x43 && b[3] == 0x4b {
            assert(head =~= magic);
        }
        assert(head[0] == b[0] && head[1] == b[1] && head[2] == b[2] && head[3] == b[3]);
        assert(magic[0] == 80 && magic[1] == 65 && magic[2] == 67 && magic[3] == 75);
        assert(b.subrange(b.len() - 20, b.len() as int) =~= b.skip(b.len() - 20));
        assert(b.take(b.len() - 20) =~= b.subrange(0, b.len() - 20));
    }
}

} // verus!
