//! Importing: parsed sources become nodes, and indexes are matched with packs.
use vstd::prelude::*;
use vstd::string::StringExecFns;
use crate::analyze::graph::text_opt;
use crate::kernel::engine::candidates::{close_over, dependents, offer_models, offers, pin_of};
use crate::kernel::engine::chain::{
    cap_sum, capped, fault_kind, id_of_hex, noted, pack_node_id, pack_node_name, read_hex_id, ref_of,
};
use crate::kernel::engine::parsed::{
    idx_file, loose_file, pack_file, read_idx_file, read_loose_file, read_pack_file,
};
use crate::kernel::engine::publish::{claims_only_claim, claims_rebuilt, resolved_all};
use crate::kernel::engine::rows::{
    source_models, Claim, ClaimModel, ClaimRow, Engine, EngineModel, FailKind, IdxModel, LooseModel, Node,
    NodeModel, NodeState, PackModel, SourceFile, SourceKind, SourceModel, StateModel,
};
use crate::kernel::idx::{IdxEntry, ParsedIdx};
use crate::kernel::inflate::Fault;
use crate::kernel::loose::{oid_from_relpath, path_id, ParsedLoose};
use crate::kernel::pack::{fault_text, models, pack_magic, EntryModel, PackEntry, StreamError};
use crate::model::assoc::{get, has_key, lemma_row_key, put};
use crate::model::bytes::{be32_bytes, begins_with, same_bytes};
use crate::model::outside::{hex_decode, hex_encode, sha256, sha256_of};
use crate::model::text::{
    dec, dec_padded, ends_with_lower, hex, is_hex, lower_ends_with, push_dec, push_dec_padded, push_hex32,
    push_part, same_text, stem, stem_of, texts,
};

verus! {

/// What kind of file a name and the first bytes suggest.
pub open spec fn kind_of(filename: Seq<char>, head: Seq<u8>) -> SourceKind {
    if lower_ends_with(filename, ".pack"@) || pack_magic().is_prefix_of(head) {
        SourceKind::Pack
    } else if lower_ends_with(filename, ".idx"@) {
        SourceKind::Idx
    } else {
        SourceKind::Loose
    }
}

/// What kind of file a name and the first bytes suggest. Everything that is neither a pack nor
/// an index is tried as a loose object.
pub fn detect_kind(filename: &str, head: &[u8]) -> (k: SourceKind)
    ensures
        k == kind_of(filename@, head@),
{
    let magic: [u8; 4] = [80, 65, 67, 75];
    assert(magic@ =~= pack_magic());
    if ends_with_lower(filename, ".pack") || begins_with(head, magic.as_slice()) {
        SourceKind::Pack
    } else if ends_with_lower(filename, ".idx") {
        SourceKind::Idx
    } else {
        SourceKind::Loose
    }
}

/// The source that holds the same bytes, under the same name or, with `any`, under any name.
pub open spec fn same_source(v: Seq<SourceModel>, sha: Seq<char>, filename: Seq<char>, any: bool) -> Option<Seq<char>>
    decreases v.len(),
{
    if v.len() == 0 {
        None
    } else if v[0].sha256 == sha && (any || v[0].filename == filename) {
        Some(v[0].id)
    } else {
        same_source(v.skip(1), sha, filename, any)
    }
}

/// The node of a pack entry.
pub open spec fn pack_node(source: Seq<char>, filename: Seq<char>, x: EntryModel) -> NodeModel {
    let id = pack_node_id(source, x.offset);
    NodeModel {
        id,
        source_id: source,
        source_name: filename,
        node_kind: "pack"@,
        object_type: x.etype.text(),
        offset: Some(x.offset as u64),
        data_offset: Some(x.data_offset as u64),
        end_offset: Some(x.end_offset as u64),
        declared_size: x.declared_size,
        idx_oid: None,
        state: match x.inflated {
            Ok(_) => StateModel::Unprocessed,
            Err(f) => StateModel::Failed {
                fail: fault_kind(f),
                message: fault_text(f),
                blocker_chain: seq![id],
            },
        },
        crc32: x.crc32,
        crc_ok: None,
        ofs_distance: x.ofs_distance,
        ofs_base_offset: match x.ofs_distance {
            Some(d) => if d <= x.offset as u64 {
                Some((x.offset as u64 - d) as u64)
            } else {
                None
            },
            None => None,
        },
        ref_base_oid: match x.base_oid {
            Some(b) => Some(hex(b)),
            None => None,
        },
    }
}

/// The code of the evidence on a broken stream.
pub open spec fn fault_code(f: Fault) -> Seq<char> {
    match f {
        Fault::Zlib(_) => "bad-inflate"@,
        Fault::SizeMismatch { .. } => "size-mismatch"@,
        Fault::SizeSpoof { .. } => "size-spoof"@,
    }
}

/// The engine with the nodes of the first `n` entries of a pack.
pub open spec fn with_pack_nodes(
    e: EngineModel,
    source: Seq<char>,
    filename: Seq<char>,
    v: Seq<EntryModel>,
    n: nat,
) -> EngineModel
    decreases n,
{
    if n == 0 {
        e
    } else {
        let w = with_pack_nodes(e, source, filename, v, (n - 1) as nat);
        let x = v[n - 1];
        let node = pack_node(source, filename, x);
        let w1 = match x.inflated {
            Ok(_) => w,
            Err(f) => noted(
                w,
                Some(node.id),
                Some(source),
                fault_code(f),
                fault_text(f),
                Some(x.data_offset as u64),
            ),
        };
        EngineModel { nodes: put(w1.nodes, node.id, node), ..w1 }
    }
}

/// The node of a loose object.
pub open spec fn loose_node(source: Seq<char>, filename: Seq<char>, l: LooseModel) -> NodeModel {
    let id = source + ":loose"@;
    NodeModel {
        id,
        source_id: source,
        source_name: filename,
        node_kind: "loose"@,
        object_type: l.kind.text(),
        offset: Some(0),
        data_offset: Some(0),
        end_offset: match l.consumed {
            Some(c) => Some(c as u64),
            None => None,
        },
        declared_size: l.declared_size,
        idx_oid: match l.path_oid {
            Some(b) => Some(hex(b)),
            None => None,
        },
        state: match l.content {
            Ok(_) => StateModel::Unprocessed,
            Err(m) => StateModel::Failed {
                fail: FailKind::BadLoose,
                message: m,
                blocker_chain: seq![id],
            },
        },
        crc32: None,
        crc_ok: None,
        ofs_distance: None,
        ofs_base_offset: None,
        ref_base_oid: None,
    }
}

/// The engine with the node of a loose object.
pub open spec fn with_loose_node(e: EngineModel, source: Seq<char>, filename: Seq<char>, l: LooseModel) -> EngineModel {
    let node = loose_node(source, filename, l);
    let e1 = match l.content {
        Ok(_) => e,
        Err(m) => noted(e, Some(node.id), Some(source), "bad-loose"@, m, None),
    };
    EngineModel { nodes: put(e1.nodes, node.id, node), ..e1 }
}

/// The file name of a source; its id when it is not listed.
pub open spec fn source_name(v: Seq<SourceModel>, id: Seq<char>) -> Seq<char>
    decreases v.len(),
{
    if v.len() == 0 {
        id
    } else if v[0].id == id {
        v[0].filename
    } else {
        source_name(v.skip(1), id)
    }
}

/// The first pack with a given checksum.
pub open spec fn pack_by_sha(v: Seq<(Seq<char>, PackModel)>, sha: Seq<u8>) -> Option<Seq<char>>
    decreases v.len(),
{
    if v.len() == 0 {
        None
    } else if v[0].1.computed_sha == sha {
        Some(v[0].0)
    } else {
        pack_by_sha(v.skip(1), sha)
    }
}

/// The first pack whose file name has a given stem.
pub open spec fn pack_by_stem(sources: Seq<SourceModel>, v: Seq<(Seq<char>, PackModel)>, want: Seq<char>) -> Option<
    Seq<char>,
>
    decreases v.len(),
{
    if v.len() == 0 {
        None
    } else if stem(source_name(sources, v[0].0), ".pack"@) == want {
        Some(v[0].0)
    } else {
        pack_by_stem(sources, v.skip(1), want)
    }
}

/// The pack of an index: by checksum, else by file name.
pub open spec fn paired(e: EngineModel, idx_id: Seq<char>, x: IdxModel) -> Option<Seq<char>> {
    match pack_by_sha(e.packs, x.pack_checksum) {
        Some(p) => Some(p),
        None => pack_by_stem(e.sources, e.packs, stem(source_name(e.sources, idx_id), ".idx"@)),
    }
}

/// The engine with the claim of one index row.
pub open spec fn row_claimed(e: EngineModel, idx_id: Seq<char>, pack_id: Seq<char>, r: ClaimRow) -> EngineModel {
    let node_id = pack_node_id(pack_id, r.offset as nat);
    if !has_key(e.nodes, node_id) {
        noted(
            e,
            None,
            Some(idx_id),
            "idx-offset"@,
            "index entry "@ + hex(r.oid) + " points at offset "@ + dec(r.offset as nat)
                + " which has no pack object"@,
            Some(r.offset),
        )
    } else {
        let n = get(e.nodes, node_id)->0;
        let n1 = NodeModel {
            idx_oid: Some(hex(r.oid)),
            crc_ok: match (n.crc32, r.crc32) {
                (Some(have), Some(want)) => Some(have == want),
                _ => n.crc_ok,
            },
            ..n
        };
        let e1 = EngineModel { nodes: put(e.nodes, node_id, n1), ..e };
        let e2 = match (n.crc32, r.crc32) {
            (Some(have), Some(want)) => if have != want {
                noted(
                    e1,
                    Some(node_id),
                    Some(idx_id),
                    "bad-crc"@,
                    "compressed data CRC "@ + hex(be32_bytes(have)) + " != index CRC "@ + hex(
                        be32_bytes(want),
                    ) + " for "@ + hex(r.oid),
                    n.offset,
                )
            } else {
                e1
            },
            _ => e1,
        };
        if has_key(e2.claimed, node_id) {
            e2
        } else {
            EngineModel {
                claimed: put(e2.claimed, node_id, ClaimModel { origin: "index"@, oid: r.oid }),
                ..e2
            }
        }
    }
}

/// The engine with the claims of the first `n` rows of an index.
pub open spec fn rows_claimed(e: EngineModel, idx_id: Seq<char>, pack_id: Seq<char>, v: Seq<ClaimRow>, n: nat) -> EngineModel
    decreases n,
{
    if n == 0 {
        e
    } else {
        row_claimed(rows_claimed(e, idx_id, pack_id, v, (n - 1) as nat), idx_id, pack_id, v[n - 1])
    }
}

/// The engine with an index matched with its pack.
pub open spec fn idx_matched(e: EngineModel, idx_id: Seq<char>, x: IdxModel) -> EngineModel {
    match paired(e, idx_id, x) {
        None => noted(
            e,
            None,
            Some(idx_id),
            "idx-unpaired"@,
            "index advertises pack "@ + hex(x.pack_checksum) + " but no imported pack matches it"@,
            None,
        ),
        Some(pack_id) => {
            let p = get(e.packs, pack_id)->0;
            let e1 = if p.num_entries != x.num_entries {
                noted(
                    e,
                    None,
                    Some(idx_id),
                    "idx-count"@,
                    "index lists "@ + dec(x.num_entries as nat) + " objects but pack header declares "@ + dec(
                        p.num_entries as nat,
                    ),
                    None,
                )
            } else {
                e
            };
            if p.computed_sha != x.pack_checksum {
                noted(
                    e1,
                    None,
                    Some(idx_id),
                    "idx-pack-mismatch"@,
                    "index "@ + source_name(e.sources, idx_id) + " does not match pack "@ + source_name(
                        e.sources,
                        pack_id,
                    ) + " (checksum mismatch); treating as not paired"@,
                    None,
                )
            } else {
                rows_claimed(e1, idx_id, pack_id, x.entries, x.entries.len())
            }
        },
    }
}

/// The engine with the first `n` indexes matched with their packs.
pub open spec fn idxs_matched(e: EngineModel, n: nat) -> EngineModel
    decreases n,
{
    if n == 0 {
        e
    } else {
        idx_matched(idxs_matched(e, (n - 1) as nat), e.idxs[n - 1].0, e.idxs[n - 1].1)
    }
}

/// The engine with all indexes matched with their packs.
pub open spec fn reconciled(e: EngineModel) -> EngineModel {
    idxs_matched(e, e.idxs.len())
}

/// The ids of the nodes from `from` on.
pub open spec fn ids_from(e: EngineModel, from: nat) -> Seq<Seq<char>> {
    Seq::new(
        if from <= e.nodes.len() {
            (e.nodes.len() - from) as nat
        } else {
            0
        },
        |i: int| e.nodes[from + i].1.id,
    )
}

/// A node from `from` on claims an object.
pub open spec fn newly_claimed(e: EngineModel, from: nat, oid: Seq<u8>) -> bool {
    exists|i: int|
        from <= i < e.nodes.len() && get(e.claimed, (#[trigger] e.nodes[i]).1.id) is Some && (get(
            e.claimed,
            e.nodes[i].1.id,
        )->0).oid == oid
}

/// A text spells an object id.
pub open spec fn spells_id(s: Seq<char>) -> bool {
    is_hex(s) && s.len() == 40
}

/// A node waits for an object that has just been claimed.
pub open spec fn was_missing(e: EngineModel, n: NodeModel, from: nat) -> bool {
    &&& (n.state is Paused || (n.state is Failed && n.state->fail == FailKind::MissingBase))
    &&& get(e.missing_edges, n.id) is Some
    &&& spells_id(get(e.missing_edges, n.id)->0)
    &&& newly_claimed(e, from, id_of_hex(get(e.missing_edges, n.id)->0))
}

/// The preferred base of a delta has changed.
pub open spec fn choice_changed(e: EngineModel, n: NodeModel) -> bool {
    let want = ref_of(n);
    let v = offers(e, id_of_hex(want));
    &&& n.object_type == "ref-delta"@
    &&& pin_of(e, want) is None
    &&& spells_id(want)
    &&& v.len() > 0
    &&& (match get(e.edges, n.id) {
        Some(b) => b.len() == 0 || v[0].node != b[0],
        None => true,
    })
}

/// The ids, among the first `n` nodes, of those that an import from `from` on concerns.
pub open spec fn concerned(e: EngineModel, from: nat, n: nat) -> Seq<Seq<char>>
    decreases n,
{
    if n == 0 {
        Seq::empty()
    } else {
        let v = concerned(e, from, (n - 1) as nat);
        let node = e.nodes[n - 1].1;
        if was_missing(e, node, from) || choice_changed(e, node) {
            v.push(node.id)
        } else {
            v
        }
    }
}

/// The nodes that an import from `from` on affects: the new ones, those that waited for them
/// or would now choose another base, and what depends on those.
pub open spec fn affected_by(e: EngineModel, from: nat) -> Set<Seq<char>> {
    let fresh = ids_from(e, from);
    dependents(e.edges, (fresh + concerned(e, from, from)).to_set(), fresh.to_set())
}

/// What is read of a file: the tables that it fills, and why it cannot be read.
pub open spec fn taken_in(
    e: EngineModel,
    id: Seq<char>,
    filename: Seq<char>,
    relpath: Seq<char>,
    data: Seq<u8>,
) -> (EngineModel, Option<Seq<char>>) {
    match kind_of(filename, data) {
        SourceKind::Pack => match pack_file(data) {
            Ok(f) => {
                let e1 = match f.scan_error {
                    Some(m) => noted(e, None, Some(id), "pack-scan"@, m, None),
                    None => e,
                };
                let e2 = if !f.checksum_ok {
                    noted(
                        e1,
                        None,
                        Some(id),
                        "pack-checksum"@,
                        "pack trailer "@ + hex(f.trailer_sha) + " != computed "@ + hex(f.computed_sha),
                        Some((data.len() - 20) as u64),
                    )
                } else {
                    e1
                };
                let e3 = with_pack_nodes(e2, id, filename, f.entries, f.entries.len());
                (EngineModel { packs: put(e3.packs, id, f), ..e3 }, None)
            },
            Err(m) => (noted(e, None, Some(id), "pack-parse"@, m, None), Some(m)),
        },
        SourceKind::Idx => match idx_file(data) {
            Ok(f) => {
                let e1 = if !f.idx_checksum_ok {
                    noted(
                        e,
                        None,
                        Some(id),
                        "idx-checksum"@,
                        "idx trailer "@ + hex(f.idx_checksum) + " != computed "@ + hex(f.computed_idx_sha),
                        None,
                    )
                } else {
                    e
                };
                (EngineModel { idxs: put(e1.idxs, id, f), ..e1 }, None)
            },
            Err(m) => (noted(e, None, Some(id), "idx-parse"@, m, None), Some(m)),
        },
        _ => {
            let l = loose_file(data, path_id(relpath));
            let e1 = with_loose_node(e, id, filename, l);
            (EngineModel { looses: put(e1.looses, id, l), ..e1 }, None)
        },
    }
}

/// The engine with a file imported, and the id of the source. Bytes that were imported before
/// give the id of the earlier source and change nothing.
pub open spec fn imported(e: EngineModel, filename: Seq<char>, relpath: Seq<char>, data: Seq<u8>) -> (EngineModel, Seq<char>) {
    let sha = hex(sha256_of(data));
    match same_source(e.sources, sha, filename, false) {
        Some(id) => (e, id),
        None => match same_source(e.sources, sha, filename, true) {
            Some(id) => (e, id),
            None => {
                let seq = capped(e.seq + 1);
                let id = "src"@ + dec_padded(seq as nat, 3);
                let t = taken_in(EngineModel { seq, ..e }, id, filename, relpath, data);
                let ready = claims_rebuilt(reconciled(t.0));
                let done = resolved_all(
                    ready,
                    if e.nodes.len() > 0 {
                        Some(affected_by(ready, e.nodes.len()))
                    } else {
                        None
                    },
                );
                (
                    EngineModel {
                        sources: done.sources.push(
                            SourceModel {
                                id,
                                filename,
                                size: data.len(),
                                sha256: sha,
                                kind: kind_of(filename, data),
                                import_seq: seq,
                                parse_error: t.1,
                            },
                        ),
                        ..done
                    },
                    id,
                )
            },
        },
    }
}

impl Engine {
    fn find_source(&self, sha: &str, filename: &str, any: bool) -> (r: Option<String>)
        ensures
            text_opt(r) == same_source(self@.sources, sha@, filename@, any),
    {
        let ghost v = self@.sources;
        let mut i: usize = 0;
        assert(v.skip(0) =~= v);
        while i < self.sources.len()
            invariant
                i <= v.len(),
                v == source_models(self.sources@),
                same_source(v, sha@, filename@, any) == same_source(v.skip(i as int), sha@, filename@, any),
            decreases v.len() - i,
        {
            let s = &self.sources[i];
            assert(v.skip(i as int)[0] == s@);
            if same_text(s.sha256.as_str(), sha) && (any || same_text(s.filename.as_str(), filename)) {
                return Some(s.id.clone());
            }
            assert(v.skip(i as int).skip(1) =~= v.skip(i + 1));
            i += 1;
        }
        None
    }

    /// The file name of a source; its id when it is not listed.
    pub fn source_filename(&self, id: &str) -> (r: String)
        ensures
            r@ == source_name(self@.sources, id@),
    {
        let ghost v = self@.sources;
        let mut i: usize = 0;
        assert(v.skip(0) =~= v);
        while i < self.sources.len()
            invariant
                i <= v.len(),
                v == source_models(self.sources@),
                source_name(v, id@) == source_name(v.skip(i as int), id@),
            decreases v.len() - i,
        {
            let s = &self.sources[i];
            assert(v.skip(i as int)[0] == s@);
            if same_text(s.id.as_str(), id) {
                return s.filename.clone();
            }
            assert(v.skip(i as int).skip(1) =~= v.skip(i + 1));
            i += 1;
        }
        id.to_owned()
    }

    fn build_pack_nodes(&mut self, source: &str, filename: &str, entries: &Vec<PackEntry>)
        ensures
            final(self)@ == with_pack_nodes(
                old(self)@,
                source@,
                filename@,
                models(entries@),
                entries@.len(),
            ),
    {
        let ghost e = self@;
        let ghost v = models(entries@);
        let mut i: usize = 0;
        while i < entries.len()
            invariant
                i <= entries@.len(),
                v == models(entries@),
                self@ == with_pack_nodes(e, source@, filename@, v, i as nat),
            decreases entries@.len() - i,
        {
            let x = &entries[i];
            assert(v[i as int] == x@);
            let id = pack_node_name(source, x.offset);
            let mut state = NodeState::Unprocessed;
            if let Err(f) = &x.inflated {
                let (kind, code) = match f {
                    StreamError::Zlib(_) => (FailKind::BadInflate, "bad-inflate"),
                    StreamError::SizeMismatch { .. } => (FailKind::SizeMismatch, "size-mismatch"),
                    StreamError::SizeSpoof { .. } => (FailKind::SizeSpoof, "size-spoof"),
                };
                self.add_evidence(
                    Some(id.clone()),
                    Some(source.to_owned()),
                    code,
                    f.message(),
                    Some(x.data_offset),
                );
                let mut chain: Vec<String> = Vec::new();
                push_part(&mut chain, id.clone());
                assert(texts(chain@) =~= seq![id@]);
                state = NodeState::Failed { kind, message: f.message(), blocker_chain: chain };
            }
            let node = Node {
                id: id.clone(),
                source_id: source.to_owned(),
                source_name: filename.to_owned(),
                node_kind: "pack".to_owned(),
                object_type: x.etype.label().to_owned(),
                offset: Some(x.offset),
                data_offset: Some(x.data_offset),
                end_offset: Some(x.end_offset),
                declared_size: x.declared_size,
                idx_oid: None,
                state,
                crc32: x.crc32,
                crc_ok: None,
                ofs_distance: x.ofs_distance,
                ofs_base_offset: match x.ofs_distance {
                    Some(d) => if d <= x.offset {
                        Some(x.offset - d)
                    } else {
                        None
                    },
                    None => None,
                },
                ref_base_oid: match &x.base_oid {
                    Some(b) => Some(hex_encode(b.as_slice())),
                    None => None,
                },
            };
            assert(node.deep_view() == pack_node(source@, filename@, x@));
            self.nodes.insert(id, node);
            i += 1;
        }
    }

    fn build_loose_node(&mut self, source: &str, filename: &str, l: &ParsedLoose)
        ensures
            final(self)@ == with_loose_node(old(self)@, source@, filename@, l.deep_view()),
    {
        let mut id = source.to_owned();
        id.append(":loose");
        let mut state = NodeState::Unprocessed;
        if let Err(m) = &l.content {
            self.add_evidence(
                Some(id.clone()),
                Some(source.to_owned()),
                "bad-loose",
                m.clone(),
                None,
            );
            let mut chain: Vec<String> = Vec::new();
            push_part(&mut chain, id.clone());
            assert(texts(chain@) =~= seq![id@]);
            state = NodeState::Failed {
                kind: FailKind::BadLoose,
                message: m.clone(),
                blocker_chain: chain,
            };
        }
        let node = Node {
            id: id.clone(),
            source_id: source.to_owned(),
            source_name: filename.to_owned(),
            node_kind: "loose".to_owned(),
            object_type: l.kind.name().to_owned(),
            offset: Some(0),
            data_offset: Some(0),
            end_offset: match l.consumed {
                Some(c) => Some(c as u64),
                None => None,
            },
            declared_size: l.declared_size,
            idx_oid: match &l.path_oid {
                Some(b) => Some(hex_encode(b.as_slice())),
                None => None,
            },
            state,
            crc32: None,
            crc_ok: None,
            ofs_distance: None,
            ofs_base_offset: None,
            ref_base_oid: None,
        };
        assert(node.deep_view() == loose_node(source@, filename@, l.deep_view()));
        self.nodes.insert(id, node);
    }

    fn pair_pack(&self, idx_id: &str, x: &ParsedIdx) -> (r: Option<String>)
        ensures
            text_opt(r) == paired(self@, idx_id@, x.deep_view()),
            r matches Some(p) ==> has_key(self@.packs, p@),
    {
        let ghost v = self@.packs;
        let mut i: usize = 0;
        assert(v.skip(0) =~= v);
        while i < self.packs.len()
            invariant
                i <= v.len(),
                v == self@.packs,
                pack_by_sha(v, x.pack_checksum@) == pack_by_sha(v.skip(i as int), x.pack_checksum@),
            decreases v.len() - i,
        {
            assert(v.skip(i as int)[0] == v[i as int]);
            if same_bytes(
                self.packs.value_at(i).computed_sha.as_slice(),
                x.pack_checksum.as_slice(),
            ) {
                proof {
                    lemma_row_key(v, i as int);
                }
                return Some(self.packs.key_at(i).clone());
            }
            assert(v.skip(i as int).skip(1) =~= v.skip(i + 1));
            i += 1;
        }
        let name = self.source_filename(idx_id);
        let want = stem_of(name.as_str(), ".idx");
        let mut j: usize = 0;
        while j < self.packs.len()
            invariant
                j <= v.len(),
                v == self@.packs,
                pack_by_sha(v, x.pack_checksum@) is None,
                want@ == stem(source_name(self@.sources, idx_id@), ".idx"@),
                pack_by_stem(self@.sources, v, want@) == pack_by_stem(
                    self@.sources,
                    v.skip(j as int),
                    want@,
                ),
            decreases v.len() - j,
        {
            assert(v.skip(j as int)[0] == v[j as int]);
            let other = self.source_filename(self.packs.key_at(j).as_str());
            let s = stem_of(other.as_str(), ".pack");
            if same_text(s.as_str(), want.as_str()) {
                proof {
                    lemma_row_key(v, j as int);
                }
                return Some(self.packs.key_at(j).clone());
            }
            assert(v.skip(j as int).skip(1) =~= v.skip(j + 1));
            j += 1;
        }
        None
    }

    fn claim_row(&mut self, idx_id: &str, pack_id: &str, r: &IdxEntry)
        ensures
            final(self)@ == row_claimed(
                old(self)@,
                idx_id@,
                pack_id@,
                ClaimRow { oid: r.oid@, offset: r.offset, crc32: r.crc32 },
            ),
    {
        let id = pack_node_name(pack_id, r.offset);
        let oid_hex = hex_encode(r.oid.as_slice());
        let (mut n, have, offset) = match self.nodes.get(id.as_str()) {
            Some(n) => (n.with_state(n.state.copy()), n.crc32, n.offset),
            None => {
                let mut m = "index entry ".to_owned();
                m.append(oid_hex.as_str());
                m.append(" points at offset ");
                push_dec(&mut m, r.offset);
                m.append(" which has no pack object");
                self.add_evidence(None, Some(idx_id.to_owned()), "idx-offset", m, Some(r.offset));
                return;
            },
        };
        n.idx_oid = Some(oid_hex.clone());
        if let (Some(h), Some(w)) = (have, r.crc32) {
            n.crc_ok = Some(h == w);
        }
        self.nodes.insert(id.clone(), n);
        if let (Some(h), Some(w)) = (have, r.crc32) {
            if h != w {
                let mut m = "compressed data CRC ".to_owned();
                push_hex32(&mut m, h);
                m.append(" != index CRC ");
                push_hex32(&mut m, w);
                m.append(" for ");
                m.append(oid_hex.as_str());
                self.add_evidence(
                    Some(id.clone()),
                    Some(idx_id.to_owned()),
                    "bad-crc",
                    m,
                    offset,
                );
            }
        }
        if !self.claimed.contains(id.as_str()) {
            self.claimed.insert(id, Claim { origin: "index".to_owned(), oid: r.oid });
        }
    }

    /// Matches index number `k` with its pack.
    fn match_idx(&mut self, k: usize)
        requires
            k < old(self)@.idxs.len(),
        ensures
            final(self)@ == idx_matched(
                old(self)@,
                old(self)@.idxs[k as int].0,
                old(self)@.idxs[k as int].1,
            ),
            final(self)@.idxs == old(self)@.idxs,
    {
        let ghost e = self@;
        let idx_id = self.idxs.key_at(k).clone();
        let x = self.idxs.value_at(k);
        let listed: u32 = x.num_entries;
        let checksum: [u8; 20] = x.pack_checksum;
        let rows = x.entries.clone();
        let ghost want = x.deep_view();
        let pack_id = match self.pair_pack(idx_id.as_str(), x) {
            Some(p) => p,
            None => {
                let mut m = "index advertises pack ".to_owned();
                m.append(hex_encode(checksum.as_slice()).as_str());
                m.append(" but no imported pack matches it");
                self.add_evidence(None, Some(idx_id), "idx-unpaired", m, None);
                return;
            },
        };
        let (declared, sha) = match self.packs.get(pack_id.as_str()) {
            Some(p) => (p.num_entries, p.computed_sha),
            None => (0, [0; 20]),
        };
        if declared != listed {
            let mut m = "index lists ".to_owned();
            push_dec(&mut m, listed as u64);
            m.append(" objects but pack header declares ");
            push_dec(&mut m, declared as u64);
            self.add_evidence(None, Some(idx_id.clone()), "idx-count", m, None);
        }
        if !same_bytes(sha.as_slice(), checksum.as_slice()) {
            let mut m = "index ".to_owned();
            m.append(self.source_filename(idx_id.as_str()).as_str());
            m.append(" does not match pack ");
            m.append(self.source_filename(pack_id.as_str()).as_str());
            m.append(" (checksum mismatch); treating as not paired");
            self.add_evidence(None, Some(idx_id), "idx-pack-mismatch", m, None);
            return;
        }
        let ghost e1 = self@;
        let ghost all = want.entries;
        let mut i: usize = 0;
        while i < rows.len()
            invariant
                i <= rows@.len(),
                rows@.len() == all.len(),
                forall|j: int|
                    0 <= j < rows@.len() ==> (#[trigger] all[j]) == (ClaimRow {
                        oid: rows@[j].oid@,
                        offset: rows@[j].offset,
                        crc32: rows@[j].crc32,
                    }),
                self@ == rows_claimed(e1, idx_id@, pack_id@, all, i as nat),
                self@.idxs == e1.idxs,
            decreases rows@.len() - i,
        {
            assert(all[i as int].oid == rows@[i as int].oid@);
            self.claim_row(idx_id.as_str(), pack_id.as_str(), &rows[i]);
            i += 1;
        }
    }

    /// Matches every index with its pack: by checksum, else by file name.
    pub(crate) fn reconcile_idxs(&mut self)
        ensures
            final(self)@ == reconciled(old(self)@),
    {
        let ghost e = self@;
        let mut k: usize = 0;
        while k < self.idxs.len()
            invariant
                k <= e.idxs.len(),
                self@.idxs == e.idxs,
                self@ == idxs_matched(e, k as nat),
            decreases e.idxs.len() - k,
        {
            self.match_idx(k);
            k += 1;
        }
    }

    fn is_newly_claimed(&self, from: usize, oid: &[u8; 20]) -> (r: bool)
        ensures
            r == newly_claimed(self@, from as nat, oid@),
    {
        let mut i: usize = from;
        while i < self.nodes.len()
            invariant
                from <= i,
                i <= self@.nodes.len() || i == from,
                forall|j: int|
                    from <= j < i ==> !(get(self@.claimed, (#[trigger] self@.nodes[j]).1.id) is Some && (get(
                        self@.claimed,
                        self@.nodes[j].1.id,
                    )->0).oid == oid@),
            decreases self@.nodes.len() - i,
        {
            let n = self.nodes.value_at(i);
            assert(n.deep_view() == self@.nodes[i as int].1);
            if let Some(c) = self.claimed.get(n.id.as_str()) {
                if same_bytes(c.oid.as_slice(), oid.as_slice()) {
                    return true;
                }
            }
            i += 1;
        }
        false
    }

    fn waited(&self, n: &Node, from: usize) -> (r: bool)
        ensures
            r == was_missing(self@, n.deep_view(), from as nat),
    {
        let waits: bool = match &n.state {
            NodeState::Paused { .. } => true,
            NodeState::Failed { kind, .. } => *kind == FailKind::MissingBase,
            _ => false,
        };
        if !waits {
            return false;
        }
        match self.missing_edges.get(n.id.as_str()) {
            Some(h) => is_id(h.as_str()) && self.is_newly_claimed(from, &read_hex_id(h.as_str())),
            None => false,
        }
    }

    fn chooses_anew(&self, n: &Node) -> (r: bool)
        ensures
            r == choice_changed(self@, n.deep_view()),
    {
        if !same_text(n.object_type.as_str(), "ref-delta") {
            return false;
        }
        let want = match &n.ref_base_oid {
            Some(h) => h.clone(),
            None => "".to_owned(),
        };
        if self.active_pin(want.as_str()).is_some() || !is_id(want.as_str()) {
            return false;
        }
        let v = self.gather_candidates(&read_hex_id(want.as_str()));
        if v.len() == 0 {
            return false;
        }
        assert(offer_models(v@)[0] == v@[0]@);
        match self.edges.get(n.id.as_str()) {
            Some(b) => if b.list.len() == 0 {
                true
            } else {
                assert(b.deep_view()[0] == b.list@[0]@);
                !same_text(v[0].node.as_str(), b.list[0].as_str())
            },
            None => true,
        }
    }

    /// The nodes that an import affects; the nodes from `from` on are new.
    fn newly_affected(&self, from: usize) -> (r: Vec<String>)
        requires
            from <= self@.nodes.len(),
        ensures
            texts(r@).to_set() == affected_by(self@, from as nat),
    {
        let ghost all = ids_from(self@, from as nat);
        let mut fresh: Vec<String> = Vec::new();
        let mut i: usize = from;
        assert(texts(fresh@) =~= all.take(0));
        while i < self.nodes.len()
            invariant
                from <= i <= self@.nodes.len(),
                all == ids_from(self@, from as nat),
                texts(fresh@) == all.take(i - from),
            decreases self@.nodes.len() - i,
        {
            let n = self.nodes.value_at(i);
            assert(n.deep_view() == self@.nodes[i as int].1);
            push_part(&mut fresh, n.id.clone());
            i += 1;
            assert(texts(fresh@) =~= all.take(i - from));
        }
        assert(texts(fresh@) =~= all);
        let mut seeds: Vec<String> = Vec::new();
        let mut j: usize = 0;
        while j < fresh.len()
            invariant
                j <= fresh@.len(),
                texts(seeds@) == texts(fresh@).take(j as int),
            decreases fresh@.len() - j,
        {
            push_part(&mut seeds, fresh[j].clone());
            j += 1;
            assert(texts(seeds@) =~= texts(fresh@).take(j as int));
        }
        assert(texts(fresh@).take(j as int) =~= all);
        let mut k: usize = 0;
        assert(all + concerned(self@, from as nat, 0) =~= all);
        while k < from
            invariant
                k <= from <= self@.nodes.len(),
                texts(seeds@) == all + concerned(self@, from as nat, k as nat),
            decreases from - k,
        {
            let n = self.nodes.value_at(k);
            assert(n.deep_view() == self@.nodes[k as int].1);
            if self.waited(n, from) || self.chooses_anew(n) {
                push_part(&mut seeds, n.id.clone());
            }
            k += 1;
            assert(texts(seeds@) =~= all + concerned(self@, from as nat, k as nat));
        }
        close_over(&self.edges, &seeds, &fresh)
    }

    /// Reads a file into the tables. Returns why it cannot be read.
    fn take_in(&mut self, id: &str, filename: &str, relpath: &str, data: &[u8]) -> (r: Option<String>)
        ensures
            (final(self)@, text_opt(r)) == taken_in(old(self)@, id@, filename@, relpath@, data@),
    {
        match detect_kind(filename, data) {
            SourceKind::Pack => match read_pack_file(data) {
                Ok(p) => {
                    assert(data@.len() == data.len());
                    if let Some(m) = &p.scan_error {
                        self.add_evidence(None, Some(id.to_owned()), "pack-scan", m.clone(), None);
                    }
                    if !p.checksum_ok {
                        let mut m = "pack trailer ".to_owned();
                        m.append(hex_encode(p.trailer_sha.as_slice()).as_str());
                        m.append(" != computed ");
                        m.append(hex_encode(p.computed_sha.as_slice()).as_str());
                        let at: u64 = (data.len() - 20) as u64;
                        self.add_evidence(None, Some(id.to_owned()), "pack-checksum", m, Some(at));
                    }
                    self.build_pack_nodes(id, filename, &p.entries);
                    self.packs.insert(id.to_owned(), p);
                    None
                },
                Err(m) => {
                    self.add_evidence(None, Some(id.to_owned()), "pack-parse", m.clone(), None);
                    Some(m)
                },
            },
            SourceKind::Idx => match read_idx_file(data) {
                Ok(x) => {
                    if !x.idx_checksum_ok {
                        let mut m = "idx trailer ".to_owned();
                        m.append(hex_encode(x.idx_checksum.as_slice()).as_str());
                        m.append(" != computed ");
                        m.append(hex_encode(x.computed_idx_sha.as_slice()).as_str());
                        self.add_evidence(None, Some(id.to_owned()), "idx-checksum", m, None);
                    }
                    self.idxs.insert(id.to_owned(), x);
                    None
                },
                Err(m) => {
                    self.add_evidence(None, Some(id.to_owned()), "idx-parse", m.clone(), None);
                    Some(m)
                },
            },
            _ => {
                let l = read_loose_file(data, oid_from_relpath(relpath));
                self.build_loose_node(id, filename, &l);
                self.looses.insert(id.to_owned(), l);
                None
            },
        }
    }

    /// Imports one file. `relpath` may embed a "xx/yyyy..." loose object path. Returns the
    /// source id.
    pub fn import_file(&mut self, filename: &str, relpath: &str, data: &[u8]) -> (id: String)
        ensures
            (final(self)@, id@) == imported(old(self)@, filename@, relpath@, data@),
    {
        let digest = sha256(data);
        let sha = hex_encode(digest.as_slice());
        if let Some(id) = self.find_source(sha.as_str(), filename, false) {
            return id;
        }
        if let Some(id) = self.find_source(sha.as_str(), filename, true) {
            return id;
        }
        let known: usize = self.nodes.len();
        self.seq = cap_sum(self.seq, 1);
        let mut id = "src".to_owned();
        let seq: u64 = self.seq;
        push_dec_padded(&mut id, seq, 3);
        let ghost e = self@;
        let parse_error = self.take_in(id.as_str(), filename, relpath, data);
        self.reconcile_idxs();
        self.rebuild_claims();
        proof {
            lemma_nodes_stay(e, id@, filename@, relpath@, data@);
        }
        if known > 0 {
            let affected = self.newly_affected(known);
            self.resolve_all(Some(&affected));
        } else {
            self.resolve_all(None);
        }
        let ghost before = self@.sources;
        let s = SourceFile {
            id: id.clone(),
            filename: filename.to_owned(),
            size: data.len(),
            sha256: sha,
            kind: detect_kind(filename, data),
            import_seq: seq,
            parse_error,
        };
        self.sources.push(s);
        assert(source_models(self.sources@) =~= before.push(s@));
        id
    }
}

fn is_id(s: &str) -> (r: bool)
    ensures
        r == spells_id(s@),
{
    match hex_decode(s) {
        Some(v) => v.len() == 20,
        None => false,
    }
}

proof fn lemma_pack_nodes_grow(e: EngineModel, source: Seq<char>, filename: Seq<char>, v: Seq<EntryModel>, n: nat)
    ensures
        with_pack_nodes(e, source, filename, v, n).nodes.len() >= e.nodes.len(),
    decreases n,
{
    if n > 0 {
        lemma_pack_nodes_grow(e, source, filename, v, (n - 1) as nat);
    }
}

proof fn lemma_rows_grow(e: EngineModel, idx_id: Seq<char>, pack_id: Seq<char>, v: Seq<ClaimRow>, n: nat)
    ensures
        rows_claimed(e, idx_id, pack_id, v, n).nodes.len() >= e.nodes.len(),
    decreases n,
{
    if n > 0 {
        lemma_rows_grow(e, idx_id, pack_id, v, (n - 1) as nat);
    }
}

proof fn lemma_idxs_grow(e: EngineModel, n: nat)
    ensures
        idxs_matched(e, n).nodes.len() >= e.nodes.len(),
    decreases n,
{
    if n > 0 {
        lemma_idxs_grow(e, (n - 1) as nat);
        let w = idxs_matched(e, (n - 1) as nat);
        let x = e.idxs[n - 1].1;
        let idx_id = e.idxs[n - 1].0;
        if let Some(pack_id) = paired(w, idx_id, x) {
            let p = get(w.packs, pack_id)->0;
            let w1 = if p.num_entries != x.num_entries {
                noted(
                    w,
                    None,
                    Some(idx_id),
                    "idx-count"@,
                    "index lists "@ + dec(x.num_entries as nat) + " objects but pack header declares "@ + dec(
                        p.num_entries as nat,
                    ),
                    None,
                )
            } else {
                w
            };
            lemma_rows_grow(w1, idx_id, pack_id, x.entries, x.entries.len());
        }
    }
}

proof fn lemma_nodes_stay(e: EngineModel, id: Seq<char>, filename: Seq<char>, relpath: Seq<char>, data: Seq<u8>)
    ensures
        claims_rebuilt(reconciled(taken_in(e, id, filename, relpath, data).0)).nodes.len() >= e.nodes.len(),
{
    let t = taken_in(e, id, filename, relpath, data).0;
    assert(t.nodes.len() >= e.nodes.len()) by {
        if kind_of(filename, data) == SourceKind::Pack {
            if let Ok(f) = pack_file(data) {
                let e1 = match f.scan_error {
                    Some(m) => noted(e, None, Some(id), "pack-scan"@, m, None),
                    None => e,
                };
                let e2 = if !f.checksum_ok {
                    noted(
                        e1,
                        None,
                        Some(id),
                        "pack-checksum"@,
                        "pack trailer "@ + hex(f.trailer_sha) + " != computed "@ + hex(f.computed_sha),
                        Some((data.len() - 20) as u64),
                    )
                } else {
                    e1
                };
                lemma_pack_nodes_grow(e2, id, filename, f.entries, f.entries.len());
            }
        }
    }
    lemma_idxs_grow(t, t.idxs.len());
    claims_only_claim(reconciled(t));
}

/// A file is a pack when its name or its first bytes say so, an index when its name does, and a loose
/// object otherwise.
pub proof fn files_are_told_by_name_or_first_bytes(filename: Seq<char>, head: Seq<u8>)
    ensures
        kind_of(filename, head) == SourceKind::Pack <==> lower_ends_with(filename, ".pack"@) || (head.len() >= 4 && head[0]
            == 0x50 && head[1] == 0x41 && head[2] == 0x43 && head[3] == 0x4b),
        kind_of(filename, head) == SourceKind::Idx ==> lower_ends_with(filename, ".idx"@),
        kind_of(filename, head) == SourceKind::Loose ==> !lower_ends_with(filename, ".pack"@) && !lower_ends_with(
            filename,
            ".idx"@,
        ),
{
    let magic = seq![80u8, 65, 67, 75];
    assert(pack_magic() =~= magic);
    assert(magic[0] == 80 && magic[1] == 65 && magic[2] == 67 && magic[3] == 75);
    if head.len() >= 4 {
        let h = head.subrange(0, 4);
        assert(h[0] == head[0] && h[1] == head[1] && h[2] == head[2] && h[3] == head[3]);
        if head[0] == 0x50 && head[1] == 0x41 && head[2] == 0x43 && head[3] == 0x4b {
            assert(h =~= magic);
        }
    }
}

} // verus!
