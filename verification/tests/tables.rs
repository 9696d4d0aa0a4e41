//! Tables of candidates, entries, sources and views.
use packtrace::analysis;
use packtrace::attach;
use packtrace::candidates::{
    loose_node_key, pack_node_key, rebuild_candidates, IdxInfo, IdxRow, LooseRow, PackInfo, PackRow, Tables,
};
use packtrace::engine::candidate_rank_key;
use packtrace::engine::inspect::{self, EdgeRec, Limits, NodeRec, SourceRec};
use packtrace::entry::resolve::Budget;
use packtrace::entry::rows::{EntryRow, Rows, SourceRow};
use packtrace::fixtures;
use packtrace::git::writer::make_delta;
use packtrace::kernel::engine::rows::{Engine, Names};
use packtrace::model::assoc::{IdMap, TextMap};

fn blob_hex(content: &[u8]) -> String {
    hex::encode(fixtures::blob_oid(content))
}

fn pack_row(entry_id: i64, ordinal: i64, offset: i64, kind: &str, body: Option<&[u8]>) -> PackRow {
    PackRow {
        entry_id,
        source_id: 1,
        ordinal,
        offset,
        object_type: kind.to_string(),
        content_sha256: String::new(),
        body: body.map(|b| b.to_vec()),
        crc32: 7,
        parse_error: None,
        size_ok: true,
        adler_ok: true,
    }
}

fn tables(reversed: bool) -> Tables {
    let mut entries = vec![
        pack_row(1, 0, 12, "blob", Some(b"one")),
        pack_row(2, 1, 40, "blob", Some(b"two")),
        pack_row(3, 2, 70, "ofs-delta", None),
    ];
    if reversed {
        entries.reverse();
    }
    let mut t = Tables {
        packs: vec![PackInfo { source_id: 1, trailer: "aa".to_string() }],
        indexes: vec![
            IdxInfo { source_id: 5, pack_checksum: "aa".to_string() },
            IdxInfo { source_id: 6, pack_checksum: "zz".to_string() },
        ],
        loose: vec![LooseRow {
            source_id: 9,
            computed_oid: blob_hex(b"one"),
            content_sha256: String::new(),
        }],
        entries,
        claims: vec![
            IdxRow { idx_source_id: 5, oid: blob_hex(b"one"), crc32: 7, offset: 12 },
            IdxRow { idx_source_id: 5, oid: "d1".to_string(), crc32: 8, offset: 70 },
            IdxRow { idx_source_id: 5, oid: "d2".to_string(), crc32: 8, offset: 99 },
            IdxRow { idx_source_id: 6, oid: "d3".to_string(), crc32: 8, offset: 12 },
        ],
    };
    if reversed {
        t.packs.reverse();
        t.indexes.reverse();
        t.claims.reverse();
    }
    t
}

#[test]
fn equal_packs_and_rival_indexes_are_told_apart_by_their_numbers() {
    let listed = |reversed: bool| {
        let mut t = tables(false);
        t.packs.push(PackInfo { source_id: 3, trailer: "aa".to_string() });
        t.indexes.push(IdxInfo { source_id: 4, pack_checksum: "aa".to_string() });
        t.claims.push(IdxRow { idx_source_id: 4, oid: "x".to_string(), crc32: 99, offset: 12 });
        if reversed {
            t.packs.reverse();
            t.indexes.reverse();
            t.claims.reverse();
        }
        let mut v: Vec<_> = rebuild_candidates(&t)
            .iter()
            .map(|c| (c.oid.clone(), c.kind, c.source_id, c.idx_source_id, c.crc_matches, c.idx_pack_mismatch))
            .collect();
        v.sort();
        v
    };
    assert_eq!(listed(false), listed(true));
    let one = blob_hex(b"one");
    assert!(listed(false).contains(&(one, "pack_base", 1, Some(4), Some(false), false)));
}

#[test]
fn every_provider_is_a_candidate() {
    let out = rebuild_candidates(&tables(false));
    let kinds: Vec<(&str, &str)> = out.iter().map(|c| (c.kind, c.oid.as_str())).collect();
    let one = blob_hex(b"one");
    let two = blob_hex(b"two");
    assert_eq!(kinds.len(), 6);
    assert_eq!(kinds[0].1, one.as_str());
    assert!(kinds.contains(&("pack_base", one.as_str())));
    assert!(kinds.contains(&("pack_base", two.as_str())));
    assert!(kinds.contains(&("pack_delta", "d1")));
    assert!(kinds.contains(&("idx_only", "d2")));
    assert!(kinds.contains(&("idx_only", "d3")));
    let first = out.iter().find(|c| c.kind == "pack_base" && c.oid == one).unwrap();
    assert_eq!((first.crc_matches, first.quality_rank, first.idx_source_id), (Some(true), 30, Some(5)));
    assert!(out.iter().find(|c| c.oid == "d3").unwrap().idx_pack_mismatch);
    assert_eq!((pack_node_key(1, 2), loose_node_key(9)), ("pack:1:2".to_string(), "loose:9".to_string()));
}

#[test]
fn the_order_of_rows_does_not_matter() {
    let key = |c: &packtrace::candidates::NewCandidate| {
        (c.oid.clone(), c.kind, c.source_id, c.offset, c.quality_rank, c.note.clone())
    };
    let mut a: Vec<_> = rebuild_candidates(&tables(false)).iter().map(key).collect();
    let mut b: Vec<_> = rebuild_candidates(&tables(true)).iter().map(key).collect();
    a.sort();
    b.sort();
    assert_eq!(a, b);
}

fn entry(kind: &str, offset: u64, size: usize, raw: Vec<u8>) -> EntryRow {
    EntryRow {
        source_id: 1,
        offset,
        obj_type: kind.to_string(),
        declared_size: size as u64,
        data_offset: offset,
        ofs_distance: None,
        ref_base: None,
        crc32: None,
        idx_crc32: None,
        raw,
    }
}

fn entries() -> Rows {
    let mut rows = Rows {
        entries: IdMap::new(),
        sources: IdMap::new(),
        resolutions: IdMap::new(),
        edges: IdMap::new(),
        pins: Vec::new(),
        partials: IdMap::new(),
        contents: IdMap::new(),
        evidence: Vec::new(),
        idx: Vec::new(),
    };
    rows.sources.insert(1, SourceRow { kind: "pack".to_string(), digest: "d".to_string() });
    let base = packtrace::formats::zlib_deflate(b"abcdefgh1");
    rows.entries.insert(1, entry("blob", 12, 9, base));
    let delta = make_delta(b"abcdefgh1", b"abcdefgh22");
    let n = delta.len();
    let mut child = entry("ofs_delta", 40, n, packtrace::formats::zlib_deflate(&delta));
    child.ofs_distance = Some(28);
    rows.entries.insert(2, child);
    rows
}

#[test]
fn an_entry_is_reconstructed_along_its_chain() {
    let budget = Budget { max_depth: 10, max_total_bytes: 1000, ratio_num: 1000, ratio_den: 1 };
    let mut rows = entries();
    let status = rows.resolve_entry(2, budget);
    let row = rows.resolutions.get(2).unwrap();
    assert_eq!(row.status, status);
    if let Some(content) = rows.contents.get(2) {
        assert_eq!((content.as_slice(), status), (b"abcdefgh22".as_slice(), "ok"));
        assert_eq!(row.oid.as_deref(), Some(blob_hex(b"abcdefgh22").as_str()));
    } else {
        panic!("{:?}", row);
    }
    assert!(rows.contents.get(1).is_none() || rows.contents.get(1).unwrap() == b"abcdefgh1");
}

#[test]
fn an_entry_without_its_base_is_blocked() {
    let budget = Budget { max_depth: 10, max_total_bytes: 1000, ratio_num: 1000, ratio_den: 1 };
    let mut rows = entries();
    let mut lost = entry("ref_delta", 90, 5, packtrace::formats::zlib_deflate(b"delta"));
    lost.ref_base = Some("ab".repeat(20));
    rows.entries.insert(3, lost);
    assert_eq!(rows.resolve_entry(3, budget), "blocked");
    assert!(rows.contents.get(3).is_none());
    assert_eq!(rows.pick_provider(&"ab".repeat(20)), -1);
}

#[test]
fn a_budget_saves_the_state_of_an_entry() {
    let small = Budget { max_depth: 10, max_total_bytes: 12, ratio_num: 1000, ratio_den: 1 };
    let mut rows = entries();
    assert_eq!(rows.resolve_entry(2, small), "paused");
    assert!(rows.contents.get(2).is_none());
    let large = Budget { max_depth: 10, max_total_bytes: 1000, ratio_num: 1000, ratio_den: 1 };
    assert_eq!(rows.resolve_entry(2, large), "ok");
    assert_eq!(rows.contents.get(2).unwrap(), b"abcdefgh22");
}

#[test]
fn attaching_again_changes_nothing() {
    let mut t = attach::Tables { sources: IdMap::new(), candidates: IdMap::new(), warnings: Vec::new() };
    t.sources.insert(1, attach::Source {
        kind: "pack".to_string(),
        pack_checksum: Some("aa".to_string()),
        idx_pack_checksum: String::new(),
        attached_pack_id: None,
        status: "ok".to_string(),
        note: String::new(),
    });
    t.sources.insert(2, attach::Source {
        kind: "index".to_string(),
        pack_checksum: None,
        idx_pack_checksum: "aa".to_string(),
        attached_pack_id: Some(1),
        status: "ok".to_string(),
        note: "kept".to_string(),
    });
    let files = attach::Files { indexes: Vec::new(), packs: Vec::new() };
    attach::attach_all(&mut t, &files);
    assert_eq!(t.sources.get(2).unwrap().attached_pack_id, Some(1));
    assert_eq!(t.sources.get(2).unwrap().note, "kept");
}

fn rec(oid: &str, source_id: i64) -> NodeRec {
    NodeRec {
        oid: oid.to_string(),
        kind: "blob".to_string(),
        final_kind: None,
        status: "resolved".to_string(),
        error_code: None,
        error_note: None,
        source_id,
        pack_id: None,
        pack_offset: None,
        zlib_start: None,
        entry_end: None,
        declared_size: None,
        base_offset: None,
        base_oid: None,
        resolve_depth: None,
        idx_crc: None,
        computed_crc: None,
        crc_ok: None,
        pinned: 0,
    }
}

fn view_tables() -> inspect::Tables {
    let mut t = inspect::Tables {
        sources: IdMap::new(),
        packs: IdMap::new(),
        nodes: IdMap::new(),
        objects: Vec::new(),
        steps: Vec::new(),
        evidence: Vec::new(),
        edges: Vec::new(),
        index_files: IdMap::new(),
        limits: Limits { max_depth: 5, total_bytes: 100, single_ratio: 2, used_total_bytes: 7 },
    };
    for (id, name) in [(1, "a"), (2, "b")] {
        t.sources.insert(id, SourceRec {
            filename: name.to_string(),
            kind: "loose".to_string(),
            size: 3,
            linked_oid: None,
            pack_id: None,
        });
    }
    t.nodes.insert(10, rec(&"ab".repeat(20), 1));
    t.nodes.insert(11, rec(&"cd".repeat(20), 2));
    t.edges.push(EdgeRec {
        from_node: 11,
        to_node: Some(10),
        to_oid: "ab".repeat(20),
        kind: "ref".to_string(),
    });
    t
}

#[test]
fn a_snapshot_counts_and_shortens() {
    let t = view_tables();
    let s = t.snapshot();
    assert_eq!((s.nodes.len(), s.sources.len(), s.edges.len(), s.packs.len()), (2, 2, 1, 0));
    assert_eq!((s.counts.total, s.counts.resolved, s.counts.error), (2, 2, 0));
    assert_eq!((s.budget.single_bytes, s.budget.used_total_bytes), (2, 7));
    let v = t.build_node(10);
    assert_eq!((v.short_oid.as_str(), v.source_filename.as_str()), ("abababababab", "a"));
}

#[test]
fn a_source_in_use_is_not_deleted() {
    let mut t = view_tables();
    let check = t.delete_source_check(1);
    assert!(!check.can_delete);
    let relations: Vec<&str> = check.dependent_objects.iter().map(|d| d.relation.as_str()).collect();
    assert_eq!(relations, vec!["contained by source", "delta built on object from this source"]);
    let r = t.delete_source(1, false);
    assert_eq!((r.deleted_source, t.nodes.len()), (0, 2));
    let r = t.delete_source(1, true);
    assert_eq!((r.deleted_source, r.removed_nodes, t.nodes.len()), (1, 1, 1));
    assert_eq!((t.edges.len(), t.edges[0].from_node, t.edges[0].to_node), (1, 11, Some(10)));
    assert_eq!((t.index_files.len(), t.limits.max_depth, t.limits.used_total_bytes), (0, 5, 7));
}

#[test]
fn pins_are_set_and_removed() {
    let mut t = view_tables();
    let oid = "ab".repeat(20);
    assert_eq!(t.pin_candidate(10).pinned_node, 10);
    assert!(t.nodes.get(10).unwrap().pinned != 0);
    t.unpin_oid(&oid);
    assert_eq!(t.nodes.get(10).unwrap().pinned, 0);
    let mut s = analysis::Store {
        sources: IdMap::new(),
        resolutions: Vec::new(),
        steps: Vec::new(),
        loose: Vec::new(),
        pins: TextMap::new(),
        total_expanded_used: 0,
    };
    analysis::pin_candidate(&mut s, "trial", &oid, 4);
    assert_eq!(s.pins.get("trial").and_then(|b| b.get(&oid)).copied(), Some(4));
    analysis::unpin(&mut s, "trial", &oid);
    assert!(s.pins.get("trial").and_then(|b| b.get(&oid)).is_none());
}

#[test]
fn dependents_keep_a_source() {
    let mut s = analysis::Store {
        sources: IdMap::new(),
        resolutions: vec![
            analysis::ResolvedRow {
                oid: "base".to_string(),
                branch_id: 1,
                status: "resolved".to_string(),
                pack_source: Some(1),
            },
            analysis::ResolvedRow {
                oid: "child".to_string(),
                branch_id: 1,
                status: "resolved".to_string(),
                pack_source: Some(2),
            },
        ],
        steps: vec![analysis::StepBase {
            oid: "child".to_string(),
            branch_id: 1,
            base_oid: "base".to_string(),
        }],
        loose: Vec::new(),
        pins: TextMap::new(),
        total_expanded_used: 0,
    };
    s.sources.insert(1, "pack".to_string());
    s.sources.insert(2, "pack".to_string());
    assert!(!analysis::dependents_preview(&s, 1).is_empty());
    let e = analysis::delete_dependents(&mut s, 1).unwrap_err();
    assert!(e.contains("object(s) still depend on this source: "));
    assert_eq!(s.sources.len(), 2);
}

#[test]
fn rank_keys_order_candidates() {
    let a = candidate_rank_key("loose", false, None, 1, None);
    let b = candidate_rank_key("index", true, Some(false), 1, Some(12));
    assert_ne!(a, b);
    assert_eq!(a, candidate_rank_key("loose", false, None, 1, None));
}

#[test]
fn closures_stop_where_they_are_told() {
    let mut edges = TextMap::new();
    edges.insert("b".to_string(), Names { list: vec!["a".to_string()] });
    edges.insert("c".to_string(), Names { list: vec!["b".to_string()] });
    let all = packtrace::kernel::engine::candidates::close_over(&edges, &vec!["a".to_string()], &Vec::new());
    assert!(all.contains(&"b".to_string()) && all.contains(&"c".to_string()));
    let some = packtrace::kernel::engine::candidates::close_over(
        &edges,
        &vec!["a".to_string()],
        &vec!["b".to_string()],
    );
    assert!(some.contains(&"b".to_string()) && !some.contains(&"c".to_string()));
}

#[test]
fn an_empty_engine_holds_nothing() {
    let e = Engine::new();
    assert_eq!((e.nodes.len(), e.contents.len(), e.sources.len()), (0, 0, 0));
    assert_eq!(e.budget().charged_bytes, 0);
    assert!(e.gather_candidates(&[1; 20]).is_empty());
}
