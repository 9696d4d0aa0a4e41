//! Imports and reconstructions, from files to objects.
use packtrace::analyze::engine::Budget as BranchBudget;
use packtrace::analyze::graph::{build_graph, CandidateNode, FileRead, Graph};
use packtrace::analyze::report::analyze_branch;
use packtrace::analyzer;
use packtrace::app::{classify, infer_loose_oid, raw_name, AppState, Branch, EntryInfo, FileKind};
use packtrace::attach;
use packtrace::engine::import;
use packtrace::engine::importer::{CandidateRow, Catalog, IdxImage, LooseImage, PackEntry, PackImage};
use packtrace::engine::pairing::Parsed;
use packtrace::engine::rebuild::{App, Limits, Res, Runtime};
use packtrace::engine::resolve::{NodeInfo, World};
use packtrace::engine::sources::SourceDetail;
use packtrace::fixtures;
use packtrace::git::object::ObjType;
use packtrace::git::writer::{build_idx, build_pack, make_delta, BuildObject, BuiltPack, DeltaBase};
use packtrace::git::GitType;
use packtrace::kernel::engine::rows::{Budget, Engine, FailKind, NodeState, PauseKind};
use packtrace::model::assoc::{IdMap, TextMap};

fn two_objects() -> BuiltPack {
    let delta = make_delta(b"hello world", b"hello Rust");
    build_pack(&[
        BuildObject { kind: ObjType::Blob, data: b"hello world".to_vec(), delta_base: None },
        BuildObject { kind: ObjType::Blob, data: delta, delta_base: Some(DeltaBase::Ofs(0)) },
    ])
}

const BASE: &[u8] = b"abcdefgh1";
const DERIVED: &[u8] = b"abcdefgh22";

/// A pack of a blob and of a delta on it that is as long as what it makes.
fn even_pair() -> BuiltPack {
    let delta = make_delta(BASE, DERIVED);
    assert_eq!(delta.len(), DERIVED.len());
    build_pack(&[
        BuildObject { kind: ObjType::Blob, data: BASE.to_vec(), delta_base: None },
        BuildObject { kind: ObjType::Blob, data: delta, delta_base: Some(DeltaBase::Ofs(0)) },
    ])
}

fn blob_hex(content: &[u8]) -> String {
    hex::encode(fixtures::blob_oid(content))
}

/// The states of all nodes, by their offsets: the id that was reconstructed, or nothing.
fn found_ids(e: &Engine) -> Vec<(Option<u64>, Option<String>)> {
    let mut v = Vec::new();
    for i in 0..e.nodes.len() {
        let n = e.nodes.value_at(i);
        let id = match &n.state {
            NodeState::Resolved { oid, .. } => Some(oid.clone()),
            _ => None,
        };
        v.push((n.offset, id));
    }
    v.sort();
    v
}

#[test]
fn a_pack_is_imported_and_its_chain_resolved() {
    let built = even_pair();
    let mut e = Engine::new();
    e.import_file("a.pack", "a.pack", &built.bytes);
    assert_eq!(
        found_ids(&e),
        vec![
            (Some(built.offsets[0]), Some(blob_hex(BASE))),
            (Some(built.offsets[1]), Some(blob_hex(DERIVED))),
        ]
    );
    assert_eq!(e.sources.len(), 1);
}

#[test]
fn importing_a_file_twice_changes_nothing() {
    let built = even_pair();
    let mut e = Engine::new();
    let first = e.import_file("a.pack", "a.pack", &built.bytes);
    let again = e.import_file("a.pack", "a.pack", &built.bytes);
    assert_eq!(first, again);
    assert_eq!((e.sources.len(), e.nodes.len()), (1, 2));
}

#[test]
fn the_order_of_pack_and_loose_base_does_not_matter() {
    let id = fixtures::blob_oid(BASE);
    let (pack, _) = fixtures::build_pack(&[fixtures::ref_delta_entry(BASE, DERIVED, id)]);
    let loose = fixtures::build_loose("blob", BASE);
    let hex = hex::encode(id);
    let path = format!("{}/{}", &hex[..2], &hex[2..]);
    let mut a = Engine::new();
    a.import_file("thin.pack", "thin.pack", &pack);
    let waiting = a.nodes.value_at(0);
    assert!(matches!(waiting.state, NodeState::Failed { kind: FailKind::MissingBase, .. }));
    a.import_file("base", &path, &loose);
    let mut b = Engine::new();
    b.import_file("base", &path, &loose);
    b.import_file("thin.pack", "thin.pack", &pack);
    assert_eq!(found_ids(&a), found_ids(&b));
    assert!(found_ids(&a).contains(&(Some(12), Some(blob_hex(DERIVED)))));
}

#[test]
fn a_total_budget_pauses_and_resumes() {
    let built = even_pair();
    let mut e = Engine::new();
    e.set_budget(Budget { max_depth: 32, total_bytes: 5, single_cap: 1000, single_percent: 90 });
    e.import_file("a.pack", "a.pack", &built.bytes);
    assert!(found_ids(&e).iter().all(|x| x.1.is_none()));
    let first = e.nodes.value_at(0);
    assert!(matches!(first.state, NodeState::Paused { kind: PauseKind::TotalBytes, .. }));
    e.set_budget(Budget { max_depth: 32, total_bytes: 1000, single_cap: 1000, single_percent: 90 });
    e.resume();
    assert!(found_ids(&e).iter().all(|x| x.1.is_some()));
}

#[test]
fn a_depth_budget_of_nothing_pauses_everything() {
    let built = even_pair();
    let mut e = Engine::new();
    e.set_budget(Budget { max_depth: 0, total_bytes: 1000, single_cap: 1000, single_percent: 90 });
    e.import_file("a.pack", "a.pack", &built.bytes);
    for i in 0..e.nodes.len() {
        assert!(matches!(
            e.nodes.value_at(i).state,
            NodeState::Paused { kind: PauseKind::Depth, .. }
        ));
    }
}

/// An index of a pack that stores the checksums of the compressed bytes.
fn index_of_streams(built: &BuiltPack) -> Vec<u8> {
    let p = packtrace::kernel::pack::parse_pack(&built.bytes).unwrap();
    let crcs = p.entries.iter().map(|e| e.crc32.unwrap()).collect();
    build_idx(&BuiltPack {
        bytes: built.bytes.clone(),
        offsets: built.offsets.clone(),
        oids: vec![fixtures::blob_oid(BASE), fixtures::blob_oid(DERIVED)],
        crcs,
    })
}

#[test]
fn an_index_vouches_for_its_entries() {
    let built = even_pair();
    let mut e = Engine::new();
    e.import_file("a.pack", "a.pack", &built.bytes);
    e.import_file("a.idx", "a.idx", &index_of_streams(&built));
    for i in 0..e.nodes.len() {
        assert_eq!(e.nodes.value_at(i).crc_ok, Some(true));
    }
    assert!(found_ids(&e).iter().all(|x| x.1.is_some()));
    let mut other = Engine::new();
    other.import_file("a.idx", "a.idx", &index_of_streams(&built));
    other.import_file("a.pack", "a.pack", &built.bytes);
    assert_eq!(found_ids(&e), found_ids(&other));
}

#[test]
fn an_index_with_other_checksums_is_evidence() {
    let built = even_pair();
    let mut e = Engine::new();
    e.import_file("a.pack", "a.pack", &built.bytes);
    e.import_file("a.idx", "a.idx", &build_idx(&built));
    let n = e.nodes.value_at(0);
    assert_eq!(n.crc_ok, Some(false));
    assert!(e.evidence.iter().any(|x| x.code == "bad-crc"));
}

#[test]
fn a_source_with_dependents_is_only_deleted_by_force() {
    let id = fixtures::blob_oid(BASE);
    let (pack, _) = fixtures::build_pack(&[fixtures::ref_delta_entry(BASE, DERIVED, id)]);
    let loose = fixtures::build_loose("blob", BASE);
    let mut e = Engine::new();
    let base = e.import_file("base", "base", &loose);
    e.import_file("thin.pack", "thin.pack", &pack);
    assert_eq!(e.dependents_of_source(&base).len(), 1);
    assert!(e.delete_source(&base, false).is_err());
    assert!(e.delete_source(&base, true).is_ok());
    assert_eq!(e.sources.len(), 1);
    assert!(found_ids(&e).iter().all(|x| x.1.is_none()));
}

#[test]
fn only_resolved_objects_hold_a_source() {
    let id = fixtures::blob_oid(BASE);
    let mut broken = fixtures::ref_delta_entry(BASE, DERIVED, id);
    broken.data[0] = broken.data[0] ^ 1;
    let (pack, _) = fixtures::build_pack(&[broken]);
    let loose = fixtures::build_loose("blob", BASE);
    let mut e = Engine::new();
    let base = e.import_file("base", "base", &loose);
    e.import_file("thin.pack", "thin.pack", &pack);
    assert!(matches!(e.nodes.value_at(1).state, NodeState::Failed { .. }));
    assert!(e.dependents_of_source(&base).is_empty());
    assert!(e.delete_source(&base, false).is_ok());
}

#[test]
fn a_delta_of_another_length_than_its_result_is_refused() {
    let mut e = Engine::new();
    e.import_file("a.pack", "a.pack", &two_objects().bytes);
    let n = e.nodes.value_at(1);
    assert!(matches!(n.state, NodeState::Failed { kind: FailKind::SizeMismatch, .. }));
}

#[test]
fn branches_hold_pins() {
    let mut e = Engine::new();
    let mut pins = TextMap::new();
    pins.insert("ab".to_string(), "node".to_string());
    e.save_branch("trial", pins);
    assert!(e.set_branch(Some("other".to_string())).is_err());
    assert!(e.set_branch(Some("trial".to_string())).is_ok());
    assert_eq!(e.active_branch(), Some("trial"));
    assert_eq!(e.active_pin("ab"), Some("node".to_string()));
    assert!(e.set_branch(None).is_ok());
    assert_eq!(e.active_pin("ab"), None);
}

fn candidate(kind: &str, size: usize) -> CandidateRow {
    CandidateRow {
        source_id: 1,
        pack_offset: None,
        declared_oid_hex: None,
        computed_oid_hex: None,
        obj_type: kind.to_string(),
        claimed_size: size as i64,
        inflated_size: size as i64,
        compressed_len: 0,
        header_len: 0,
        entry_crc32: None,
        idx_crc32: None,
        crc_ok: None,
        ofs_base_offset: None,
        ref_base_oid_hex: None,
        parse_status: "ok".to_string(),
        parse_detail: String::new(),
    }
}

fn bench() -> App {
    let mut app = App {
        catalog: Catalog {
            sources: IdMap::new(),
            candidates: IdMap::new(),
            edges: IdMap::new(),
            next_source: 2,
            next_candidate: 100,
        },
        streams: IdMap::new(),
        resolutions: IdMap::new(),
        limits: Limits {
            max_depth: 10,
            max_total_bytes: 10_000,
            max_single_bytes: 1000,
            max_result_bytes: 1000,
        },
        used_bytes: 0,
    };
    let delta = make_delta(b"hello world", b"hello Rust");
    let mut base = candidate("blob", 11);
    base.pack_offset = Some(12);
    base.declared_oid_hex = Some(blob_hex(b"hello world").to_uppercase());
    app.catalog.candidates.insert(1, base);
    app.streams.insert(1, packtrace::formats::zlib_deflate(b"hello world"));
    let mut child = candidate("ofs-delta", delta.len());
    child.pack_offset = Some(40);
    child.ofs_base_offset = Some(12);
    app.catalog.candidates.insert(2, child);
    app.streams.insert(2, packtrace::formats::zlib_deflate(&delta));
    app
}

#[test]
fn candidates_are_rebuilt() {
    let mut app = bench();
    let report = app.resolve_all();
    assert_eq!((report.resolved, report.total), (2, 2));
    let row = app.resolutions.get(2).unwrap();
    assert_eq!(row.content.as_deref(), Some(b"hello Rust".as_slice()));
    assert_eq!(row.oid_hex.as_deref(), Some(blob_hex(b"hello Rust").as_str()));
    assert_eq!((row.depth, row.oid_match), (1, None));
    assert_eq!(app.resolutions.get(1).unwrap().oid_match, Some(true));
    let steps = row.steps.as_ref().unwrap();
    assert_eq!((steps.len(), steps[1].base_candidate_id, steps[1].output_len), (2, Some(1), 10));
    assert!(steps[1].check_detail.contains("ofs@12 sha1 computed: "));
    assert_eq!(
        app.catalog.candidates.get(2).unwrap().computed_oid_hex.as_deref(),
        Some(blob_hex(b"hello Rust").as_str())
    );
}

#[test]
fn bad_candidates_are_isolated() {
    let mut app = bench();
    let mut spoof = candidate("blob", 3);
    spoof.pack_offset = Some(60);
    app.catalog.candidates.insert(3, spoof);
    app.streams.insert(3, packtrace::formats::zlib_deflate(b"longer"));
    let mut wrong = candidate("blob", 2);
    wrong.declared_oid_hex = Some("00".repeat(20));
    app.catalog.candidates.insert(4, wrong);
    app.streams.insert(4, packtrace::formats::zlib_deflate(b"hi"));
    let mut broken = candidate("blob", 2);
    broken.parse_status = "truncated".to_string();
    app.catalog.candidates.insert(5, broken);
    let mut crc = candidate("blob", 2);
    crc.crc_ok = Some(false);
    crc.entry_crc32 = Some(1);
    crc.idx_crc32 = Some(0xabc);
    app.catalog.candidates.insert(6, crc);
    app.catalog.candidates.insert(7, candidate("blob", 2));
    app.streams.insert(7, b"garbage".to_vec());
    let report = app.resolve_all();
    assert_eq!((report.resolved, report.bad, report.total), (2, 5, 7));
    let code = |id: i64| app.resolutions.get(id).unwrap().error_code.clone().unwrap();
    assert_eq!(code(3), "size_spoof");
    assert_eq!(code(4), "oid_mismatch");
    assert_eq!(code(5), "parse_truncated");
    assert_eq!(code(6), "crc_mismatch");
    assert_eq!(code(7), "zlib_corrupt");
    assert_eq!(
        app.resolutions.get(6).unwrap().error_detail.as_deref(),
        Some("pack entry crc32 0x00000001 != index crc32 0x00000abc")
    );
    assert!((3..=7).all(|id| app.resolutions.get(id).unwrap().content.is_none()));
}

#[test]
fn a_cycle_of_deltas_is_found() {
    let mut app = bench();
    let delta = make_delta(b"a", b"b");
    for (id, base) in [(3, "44"), (4, "33")] {
        let mut c = candidate("ref-delta", delta.len());
        c.declared_oid_hex = Some(format!("{0}{0}", id).repeat(20));
        c.ref_base_oid_hex = Some(base.repeat(20));
        app.catalog.candidates.insert(id, c);
        app.streams.insert(id, packtrace::formats::zlib_deflate(&delta));
    }
    let mut rt = Runtime::new();
    match app.resolve_candidate(&mut rt, 3) {
        Res::Cycle { chain } => assert_eq!(chain, vec![3, 4, 3]),
        other => panic!("{:?}", other),
    }
    app.resolve_all();
    let row = app.resolutions.get(3).unwrap();
    assert_eq!((row.status.as_str(), row.error_detail.as_deref()), ("cycle", Some("delta cycle through 3 -> 4 -> 3")));
}

#[test]
fn a_missing_base_is_waited_for() {
    let mut app = bench();
    let delta = make_delta(b"outside", b"outsider");
    let mut c = candidate("ref-delta", delta.len());
    c.ref_base_oid_hex = Some(blob_hex(b"outside"));
    app.catalog.candidates.insert(3, c);
    app.streams.insert(3, packtrace::formats::zlib_deflate(&delta));
    assert_eq!(app.resolve_all().missing_base, 1);
    let row = app.resolutions.get(3).unwrap();
    assert_eq!(row.blockers[0].code, "external_base_missing");
    let mut base = candidate("blob", 7);
    base.declared_oid_hex = Some(blob_hex(b"outside"));
    app.catalog.candidates.insert(4, base);
    app.streams.insert(4, packtrace::formats::zlib_deflate(b"outside"));
    let report = app.resolve_new_and_unblocked();
    assert_eq!((report.resolved, report.missing_base), (4, 0));
    assert_eq!(app.resolutions.get(3).unwrap().content.as_deref(), Some(b"outsider".as_slice()));
}

#[test]
fn a_spent_budget_pauses_until_it_is_raised() {
    let mut app = bench();
    app.limits.max_total_bytes = 15;
    let report = app.resolve_all();
    assert_eq!((report.resolved, report.paused), (1, 1));
    assert!(app.used_bytes <= 15);
    app.limits.max_total_bytes = 1000;
    let report = app.resume();
    assert_eq!((report.resolved, report.paused), (2, 0));
    app.limits.max_depth = 1;
    let mut rt = Runtime::new();
    match app.resolve_candidate(&mut rt, 2) {
        Res::Paused { kind, limit, used, .. } => {
            assert_eq!((kind.as_str(), limit, used), ("max_delta_depth", 1, 2));
        }
        other => panic!("{:?}", other),
    }
    assert_eq!(app.charge(&mut rt, 2000), Err((1000, 2000)));
    assert_eq!(app.charge(&mut rt, 10), Ok(()));
    assert_eq!(rt.used_seed, 10);
}

#[test]
fn files_are_imported_into_a_catalog_once() {
    let mut c = Catalog {
        sources: IdMap::new(),
        candidates: IdMap::new(),
        edges: IdMap::new(),
        next_source: 1,
        next_candidate: 1,
    };
    let images: Vec<(String, IdxImage)> = Vec::new();
    let image = |()| {
        Parsed::Loose(Ok(LooseImage {
            kind: Some(packtrace::git::types::ObjType::Blob),
            computed_oid: fixtures::blob_oid(b"hi"),
            body_len: 2,
            inflated_len: 9,
            compressed_len: 17,
            status: "ok".to_string(),
            detail: String::new(),
        }))
    };
    let r = c.import_bytes("x", b"bytes", image(()), &images);
    assert!(!r.duplicate);
    assert_eq!((c.sources.len(), c.candidates.len()), (1, 1));
    let r = c.import_bytes("y", b"bytes", image(()), &images);
    assert!(r.duplicate);
    assert_eq!((c.sources.len(), c.candidates.len()), (1, 1));
}

#[test]
fn an_imported_base_unblocks_what_waits_for_it() {
    let mut app = bench();
    let delta = make_delta(BASE, DERIVED);
    let mut waiting = candidate("ref-delta", delta.len());
    waiting.ref_base_oid_hex = Some(blob_hex(BASE));
    app.catalog.candidates.insert(3, waiting);
    app.streams.insert(3, packtrace::formats::zlib_deflate(&delta));
    assert_eq!(app.resolve_all().missing_base, 1);
    let stream = packtrace::formats::zlib_deflate(BASE);
    let image = |()| {
        Parsed::Pack(Ok(PackImage {
            version: 2,
            count: 1,
            stored_checksum: [1; 20],
            computed_checksum: [1; 20],
            checksum_ok: true,
            parse_error: None,
            entries: vec![PackEntry {
                offset: 12,
                claim_oid: None,
                kind: packtrace::git::types::ObjType::Blob,
                claimed_size: BASE.len() as u64,
                inflated_len: BASE.len() as u64,
                compressed_len: stream.len() as u64,
                header_len: 1,
                entry_crc32: 0,
                idx_crc32: None,
                ofs_base_offset: None,
                ref_base_oid: None,
                inflate_status: "ok".to_string(),
                inflate_detail: String::new(),
            }],
        }))
    };
    let images: Vec<(String, IdxImage)> = Vec::new();
    let streams = vec![stream.clone()];
    let (report, tally) = app.import_bytes("a.pack", b"bytes", image(()), &images, &streams);
    assert!(!report.duplicate);
    let tally = tally.unwrap();
    assert_eq!((tally.resolved, tally.missing_base, tally.total), (4, 0, 4));
    assert_eq!(app.resolutions.get(100).unwrap().content.as_deref(), Some(BASE));
    assert_eq!(app.resolutions.get(3).unwrap().content.as_deref(), Some(DERIVED));
    let used = app.used_bytes;
    let (report, tally) = app.import_bytes("b.pack", b"bytes", image(()), &images, &streams);
    assert!(report.duplicate && tally.is_none());
    assert_eq!((app.used_bytes, app.catalog.candidates.len()), (used, 4));
}

fn object(kind: &str, oid: &str, raw: &[u8], delta: &[u8]) -> analyzer::ObjectRow {
    analyzer::ObjectRow {
        oid: oid.to_string(),
        kind_name: kind.to_string(),
        status: "pending".to_string(),
        actual_oid: None,
        depth: 0,
        input_len: raw.len() as i64,
        output_len: 0,
        raw: raw.to_vec(),
        delta: delta.to_vec(),
        payload: None,
        ticket: None,
    }
}

fn fresh_run() -> analyzer::Run {
    analyzer::Run {
        ticket: 1,
        used: 0,
        touched: Vec::new(),
        errors: Vec::new(),
        events: Vec::new(),
        steps: Vec::new(),
    }
}

#[test]
fn an_analysis_resolves_a_delta_on_its_base() {
    let base_oid = blob_hex(b"hello world");
    let delta = make_delta(b"hello world", b"hello Rust");
    let mut store = analyzer::Store { objects: IdMap::new(), edges: Vec::new(), active: TextMap::new() };
    store.objects.insert(1, object("blob", &base_oid, b"hello world", b""));
    store.objects.insert(2, object("ref-delta", &blob_hex(b"hello Rust"), b"", &delta));
    store.edges.push(analyzer::BaseEdge {
        child: 2,
        base_oid: base_oid.clone(),
        kind: "ref".to_string(),
        base_offset: None,
    });
    store.active.insert(base_oid.clone(), 1);
    let budget = analyzer::Budget { max_depth: 10, total_bytes: 1000, single_ratio_num: 100, single_ratio_den: 1 };
    let mut run = fresh_run();
    let s = analyzer::resolve(&mut store, &mut run, budget, None).unwrap();
    assert_eq!((s.counts.resolved, s.counts.bad, s.counts.blocked), (2, 0, 0));
    let row = store.objects.get(2).unwrap();
    assert_eq!((row.status.as_str(), row.payload.as_deref()), ("resolved", Some(b"hello Rust".as_slice())));
    assert!(run.used <= 1000);
}

#[test]
fn an_analysis_pauses_within_its_budget() {
    let mut store = analyzer::Store { objects: IdMap::new(), edges: Vec::new(), active: TextMap::new() };
    store.objects.insert(1, object("blob", &blob_hex(b"hello world"), b"hello world", b""));
    let budget = analyzer::Budget { max_depth: 10, total_bytes: 5, single_ratio_num: 100, single_ratio_den: 1 };
    let mut run = fresh_run();
    let s = analyzer::resolve(&mut store, &mut run, budget, None).unwrap();
    assert_eq!((s.counts.resolved, s.counts.paused), (0, 1));
    assert!(run.used <= 5);
}

fn node(id: i64, oid: &str, kind: &str, offset: i64) -> CandidateNode {
    CandidateNode {
        id,
        oid: oid.to_string(),
        source_id: 1,
        locator: String::new(),
        kind_name: kind.to_string(),
        offset,
        raw_size: 0,
        inflate_size: 0,
        crc_ok: None,
        parse_error: None,
        base_ref: None,
        base_offset: None,
        stored_path: "p".to_string(),
        source_kind: "pack".to_string(),
    }
}

#[test]
fn a_branch_is_analysed_from_its_files() {
    let built = two_objects();
    let a = node(1, &blob_hex(b"hello world"), "blob", built.offsets[0] as i64);
    let mut b = node(2, &blob_hex(b"hello Rust"), "ofs_delta", built.offsets[1] as i64);
    b.base_offset = Some(built.offsets[0] as i64);
    let mut files = TextMap::new();
    files.insert("p".to_string(), FileRead::Bytes(built.bytes.clone()));
    let budget = BranchBudget { max_depth: 10, max_expand_bytes: 10_000, max_single_bytes: 10_000 };
    let run = analyze_branch(&[a, b], &TextMap::new(), &files, budget, None);
    assert_eq!(run.acc.resolved.get(1).unwrap().content, b"hello world");
    assert_eq!(run.acc.resolved.get(2).unwrap().content, b"hello Rust");
    assert!(run.acc.resolved.get(2).unwrap().oid_ok);
}

#[test]
fn pins_choose_among_candidates() {
    let oid = blob_hex(b"x");
    let rows = [node(1, &oid, "blob", 12), node(2, &oid, "blob", 90)];
    let g = build_graph(&rows, &TextMap::new());
    assert!(g.best_for(&oid).is_some());
    assert_eq!(g.at_pack_offset(1, 90), Some(2));
    let mut pins = TextMap::new();
    pins.insert(oid.clone(), 2);
    let g: Graph = build_graph(&rows, &pins);
    assert_eq!(g.best_for(&oid).map(|n| n.id), Some(2));
    assert!(g.best_for("none").is_none());
}

#[test]
fn files_are_classified() {
    assert_eq!(classify("A.PACK", b""), FileKind::Pack);
    assert_eq!(classify("x", b"PACK"), FileKind::Pack);
    assert_eq!(classify("x.idx", b""), FileKind::Idx);
    assert_eq!(classify("x", b"\xfftOc"), FileKind::Idx);
    assert_eq!(classify("x", b"\x78\x9c"), FileKind::Loose);
    assert_eq!(classify("x", b"text"), FileKind::Unknown);
    let id = "ab".repeat(20);
    assert_eq!(infer_loose_oid(&id), Some(id.clone()));
    assert_eq!(infer_loose_oid(&format!("objects/{}/{}", &id[..2], &id[2..])), Some(id.clone()));
    assert_eq!(infer_loose_oid(&format!("{}.zlib", id)), Some(id));
    assert_eq!(infer_loose_oid("readme"), None);
    let (rel, sha) = raw_name("my pack.pack", b"abc");
    assert_eq!(sha, "ba7816bf8f01cfea414140de5dae2223b00361a396177a9cb410ff61f20015ad");
    assert_eq!(rel, format!("raw/my_pack.pack.{}.pack", sha));
}

#[test]
fn deleting_a_source_takes_only_its_entries() {
    let entry = |source_id: i64, offset: i64| EntryInfo {
        source_id,
        offset: Some(offset),
        kind: "blob".to_string(),
        ref_delta: false,
        base_oid: None,
        claimed_oid: None,
        base_entry_id: None,
    };
    let mut s = AppState {
        sources: IdMap::new(),
        entries: IdMap::new(),
        statuses: IdMap::new(),
        branches: TextMap::new(),
    };
    s.sources.insert(1, "a.pack".to_string());
    s.sources.insert(2, "b.pack".to_string());
    s.entries.insert(10, entry(1, 12));
    s.entries.insert(11, entry(2, 12));
    s.branches.insert("default".to_string(), Branch { pins: TextMap::new(), statuses: IdMap::new() });
    assert!(s.delete_source(9).is_err());
    assert!(s.delete_source(1).is_ok());
    assert_eq!((s.sources.len(), s.entries.len()), (1, 1));
    assert!(s.entries.get(11).is_some());
    assert_eq!(s.branch_names(), vec!["default".to_string()]);
}

#[test]
fn an_index_is_attached_to_its_pack() {
    let source = |kind: &str, pack: Option<&str>, idx: &str| attach::Source {
        kind: kind.to_string(),
        pack_checksum: pack.map(|s| s.to_string()),
        idx_pack_checksum: idx.to_string(),
        attached_pack_id: None,
        status: "ok".to_string(),
        note: String::new(),
    };
    let mut t = attach::Tables { sources: IdMap::new(), candidates: IdMap::new(), warnings: Vec::new() };
    t.sources.insert(1, source("pack", Some("aa"), ""));
    t.sources.insert(2, source("index", None, "aa"));
    t.candidates.insert(5, attach::Candidate {
        source_id: 1,
        pack_offset: 12,
        claim_oid: None,
        idx_crc: None,
        crc_ok: None,
        status: "ok".to_string(),
        parse_error_code: None,
        parse_error: None,
    });
    let id = fixtures::blob_oid(b"x");
    let bytes = vec![1u8, 2, 3];
    let crc = packtrace::crc::crc32(&bytes);
    let files = attach::Files {
        indexes: vec![(2, Ok(attach::ParsedIndex {
            fatal: false,
            total: 1,
            entries: vec![attach::IdxRecord { oid: id, offset: 12, crc32: Some(crc) }],
        }))],
        packs: vec![(1, Ok(attach::ParsedPack {
            entries: vec![attach::ParsedEntry { offset: 12, compressed: bytes, broken: false }],
        }))],
    };
    attach::attach_all(&mut t, &files);
    assert_eq!(t.sources.get(2).unwrap().attached_pack_id, Some(1));
    assert_eq!(t.candidates.get(5).unwrap().claim_oid, Some(hex::encode(id)));
}

fn world_node(id: i64, kind: &str, raw: Option<&[u8]>, size: usize, offset: i64) -> NodeInfo {
    NodeInfo {
        id,
        source_id: 1,
        locator: format!("pack:1:{offset}"),
        kind: kind.to_string(),
        declared_size: size as i64,
        ofs_base_offset: None,
        ref_base_oid: None,
        pack_offset: Some(offset),
        header_start: Some(offset),
        header_end: None,
        zlib_start: None,
        zlib_end: None,
        zlib_out_len: None,
        content_size: raw.map(|r| r.len() as i64),
        raw: raw.map(|r| r.to_vec()),
        parse_status: "ok".to_string(),
        parse_error: None,
        crc_ok: None,
        crc_expected: None,
        crc_actual: None,
    }
}

fn empty_world() -> World {
    World {
        sources: IdMap::new(),
        fanout: Vec::new(),
        nodes: IdMap::new(),
        candidates: Vec::new(),
        pins: Vec::new(),
        rows: IdMap::new(),
        steps: Vec::new(),
        ledger: IdMap::new(),
        computed: IdMap::new(),
    }
}

#[test]
fn a_world_is_settled() {
    let delta = make_delta(b"hello world", b"hello Rust");
    let mut w = empty_world();
    let mut child = world_node(1, "ofs_delta", Some(&delta), delta.len(), 40);
    child.ofs_base_offset = Some(12);
    w.nodes.insert(1, child);
    w.nodes.insert(2, world_node(2, "blob", Some(b"hello world"), 11, 12));
    let mut lost = world_node(3, "ofs_delta", Some(&delta), delta.len(), 70);
    lost.ofs_base_offset = Some(55);
    w.nodes.insert(3, lost);
    let budget = packtrace::engine::Budget { max_depth: 10, max_total_expand: 10_000, single_object_ratio: 10 };
    w.settle_branch(&budget);
    assert_eq!(w.rows.get(1).unwrap().content.as_deref(), Some(b"hello Rust".as_slice()));
    assert_eq!(w.rows.get(2).unwrap().content.as_deref(), Some(b"hello world".as_slice()));
    assert!(w.rows.get(3).unwrap().content.is_none());
    assert_eq!(packtrace::engine::resolve::find_node_at(&w.nodes, 1, 40), Some(1));
    let mut late = world_node(4, "ofs_delta", Some(&delta), delta.len(), 90);
    late.ofs_base_offset = Some(12);
    w.nodes.insert(4, late);
    w.settle_branch(&budget);
    assert_eq!(w.rows.get(4).unwrap().content.as_deref(), Some(b"hello Rust".as_slice()));
}

#[test]
fn imports_into_a_branch_unblock_what_waits() {
    let mut w = empty_world();
    let budget = packtrace::engine::Budget { max_depth: 10, max_total_expand: 10_000, single_object_ratio: 10 };
    let delta = make_delta(BASE, DERIVED);
    let pack = import::PackImage {
        pack_sha: [1; 20],
        trailer_sha: [2; 20],
        object_count: 1,
        entries: vec![import::EntryImage {
            header_start: 12,
            header_end: 33,
            obj_type: packtrace::git::types::ObjType::RefDelta,
            declared_size: delta.len() as u64,
            zlib: None,
            ofs_base_offset: None,
            ref_base_oid: Some(fixtures::blob_oid(BASE)),
            inflated: Some(delta.clone()),
            inflate_error: None,
        }],
        checksum_ok: false,
        parse_errors: Vec::new(),
    };
    let file = Ok(import::ParsedFile::Pack(&pack, None));
    let report = w.import_bytes(1, 1, "a.pack", "files/a", b"PACK0000", file, &budget).unwrap();
    assert_eq!((report.source_id, report.nodes_added, report.deduped), (1, 1, false));
    assert_eq!(report.warnings, ["pack SHA1 trailer mismatch"]);
    assert!(w.rows.get(1).unwrap().content.is_none());

    let row = w.sources.get(1).unwrap();
    assert_eq!((row.kind.as_str(), row.filename.as_str(), row.byte_len), ("pack", "a.pack", 8));
    assert_eq!((row.stored_path.as_str(), row.linked_pack_source_id), ("files/a", None));
    assert_eq!(row.sha256, packtrace::engine::sha256_hex(b"PACK0000"));
    let file = Ok(import::ParsedFile::Pack(&pack, None));
    let again = w.import_bytes(2, 2, "b.pack", "files/a", b"PACK0000", file, &budget).unwrap();
    assert_eq!((again.source_id, again.nodes_added, again.deduped), (1, 0, true));
    assert_eq!((again.warnings.len(), w.nodes.len()), (1, 1));

    let loose = import::LooseImage {
        obj_type: packtrace::git::types::ObjType::Blob,
        content: BASE.to_vec(),
        zlib_start: 0,
        zlib_end: 30,
        header_len: 8,
    };
    let id = blob_hex(BASE);
    let path = format!("{}/{}", &id[..2], &id[2..]);
    for (name, said) in [
        ("plain", "unrecognized file (not a pack, v2 idx or loose object path)"),
        ("a/b", "bad loose oid"),
    ] {
        let file = Ok(import::ParsedFile::Loose(&loose));
        assert_eq!(w.import_bytes(2, 2, name, "files/l", b"loose", file, &budget).unwrap_err(), said);
    }
    let file = Err("broken".to_string());
    assert_eq!(w.import_bytes(2, 2, &path, "files/l", b"loose", file, &budget).unwrap_err(), "broken");
    assert_eq!((w.nodes.len(), w.sources.len()), (1, 1));
    let file = Ok(import::ParsedFile::Loose(&loose));
    let report = w.import_bytes(2, 2, &path, "files/l", b"loose", file, &budget).unwrap();
    assert_eq!((report.source_id, report.nodes_added), (2, 1));
    assert_eq!(w.rows.get(1).unwrap().content.as_deref(), Some(DERIVED));
    let n = w.nodes.get(2).unwrap();
    assert_eq!((n.locator.as_str(), n.zlib_start, n.zlib_end), ("loose:2", Some(0), Some(30)));
    assert_eq!((n.content_size, n.zlib_out_len), (Some(BASE.len() as i64), Some(BASE.len() as i64)));
    assert_eq!((n.header_start, n.crc_actual), (None, None));
    assert_eq!(w.computed.get(2), Some(&fixtures::blob_oid(BASE).to_vec()));
    assert!(matches!(
        &w.sources.get(2).unwrap().detail,
        Some(SourceDetail::Loose { oid, zlib_start: 0, zlib_end: 30, header_len: 8 }) if *oid == id
    ));
}

fn pack_with_entry(data: &[u8]) -> import::PackImage {
    import::PackImage {
        pack_sha: [1; 20],
        trailer_sha: [2; 20],
        object_count: 1,
        entries: vec![import::EntryImage {
            header_start: 4,
            header_end: 5,
            obj_type: packtrace::git::types::ObjType::Blob,
            declared_size: BASE.len() as u64,
            zlib: Some(import::ZlibSpan {
                compressed_start: 5,
                compressed_end: data.len() as u64,
                output_len: BASE.len() as u64,
            }),
            ofs_base_offset: None,
            ref_base_oid: None,
            inflated: Some(BASE.to_vec()),
            inflate_error: None,
        }],
        checksum_ok: false,
        parse_errors: vec![(Some(3), "cut".to_string()), (None, "lost".to_string())],
    }
}

fn index_with_row(crc32: u32) -> import::IdxImage {
    import::IdxImage {
        pack_sha: [1; 20],
        idx_sha: [3; 20],
        trailer_sha: [4; 20],
        fanout: vec![0, 1, 1],
        entries: vec![import::IdxRow { oid: fixtures::blob_oid(BASE), offset: 4, crc32 }],
        checksum_ok: true,
    }
}

#[test]
fn a_pack_and_its_index_are_linked_in_either_order() {
    let budget = packtrace::engine::Budget { max_depth: 10, max_total_expand: 10_000, single_object_ratio: 10 };
    let bytes = b"PACKdata of the entry";
    let idx_bytes = b"\xfftOc0000";
    let pack = pack_with_entry(bytes);
    let crc = packtrace::crc::crc32(&bytes[4..]);
    let idx = index_with_row(crc);
    for pack_first in [true, false] {
        let mut w = empty_world();
        let (p, i) = if pack_first {
            let file = Ok(import::ParsedFile::Pack(&pack, None));
            let r = w.import_bytes(1, 1, "a.pack", "files/p", bytes, file, &budget).unwrap();
            assert_eq!(r.warnings, ["pack SHA1 trailer mismatch", "entry 3: cut"]);
            assert_eq!(w.nodes.get(1).unwrap().crc_expected, None);
            let file = Ok(import::ParsedFile::Idx(&idx, Some((1, &pack, bytes.as_slice()))));
            let r = w.import_bytes(2, 2, "a.idx", "files/i", idx_bytes, file, &budget).unwrap();
            assert_eq!((r.linked_source_id, r.nodes_added), (Some(1), 0));
            (1, 2)
        } else {
            let file = Ok(import::ParsedFile::Idx(&idx, None));
            let r = w.import_bytes(1, 1, "a.idx", "files/i", idx_bytes, file, &budget).unwrap();
            assert_eq!((r.linked_source_id, r.nodes_added), (None, 1));
            let n = w.nodes.get(1).unwrap();
            assert_eq!((n.locator.as_str(), n.kind.as_str()), ("idx:1:4", "idx_placeholder"));
            assert_eq!((n.content_size, n.zlib_end, n.crc_actual), (None, None, None));
            assert_eq!((w.candidates[0].idx_present, w.candidates[0].checksum_ok), (0, 1));
            let file = Ok(import::ParsedFile::Pack(&pack, Some((1, &idx))));
            let r = w.import_bytes(2, 2, "a.pack", "files/p", bytes, file, &budget).unwrap();
            assert_eq!(r.linked_source_id, Some(1));
            (2, 1)
        };
        assert_eq!(w.sources.get(p).unwrap().linked_pack_source_id, Some(i));
        assert_eq!(w.sources.get(i).unwrap().linked_pack_source_id, Some(p));
        let Some(SourceDetail::Pack { pack_sha, trailer_sha, checksum_ok, object_count, idx_present, parse_errors }) =
            &w.sources.get(p).unwrap().detail
        else {
            panic!("no detail of a pack")
        };
        assert_eq!((pack_sha.as_str(), trailer_sha.as_str()), ("01".repeat(20).as_str(), "02".repeat(20).as_str()));
        assert_eq!((*checksum_ok, *object_count, *idx_present), (false, 1, true));
        assert_eq!(*parse_errors, ["[3] cut".to_string(), format!("[{}] lost", usize::MAX)]);
        assert!(matches!(
            &w.sources.get(i).unwrap().detail,
            Some(SourceDetail::Idx { idx_sha, checksum_ok: true, object_count: 1, .. }) if *idx_sha == "03".repeat(20)
        ));
        let rows: Vec<(i64, i64, i64)> = w.fanout.iter().map(|f| (f.source_id, f.bucket, f.value)).collect();
        assert_eq!(rows, [(i, 0, 0), (i, 1, 1), (i, 2, 1)]);

        let n = w.nodes.value_at(w.nodes.len() - 1);
        assert_eq!(n.locator, format!("pack:{p}:4"));
        assert_eq!((n.header_start, n.header_end), (Some(4), Some(5)));
        assert_eq!((n.zlib_start, n.zlib_end), (Some(5), Some(bytes.len() as i64)));
        assert_eq!((n.zlib_out_len, n.content_size), (Some(BASE.len() as i64), Some(BASE.len() as i64)));
        assert_eq!((n.crc_expected, n.crc_actual, n.crc_ok), (Some(crc as i64), Some(crc as i64), Some(1)));
        let c = w.candidates.iter().find(|c| c.origin == "index" && c.idx_present == 1).unwrap();
        assert_eq!((c.crc_ok, c.checksum_ok), (Some(1), if pack_first { 1 } else { 0 }));

        let (nodes, sources) = (w.nodes.len(), w.sources.len());
        let file = Ok(import::ParsedFile::Pack(&pack, None));
        let again = w.import_bytes(9, 9, "c.pack", "files/p", bytes, file, &budget).unwrap();
        assert_eq!((again.source_id, again.deduped, again.nodes_added), (p, true, 0));
        assert_eq!((w.nodes.len(), w.sources.len()), (nodes, sources));
    }
}

#[test]
fn a_bad_checksum_is_noted_beside_the_right_one() {
    let budget = packtrace::engine::Budget { max_depth: 10, max_total_expand: 10_000, single_object_ratio: 10 };
    let bytes = b"PACKdata of the entry";
    let pack = pack_with_entry(bytes);
    let crc = packtrace::crc::crc32(&bytes[4..]);
    let idx = index_with_row(crc ^ 1);
    let mut w = empty_world();
    let file = Ok(import::ParsedFile::Pack(&pack, Some((7, &idx))));
    w.import_bytes(1, 1, "a.pack", "files/p", bytes, file, &budget).unwrap();
    let n = w.nodes.get(1).unwrap();
    assert_eq!((n.crc_expected, n.crc_actual), (Some((crc ^ 1) as i64), Some(crc as i64)));
    assert_eq!((n.crc_ok, w.candidates[0].crc_ok, w.candidates[0].checksum_ok), (Some(0), Some(0), 0));
}

#[test]
fn the_kinds_of_objects_agree() {
    assert_eq!(GitType::from_pack(6), Some(GitType::OfsDelta));
    assert_eq!(GitType::from_pack(5), None);
    assert_eq!(GitType::from_name("tree"), Some(GitType::Tree));
    assert!(GitType::RefDelta.is_delta() && !GitType::Tag.is_delta());
    assert_eq!(GitType::Tag.base_type_code(), Some(4));
    assert_eq!(GitType::OfsDelta.base_type_code(), None);
}
