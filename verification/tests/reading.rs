//! What is written is read back, and what is ranked stays in order.
use packtrace::analyze::graph::{build_graph, CandidateNode, Graph};
use packtrace::binformat;
use packtrace::engine::candidate_rank_key;
use packtrace::fixtures;
use packtrace::git;
use packtrace::gitfmt;
use packtrace::kernel;
use packtrace::model::assoc::TextMap;

fn contents() -> Vec<Vec<u8>> {
    vec![
        Vec::new(),
        b"x".to_vec(),
        vec![7; 10_000],
        vec![0; 200_000],
        (0..70_000usize).map(|i| (i * i % 251) as u8).collect(),
    ]
}

#[test]
fn streams_are_read_back_with_nothing_behind_them() {
    for content in contents() {
        let z = packtrace::formats::zlib_deflate(&content);
        let n = z.len();
        let (out, used) = git::inflate_one(&z, 0).unwrap();
        assert_eq!((&out, used), (&content, n));
        let (out, range) = git::zdec::inflate_one(&z, 0, content.len() as u64, content.len()).unwrap();
        assert_eq!((&out, range.compressed_end), (&content, n));
        let (out, range) = git::zdec::inflate_unbounded(&z, 0, content.len()).unwrap();
        assert_eq!((&out, range.compressed_end), (&content, n));
        let o = git::inflate::inflate_once(&z, content.len()).unwrap();
        assert_eq!((&o.data, o.consumed), (&content, n));
        let o = kernel::inflate::inflate_stream(&z, 0, content.len() as u64).unwrap();
        assert_eq!((&o.data, o.consumed), (&content, n));
        let o = binformat::inflate_zlib(&z, 0, 3, content.len()).unwrap();
        assert_eq!((&o.data, o.consumed, o.overran_cap), (&content, n, false));
        let p = git::loose::parse_loose(&fixtures::build_loose("blob", &content));
        assert_eq!((&p.data, p.error), (&content, None));
    }
}

#[test]
fn streams_that_end_early_are_truncated() {
    let z = packtrace::formats::zlib_deflate(&[7; 10_000]);
    let cut = &z[..z.len() - 1];
    assert_eq!(git::inflate_one(cut, 0).unwrap_err(), "truncated zlib stream (no more input)");
    assert_eq!(git::inflate_one(cut, 1000).unwrap_err(), "truncated zlib stream (no more input)");
    assert_eq!(git::inflate_one(b"", 0).unwrap_err(), "truncated zlib stream (no more input)");
    assert_eq!(git::zdec::inflate_unbounded(cut, 0, 20_000).unwrap_err(), "unexpected EOF inside zlib stream");
    assert_eq!(git::zdec::inflate_one(cut, 1000, 1, 20_000).unwrap_err(), "unexpected EOF inside zlib stream");
    assert_eq!(
        git::inflate::inflate_once(cut, 20_000).unwrap_err(),
        "zlib stream ended without end-of-stream marker"
    );
    assert_eq!(
        kernel::inflate::inflate_stream(cut, 0, 10_000).err().unwrap().message(),
        "zlib error: compressed stream truncated before stream end"
    );
    assert_eq!(
        binformat::inflate_zlib(cut, 0, 10_000, 20_000).unwrap_err(),
        "zlib stream truncated (no end marker)"
    );
}

#[test]
fn a_cap_holds_whatever_size_is_declared() {
    let content: Vec<u8> = (0..500usize).map(|i| (i % 7) as u8).collect();
    let mut z = packtrace::formats::zlib_deflate(&content);
    let n = z.len();
    z.push(9);
    let o = binformat::inflate_zlib(&z, 0, 1000, 10).unwrap();
    assert_eq!((o.data.as_slice(), o.consumed, o.overran_cap, o.declared), (&content[..11], n, true, 1000));
    let o = binformat::inflate_zlib(&z[..n - 1], 0, 1000, 10).unwrap();
    assert!(o.overran_cap && o.consumed < n);
}

#[test]
fn a_stream_that_is_none_is_reported_with_its_error() {
    let m = packtrace::formats::zlib_inflate_from(b"..not a stream", 2).unwrap_err();
    assert!(m.contains("|partial="));
}

fn node(id: i64, source_id: i64, broken: bool) -> CandidateNode {
    CandidateNode {
        id,
        oid: "ab".repeat(20),
        source_id,
        locator: String::new(),
        kind_name: "blob".to_string(),
        offset: 12,
        raw_size: 1,
        inflate_size: 1,
        crc_ok: None,
        parse_error: if broken { Some("bad".to_string()) } else { None },
        base_ref: None,
        base_offset: None,
        stored_path: String::new(),
        source_kind: "pack".to_string(),
    }
}

#[test]
fn broken_candidates_rank_last() {
    let (broken, sound, later) = (node(1, 1, true), node(2, 5, false), node(3, 6, false));
    assert!(Graph::rank(&sound) < Graph::rank(&broken));
    assert!(Graph::rank(&sound) < Graph::rank(&later));
    let pins = TextMap::new();
    let g = build_graph(&[broken, later, sound], &pins);
    assert_eq!(g.best_for(&"ab".repeat(20)).unwrap().id, 2);
    assert_eq!(g.by_oid.get(&"ab".repeat(20)).unwrap(), &vec![2, 3, 1]);
}

#[test]
fn keys_are_ordered_like_numbers() {
    let key = |s: i64, o: Option<i64>| candidate_rank_key("index", true, Some(true), s, o);
    assert!(key(9, Some(5)) < key(10, Some(1)));
    assert!(key(9, Some(5)) < key(9, Some(40)));
    assert!(key(9, Some(i64::MAX - 1)) < key(9, None));
    assert!(key(9_999_999_999, None) < candidate_rank_key("computed", true, None, 0, Some(0)));
}

#[test]
fn the_last_byte_of_an_entry_is_tampered() {
    let mut pack = vec![0u8; 40];
    fixtures::corrupt_entry_at(&mut pack, 12, 18);
    assert_eq!(pack[17], 0xff);
    assert_eq!(pack.iter().filter(|b| **b != 0).count(), 1);
    fixtures::corrupt_entry_at(&mut pack, 12, 30);
    fixtures::corrupt_entry_at(&mut pack, 18, 18);
    assert_eq!(pack.iter().filter(|b| **b != 0).count(), 1);
}

#[test]
fn an_offset_delta_leads_back_to_its_base() {
    let entries = [
        fixtures::blob_entry(b"hello world"),
        fixtures::blob_entry(b"between"),
        fixtures::ofs_delta_entry(b"hello world", b"hello Rust", 0),
    ];
    let (pack, offsets) = fixtures::build_pack(&entries);
    assert_eq!((offsets[0], offsets.len()), (12, 3));
    assert_eq!(fixtures::pack_checksum(&pack), pack[pack.len() - 20..]);
    let at = offsets[2] as usize;
    let (kind, _, used) = git::read_pack_entry_header(&pack, at).unwrap();
    let (distance, _) = git::read_ofs_distance(&pack, at + used).unwrap();
    assert_eq!((kind, offsets[2] - distance), (6, offsets[0]));
}

#[test]
fn frames_are_split_into_what_they_were_made_of() {
    for (name, kind) in [
        ("commit", gitfmt::ObjType::Commit),
        ("tree", gitfmt::ObjType::Tree),
        ("blob", gitfmt::ObjType::Blob),
        ("tag", gitfmt::ObjType::Tag),
    ] {
        let mut frame = git::loose_payload(name, b"a\0b");
        let (k, body) = gitfmt::parse_loose_frame(&frame).unwrap();
        assert_eq!((k, body.as_slice()), (kind, b"a\0b".as_slice()));
        assert!(gitfmt::parse_loose_frame(&frame[..frame.len() - 1]).is_err());
        frame.push(0);
        assert!(gitfmt::parse_loose_frame(&frame).is_err());
    }
}
