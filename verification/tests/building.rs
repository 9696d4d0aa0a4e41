//! Packs and indexes that are built, and read again.
use packtrace::git::builder as git_builder;
use packtrace::git::object::ObjType;
use packtrace::git::pack;
use packtrace::git::writer::{self, BuildObject, DeltaBase};
use packtrace::git::{idx, index, GitType};
use packtrace::{builder, builder_index, fixtures, forge, formats, gitcore, gitfmt, kernel};

fn blob(data: &[u8]) -> BuildObject {
    BuildObject { kind: ObjType::Blob, data: data.to_vec(), delta_base: None }
}

/// A pack of "hello world" and of "hello Rust" as a delta on it.
fn two_objects() -> writer::BuiltPack {
    let delta = writer::make_delta(b"hello world", b"hello Rust");
    writer::build_pack(&[
        blob(b"hello world"),
        BuildObject { kind: ObjType::Blob, data: delta, delta_base: Some(DeltaBase::Ofs(0)) },
    ])
}

#[test]
fn a_written_pack_is_read_by_every_reader() {
    let built = two_objects();
    assert_eq!(built.offsets[0], 12);

    let p = gitcore::parse_pack(&built.bytes).unwrap();
    assert_eq!((p.version, p.object_count, p.trailer_ok, p.trailing_bytes), (2, 2, true, 0));
    assert_eq!(p.entries[0].offset, built.offsets[0]);
    assert_eq!(p.entries[1].offset, built.offsets[1]);
    assert_eq!(p.entries[0].end_offset, p.entries[1].offset);
    assert_eq!((p.entries[0].crc32, p.entries[1].crc32), (built.crcs[0], built.crcs[1]));
    assert!(matches!(p.entries[1].base, Some(gitcore::DeltaBase::Ofs { base_offset: 12, .. })));

    let p = pack::parse_pack(&built.bytes, None);
    assert!(p.checksum_valid && p.problems.is_empty());
    assert_eq!(p.entries[0].inflated.as_deref(), Some(b"hello world".as_slice()));
    assert_eq!(p.entries[1].crc32, Some(built.crcs[1]));

    let p = kernel::pack::parse_pack(&built.bytes).unwrap();
    assert!(p.checksum_ok && p.scan_error.is_none());
    assert_eq!(p.entries[0].inflated.as_ref().unwrap(), b"hello world");
    assert_eq!(p.entries[1].ofs_distance, Some(built.offsets[1] - 12));

    let p = gitfmt::pack::parse_pack(built.bytes.clone(), 1 << 20).unwrap();
    assert!(p.trailer_ok && p.errors.is_empty());
    assert_eq!(p.entries[0].inflated.as_deref(), Some(b"hello world".as_slice()));
    assert_eq!(p.entries[1].ofs_base, Some(12));
}

#[test]
fn a_written_index_is_read_by_every_reader() {
    let built = two_objects();
    let bytes = writer::build_idx(&built);
    let i = gitcore::parse_index(&bytes).unwrap();
    assert!(i.checksum_ok && i.fanout_ok);
    assert_eq!((i.fanout[255], i.entries.len()), (2, 2));
    assert!(i.entries[0].oid < i.entries[1].oid);
    for e in &i.entries {
        let n = built.oids.iter().position(|o| *o == e.oid).unwrap();
        assert_eq!((e.offset, e.crc32), (built.offsets[n], built.crcs[n]));
    }
    let p = kernel::idx::parse_idx(&bytes).unwrap();
    assert!(p.parse_error.is_none());
    assert_eq!((p.version, p.num_entries), (2, 2));
    let body = &bytes[..bytes.len() - 40];
    assert_eq!(p.computed_idx_sha, packtrace::git::hash::sha1_bytes(body));
    let p = idx::parse_idx(&bytes);
    assert!(p.idx_checksum_ok && p.fatal_error.is_none() && p.fanout_errors.is_empty());
    let p = index::parse_index(&bytes);
    assert!(p.fatal.is_none());
    assert_eq!(p.entries.len(), 2);
}

#[test]
fn a_pack_that_is_cut_short_is_reported() {
    let built = two_objects();
    let cut = &built.bytes[..built.bytes.len() - 30];
    let p = pack::parse_pack(cut, None);
    assert!(!p.checksum_valid && !p.problems.is_empty() || p.entries.iter().any(|e| e.is_corrupt()));
    assert!(!kernel::pack::parse_pack(cut).unwrap().checksum_ok);
    assert!(gitcore::parse_pack(b"PAC").is_err());
    assert!(gitcore::parse_pack(b"JUNK\0\0\0\x02\0\0\0\0aaaaaaaaaaaaaaaaaaaa").is_err());
    assert!(kernel::pack::parse_pack(b"PACK").is_err());
    assert!(gitfmt::pack::parse_pack(b"PACK".to_vec(), 10).is_err());
}

#[test]
fn a_damaged_index_is_reported() {
    let built = two_objects();
    let mut bytes = writer::build_idx(&built);
    let n = bytes.len();
    bytes[n - 1] ^= 1;
    assert!(!gitcore::parse_index(&bytes).unwrap().checksum_ok);
    assert!(!idx::parse_idx(&bytes).idx_checksum_ok);
    assert!(gitcore::parse_index(&bytes[..100]).is_err());
    assert!(index::parse_index(&bytes[..100]).fatal.is_some());
}

#[test]
fn a_made_delta_gives_the_result() {
    for (a, b) in [
        (b"".to_vec(), b"".to_vec()),
        (b"abc".to_vec(), b"".to_vec()),
        (b"".to_vec(), b"abc".to_vec()),
        (vec![7u8; 300], vec![7u8; 500]),
        (b"hello world".to_vec(), b"hello Rust".to_vec()),
    ] {
        let d = writer::make_delta(&a, &b);
        assert_eq!(packtrace::git::delta::apply_delta(&a, &d).unwrap().output, b);
    }
}

#[test]
fn a_delta_that_only_inserts_gives_its_data() {
    let data = vec![9u8; 300];
    let d = packtrace::git::delta::encode_insert_delta(4, &data);
    assert_eq!(packtrace::git::delta::apply_delta(b"base", &d).unwrap().output, data);
}

#[test]
fn corruptions_are_found() {
    let objs = vec![git_builder::PackObj::base(ObjType::Blob, b"some content, some content".to_vec())];
    let mut c = git_builder::Corruptions::default();
    c.spoof_size = vec![(0, 5)];
    let (bytes, _, _) = git_builder::build_pack_with(&objs, &c);
    assert!(pack::parse_pack(&bytes, None).entries[0].is_corrupt());
    let e = &gitfmt::pack::parse_pack(bytes, 1 << 20).unwrap().entries[0];
    assert_eq!(e.problem, Some(gitfmt::pack::EntryProblem::SizeSpoof));
    assert_eq!(e.problem_detail.as_deref(), Some("size spoof: declared 5, inflated 26 (more)"));
    assert_eq!(e.inflated.as_deref(), Some(b"some content, some content".as_slice()));
    let mut c = git_builder::Corruptions::default();
    c.truncate_at = Some(20);
    let (bytes, _, _) = git_builder::build_pack_with(&objs, &c);
    assert_eq!(bytes.len(), 20);
    let mut c = git_builder::Corruptions::default();
    c.break_crc = vec![0];
    let (bytes, _, _) = git_builder::build_pack_with(&objs, &c);
    assert!(pack::parse_pack(&bytes, None).entries[0].is_corrupt());
}

#[test]
fn a_delta_without_its_base_cannot_be_built() {
    let d = packtrace::git::delta::encode_insert_delta(4, b"x");
    let objs = vec![git_builder::PackObj::ref_delta([1; 20], d.clone())];
    assert!(git_builder::try_build_pack_with(&objs, &git_builder::Corruptions::default()).is_none());
    let inputs = [builder::PackInput::OfsDelta { base: 0, delta: d.clone() }];
    assert!(builder::try_build_pack(&inputs).is_none());
    let entries = vec![forge::ForgeEntry::OfsDelta { base: 3, delta: d }];
    assert!(forge::try_build_pack(entries).is_none());
}

#[test]
fn built_inputs_are_read_again() {
    let delta = writer::make_delta(b"hello world", b"hello Rust");
    let inputs = [
        builder::PackInput::Raw(GitType::Blob, b"hello world".to_vec()),
        builder::PackInput::OfsDelta { base: 0, delta: delta.clone() },
        builder::PackInput::RefDelta {
            base_oid: packtrace::git::git_object_id("blob", b"hello world"),
            delta,
            final_oid: None,
        },
    ];
    let p = builder::build_pack(&inputs);
    assert_eq!(p.oids[0], hex::encode(packtrace::git::git_object_id("blob", b"hello world")));
    assert_eq!(p.oids[1], hex::encode(packtrace::git::git_object_id("blob", b"hello Rust")));
    assert_eq!(p.oids[2], p.oids[1]);
    let read = kernel::pack::parse_pack(&p.pack).unwrap();
    assert!(read.checksum_ok && read.scan_error.is_none());
    let listed = kernel::idx::parse_idx(&p.idx).unwrap();
    assert_eq!(listed.pack_checksum, read.trailer_sha);
    assert!(gitcore::parse_index(&p.idx).unwrap().checksum_ok);
}

#[test]
fn an_index_is_built_for_offsets() {
    let built = two_objects();
    let pairs = [
        (built.offsets[0] as usize, built.oids[0]),
        (built.offsets[1] as usize, built.oids[1]),
    ];
    let bytes = builder_index::build_index_v2(&built.bytes, &pairs);
    assert_eq!(bytes, writer::build_idx(&built));
}

#[test]
fn fixtures_are_read_again() {
    let base = fixtures::blob_entry(b"hello world");
    let id = fixtures::blob_oid(b"hello world");
    let by_id = fixtures::ref_delta_entry(b"hello world", b"hello Rust", id);
    let (bytes, offsets) = fixtures::build_pack(&[base, by_id]);
    let p = kernel::pack::parse_pack(&bytes).unwrap();
    assert!(p.checksum_ok);
    assert_eq!(p.entries[1].base_oid, Some(id));
    assert_eq!(fixtures::pack_checksum(&bytes), p.trailer_sha);
    let other = fixtures::blob_oid(b"hello Rust");
    let mapping = vec![(id, offsets[0]), (other, offsets[1])];
    let good = kernel::idx::parse_idx(&fixtures::build_idx(&bytes, &mapping, None)).unwrap();
    let bad = kernel::idx::parse_idx(&fixtures::build_idx(&bytes, &mapping, Some(&id))).unwrap();
    let crc = |i: &kernel::idx::ParsedIdx, o: &[u8; 20]| {
        i.entries.iter().find(|e| e.oid == *o).unwrap().crc32.unwrap()
    };
    let first = packtrace::crc::crc32(&bytes[offsets[0] as usize..offsets[1] as usize]);
    let second = packtrace::crc::crc32(&bytes[offsets[1] as usize..bytes.len() - 20]);
    assert_eq!((crc(&good, &id), crc(&good, &other)), (first, second));
    assert_eq!((crc(&bad, &id), crc(&bad, &other)), (first ^ 0xdead_beef, second));
    let astray = kernel::idx::parse_idx(&fixtures::build_mismatched_idx(&bytes, &mapping)).unwrap();
    assert_eq!(astray.pack_checksum, [0xa5; 20]);
    assert_eq!(good.pack_checksum, p.trailer_sha);
    let mut spoiled = bytes.clone();
    fixtures::corrupt_entry_at(&mut spoiled, offsets[0], offsets[1]);
    assert_eq!(spoiled[offsets[1] as usize - 1], bytes[offsets[1] as usize - 1] ^ 0xff);
    assert!(!kernel::pack::parse_pack(&spoiled).unwrap().checksum_ok);
}

#[test]
fn forged_packs_hold_their_objects() {
    let entries = vec![
        forge::ForgeEntry::Object { object_type: GitType::Blob, data: b"short".to_vec() },
        forge::ForgeEntry::OfsDelta { base: 0, delta: forge::delta_for(b"short", b"short!") },
    ];
    let p = forge::build_pack(entries);
    assert_eq!(p.offsets[0], 12);
    assert_eq!(p.oids[1], packtrace::git::git_object_id("blob", b"short!"));
    let read = kernel::pack::parse_pack(&p.pack).unwrap();
    assert_eq!(read.entries[0].inflated.as_ref().unwrap(), b"short");
    assert!(gitcore::parse_index(&p.idx).unwrap().checksum_ok);
    assert_eq!(forge::write_size(300), vec![0x02, 0xac]);
    let (raw, id) = forge::loose_object(GitType::Blob, b"hi");
    assert_eq!(&raw[..7], b"blob 2\0");
    assert_eq!(id, packtrace::git::git_object_id("blob", b"hi"));
    assert_eq!(formats::zlib_inflate_from(&raw, 7).unwrap().0, b"hi");
    let (text, same) = builder::loose_object(GitType::Blob, b"hi");
    assert_eq!((text, same), (hex::encode(id), raw));
}

#[test]
fn deltas_are_spelled_out() {
    assert_eq!(forge::delta_for(b"abc", b"abcd"), vec![3, 4, 0x90, 3, 1, b'd']);
    assert_eq!(
        builder::delta_insert_then_copy(3, b"xy"),
        vec![3, 5, 2, b'x', b'y', 0x80, 0, 3, 0, 0]
    );
    assert_eq!(
        forge::write_pack_object_header(GitType::OfsDelta, 5, Some(forge::DeltaRef::Offset(12)), 30),
        vec![0x65, 18]
    );
}
