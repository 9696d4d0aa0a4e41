//! Packs, deltas, indexes and loose objects at the byte level.
use packtrace::git::builder::{build_pack_with, Corruptions, PackObj};
use packtrace::git::delta::{encode_insert_delta, parse_delta};
use packtrace::git::object_id::hash_object;
use packtrace::git::object::ObjType;
use packtrace::git::varint;
use packtrace::git::varint::read_ofs;
use packtrace::git::writer::make_delta;

#[test]
fn roundtrip() {
    for v in [0u64, 1, 127, 128, 16384, u64::MAX, 9_000_000] {
        let mut out = Vec::new();
        varint::write(v, &mut out);
        assert_eq!(varint::read(&out), Some((v, out.len())));
    }
}

#[test]
fn ofs_examples() {
    // Small offset: single byte, no continuation.
    assert_eq!(read_ofs(&[0x05]), Some((5, 1)));
}

#[test]
fn delta_roundtrip() {
    let base = b"hello world";
    let result = b"hello Rust";
    let delta = make_delta(base, result);
    let (output, ranges) = parse_delta(&delta, base, 1000, None).unwrap();
    assert_eq!(output, result);
    assert!(!ranges.is_empty());
}

#[test]
fn builder_roundtrip_with_trailer() {
    let objs = vec![PackObj::base(ObjType::Blob, b"abc".to_vec())];
    let (_pack, offs, oids) = build_pack_with(&objs, &Corruptions::default());
    assert_eq!(offs, vec![12]);
    assert_eq!(
        hex::encode(oids[0]),
        hex::encode(hash_object(packtrace::git::types::ObjType::Blob, b"abc"))
    );
}

#[test]
fn ofs_chain_builds() {
    let base = b"base text".to_vec();
    let d = encode_insert_delta(base.len() as u64, b"derived");
    let objs = vec![
        PackObj::base(ObjType::Blob, base),
        PackObj::ofs_delta(0, d),
    ];
    let (pack, offs, _oids) = build_pack_with(&objs, &Corruptions::default());
    assert!(pack.starts_with(b"PACK\x00\x00\x00\x02\x00\x00\x00\x02"));
    assert_eq!(offs.len(), 2);
}
