//! Sizes, headers, ids and checksums.
use packtrace::{binformat, crc, delta, error, formats, gitbase, gitcore, gitenc, gitfmt, gitobj};
use packtrace::git::{hash, loose, object_id, oid, sha, types};
use packtrace::kernel;

const EMPTY_BLOB: &str = "e69de29bb2d1d6434b8b29ae775ad8c2e48c5391";
const ABC: &str = "a9993e364706816aba3e25717850c26c9cd0d89d";

#[test]
fn roundtrip_zlib_boundary() {
    let payload = b"hello world".repeat(100);
    let mut buf = vec![0u8, 0xff];
    buf.extend_from_slice(&formats::zlib_deflate(&payload));
    buf.push(0xaa);
    let inf = binformat::inflate_zlib(&buf, 2, payload.len() as u64, 1 << 20).unwrap();
    assert_eq!(inf.data, payload);
    assert_eq!(buf[2 + inf.consumed], 0xaa);
    assert!(!inf.overran_cap);
}

#[test]
fn git_id_matches_known_blob() {
    // The well-known empty blob oid.
    let id = binformat::git_object_id("blob", b"");
    assert_eq!(hex::encode(id), "e69de29bb2d1d6434b8b29ae775ad8c2e48c5391");
}

#[test]
fn every_hasher_gives_the_same_id() {
    assert_eq!(hex::encode(hash::object_id("blob", b"")), EMPTY_BLOB);
    assert_eq!(sha::object_id("blob", b""), EMPTY_BLOB);
    assert_eq!(hex::encode(packtrace::git::git_object_id("blob", b"")), EMPTY_BLOB);
    assert_eq!(hex::encode(gitbase::git_object_id(gitbase::ObjType::Blob, b"")), EMPTY_BLOB);
    assert_eq!(gitfmt::git_object_id(gitfmt::ObjType::Blob, b"").hex(), EMPTY_BLOB);
    assert_eq!(hex::encode(gitcore::git_oid(3, b"")), EMPTY_BLOB);
    assert_eq!(gitobj::oid_hex("blob", b""), EMPTY_BLOB);
    assert_eq!(hex::encode(gitenc::oid_sha1("blob", b"")), EMPTY_BLOB);
    assert_eq!(hex::encode(formats::git_hash("blob", b"")), EMPTY_BLOB);
    assert_eq!(hex::encode(types::hash_object(types::ObjType::Blob, b"")), EMPTY_BLOB);
    assert_eq!(
        hex::encode(kernel::git::git_object_id(kernel::git::GitType::Blob, b"")),
        EMPTY_BLOB
    );
    assert_eq!(hex::encode(packtrace::fixtures::blob_oid(b"")), EMPTY_BLOB);
}

#[test]
fn digests_of_abc() {
    assert_eq!(hash::sha1_hex(b"abc"), ABC);
    assert_eq!(sha::sha1_hex(b"abc"), ABC);
    assert_eq!(gitobj::sha1_hex(b"abc"), ABC);
    assert_eq!(formats::sha1_hex(b"abc"), ABC);
    assert_eq!(hex::encode(sha::raw_sha1(b"abc")), ABC);
    let sha256 = "ba7816bf8f01cfea414140de5dae2223b00361a396177a9cb410ff61f20015ad";
    assert_eq!(gitcore::sha256_hex(b"abc"), sha256);
    assert_eq!(packtrace::engine::sha256_hex(b"abc"), sha256);
}

#[test]
fn checksums_agree() {
    assert_eq!(crc::crc32(b"123456789"), 0xcbf43926);
    assert_eq!(formats::crc32(b"123456789"), 0xcbf43926);
    assert_eq!(binformat::crc32_ieee(b"123456789"), 0xcbf43926);
    assert_eq!(binformat::Crc32::new().checksum(b"123456789"), 0xcbf43926);
    assert_eq!(object_id::crc32_zlib_bytes(b"123456789"), 0xcbf43926);
    assert_eq!(crc::crc32(b""), 0);
}

#[test]
fn hex_is_read_back() {
    let id = [0xabu8; 20];
    let text = hash::to_hex(&id);
    assert_eq!(text, "ab".repeat(20));
    assert_eq!(hash::parse_hex(&text), Some(id));
    assert_eq!(hash::parse_hex(&format!("  {}\n", text)), Some(id));
    assert_eq!(oid::from_hex(&oid::to_hex(&id)), Some(id));
    assert_eq!(object_id::hex20(&object_id::to_hex(&id)), Some(id));
    assert_eq!(formats::hex_to_oid(&formats::oid_hex(&id)), Ok(id));
    assert_eq!(gitfmt::Oid::from_hex(&text).map(|o| o.0), Some(id));
    assert_eq!(gitbase::from_hex("0aFf"), Some(vec![0x0a, 0xff]));
    assert_eq!(gitbase::from_hex("0g"), None);
    assert_eq!(oid::from_hex("abc"), None);
    assert!(formats::hex_to_oid("zz").is_err());
    assert!(formats::hex_to_oid("abcd").is_err());
    assert!(types::parse_oid(" not an id ").is_err());
    assert_eq!(types::parse_oid(&format!(" {} ", text)).unwrap(), id);
    assert_eq!(kernel::engine::chain::read_hex_id(&text), id);
}

#[test]
fn delta_sizes_are_read_back() {
    for v in [0u64, 1, 127, 128, 300, 1 << 40, u64::MAX] {
        let mut out = Vec::new();
        gitenc::write_var_size(v, &mut out);
        assert_eq!(gitenc::read_var_size(&out, 0).unwrap(), (v, out.len()));
        assert_eq!(types::decode_delta_varint(&out).unwrap(), (v, out.len()));
        assert_eq!(types::encode_delta_varint(v), out);
        assert_eq!(kernel::git::read_delta_varint(&out, 0).unwrap(), (v, out.len()));
        assert_eq!(gitcore::parse_size_varint(&out, 0).unwrap(), (v, out.len()));
        assert_eq!(gitfmt::read_size_varint(&out, 0).unwrap(), (v, out.len()));
        assert_eq!(binformat::decode_size_varint(&out, 0).unwrap(), (v, out.len()));
        let mut pos = 0;
        assert_eq!(gitobj::read_size_varint(&out, &mut pos).unwrap(), v);
        assert_eq!(pos, out.len());
        let mut pos = 0;
        assert_eq!(gitbase::read_delta_varint(&out, &mut pos), Some(v));
        assert_eq!(pos, out.len());
    }
}

#[test]
fn a_size_of_eleven_bytes_is_too_long() {
    let long = [0x80u8; 11];
    assert!(gitcore::parse_size_varint(&long, 0).is_err());
    assert!(types::decode_delta_varint(&long).is_err());
    let mut pos = 0;
    assert!(gitobj::read_size_varint(&long, &mut pos).is_err());
    assert_eq!(pos, 10);
    assert!(gitenc::read_var_size(&long[..3], 0).is_err());
    assert!(gitfmt::read_size_varint(&[], 0).is_err());
}

#[test]
fn sizes_are_spelled_in_groups_of_seven_bits() {
    let mut out = Vec::new();
    formats::write_size_encoding(300, &mut out);
    assert_eq!(out, vec![0xac, 0x02]);
    assert_eq!(formats::read_size_encoding(&out, 0), Ok((300, 2)));
    assert!(formats::read_size_encoding(&[0x80], 0).is_err());
}

#[test]
fn distances_are_read_back() {
    for d in [0u64, 1, 127, 128, 16511, 16512, 1 << 33] {
        let bytes = types::encode_ofs_distance(d);
        assert_eq!(types::decode_ofs_distance(bytes[0], &bytes[1..]), (d, bytes.len()));
        assert_eq!(gitenc::read_ofs_distance(&bytes, 0).unwrap(), (d, bytes.len()));
        assert_eq!(gitfmt::read_ofs_varint(&bytes, 0).unwrap(), (d, bytes.len()));
    }
    assert_eq!(types::encode_ofs_distance(128), vec![0x80, 0x00]);
    assert_eq!(packtrace::git::read_ofs_distance(&[0x80, 0x00], 0).unwrap(), (128, 2));
    assert_eq!(kernel::git::read_ofs_distance(&[0x80, 0x00], 0).unwrap(), (128, 2));
    assert_eq!(gitcore::parse_ofs_distance(&[0x80, 0x00], 0).unwrap(), (128, 2));
    assert_eq!(binformat::decode_ofs_distance(&[0x80, 0x00], 0).unwrap(), (128, 2));
    assert!(gitcore::parse_ofs_distance(&[0x80], 0).is_err());
}

#[test]
fn entry_headers_are_read() {
    let head = types::encode_size(types::ObjType::Blob, 300);
    assert_eq!(head, vec![0xbc, 0x12]);
    assert_eq!(types::decode_size(head[0], &head[1..]), (300, 2));
    assert_eq!(gitcore::parse_entry_header(&head, 0).unwrap(), (3, 300, 2));
    assert_eq!(gitbase::read_entry_header(&head), Some((3, 300, 2)));
    assert_eq!(binformat::decode_pack_header(&head, 0).unwrap(), (3, 300, 2));
    assert_eq!(packtrace::git::read_pack_entry_header(&head, 0).unwrap(), (3, 300, 2));
    assert_eq!(
        kernel::git::read_entry_head(&head, 0).unwrap(),
        (kernel::git::EntryType::Base(kernel::git::GitType::Blob), 300, 2)
    );
    assert_eq!(gitbase::read_entry_header(&[]), None);
    assert!(gitcore::parse_entry_header(&[0xb0], 0).is_err());
}

#[test]
fn codes_and_names_of_kinds() {
    for t in [
        types::ObjType::Commit,
        types::ObjType::Tree,
        types::ObjType::Blob,
        types::ObjType::Tag,
    ] {
        assert_eq!(types::ObjType::from_loose_name(t.name()).unwrap(), t);
        assert_eq!(types::ObjType::from_pack_code(t.code().unwrap()).unwrap(), t);
    }
    assert!(types::ObjType::from_pack_code(5).is_err());
    assert!(types::ObjType::from_loose_name("file").is_err());
    assert_eq!(gitobj::ObjType::from_name("ofs_delta"), Some(gitobj::ObjType::OfsDelta));
    assert_eq!(gitobj::ObjType::from_code(5), None);
    assert_eq!(packtrace::engine::parse_kind("ref_delta"), Some(types::ObjType::RefDelta));
    assert_eq!(packtrace::engine::parse_kind(packtrace::engine::kind_str(types::ObjType::Tag)), Some(types::ObjType::Tag));
    assert_eq!(gitcore::type_from_name(gitcore::kind_name(2)), Some(2));
    assert_eq!(gitcore::type_from_name("ofs-delta"), None);
    assert!(gitcore::is_full_type(4) && !gitcore::is_full_type(6));
}

#[test]
fn a_delta_is_parsed_and_applied() {
    // Copies "hello " and inserts "Rust".
    let d = [11u8, 10, 0x90, 6, 4, b'R', b'u', b's', b't'];
    let p = delta::parse_delta(&d).unwrap();
    assert_eq!((p.base_size, p.result_size, p.instr_offset, p.ops.len()), (11, 10, 2, 2));
    assert_eq!((p.ops[0].kind, p.ops[0].base_offset, p.ops[0].len), ("copy", 0, 6));
    assert_eq!((p.ops[1].kind, p.ops[1].len), ("insert", 4));
    let (out, copied, inserted) = delta::apply_delta(&d, &p, b"hello world").unwrap();
    assert_eq!((out.as_slice(), copied, inserted), (b"hello Rust".as_slice(), 6, 4));
    let (out, info) = gitcore::apply_delta(b"hello world", &d, None).unwrap();
    assert_eq!(out, b"hello Rust");
    assert_eq!((info.copy_count, info.insert_count, info.instr_offset), (1, 1, 2));
    let out = packtrace::git::delta::apply_delta(b"hello world", &d).unwrap();
    assert_eq!(out.output, b"hello Rust");
    let (out, cmds, header) = kernel::delta::apply_delta(b"hello world", &d, 100, 100).unwrap();
    assert_eq!((out.as_slice(), cmds.len(), header.target_size), (b"hello Rust".as_slice(), 2, 10));
}

#[test]
fn bad_deltas_are_refused() {
    // The base has another size.
    let d = [11u8, 10, 0x90, 6, 4, b'R', b'u', b's', b't'];
    let p = delta::parse_delta(&d).unwrap();
    assert_eq!(
        delta::apply_delta(&d, &p, b"hello").unwrap_err(),
        "delta base size mismatch: delta expects 11, base is 5"
    );
    assert!(gitcore::apply_delta(b"hello", &d, None).is_err());
    assert!(packtrace::git::delta::apply_delta(b"hello", &d).is_err());
    // The instruction zero is reserved.
    assert!(delta::parse_delta(&[1, 1, 0]).is_err());
    assert!(packtrace::git::delta::apply_delta(b"a", &[1, 1, 0]).is_err());
    // A copy past the end of the base.
    let past = [3u8, 4, 0x91, 1, 4];
    let p = delta::parse_delta(&past).unwrap();
    assert_eq!(
        delta::apply_delta(&past, &p, b"abc").unwrap_err(),
        "copy [1, 5) exceeds base length 3"
    );
    // An insert that the bytes do not hold.
    assert!(delta::parse_delta(&[1, 5, 5, b'a']).is_err());
    // A header without its second size.
    assert!(delta::parse_delta(&[1]).is_err());
}

#[test]
fn a_delta_waits_for_budget() {
    let d = [11u8, 10, 0x90, 6, 4, b'R', b'u', b's', b't'];
    let e = kernel::delta::apply_delta(b"hello world", &d, 9, 100).unwrap_err();
    assert!(matches!(
        e,
        kernel::delta::DeltaError::BudgetPaused {
            target_size: 10,
            reason: kernel::delta::PauseReason::SingleObject
        }
    ));
    let e = kernel::delta::apply_delta(b"hello world", &d, 100, 9).unwrap_err();
    assert!(matches!(
        e,
        kernel::delta::DeltaError::BudgetPaused {
            target_size: 10,
            reason: kernel::delta::PauseReason::TotalBytes
        }
    ));
}

#[test]
fn streams_are_inflated_up_to_their_end() {
    let data = b"some content that repeats, repeats, repeats".to_vec();
    let mut z = formats::zlib_deflate(&data);
    let n = z.len();
    z.extend_from_slice(&[7, 7, 7]);
    let (out, used, note) = formats::zlib_inflate_from(&z, 0).unwrap();
    assert_eq!((out.as_slice(), used), (data.as_slice(), n));
    assert!(note.is_none());
    let o = gitcore::inflate_zlib(&z, 0, None).unwrap();
    assert_eq!((o.output.as_slice(), o.consumed, o.complete), (data.as_slice(), n, true));
    let o = gitcore::inflate_zlib(&z[..n - 3], 0, None).unwrap();
    assert!(!o.complete);
    let o = gitcore::inflate_zlib(&z, 0, Some(5)).unwrap();
    assert!(o.budget_exceeded);
    let (out, range) = packtrace::git::zdec::inflate_one(&z, 0, data.len() as u64, 1000).unwrap();
    assert_eq!((out.as_slice(), range.compressed_end), (data.as_slice(), n));
    assert_eq!(
        packtrace::git::zdec::inflate_one(&z, 0, 5, 1000).unwrap_err(),
        "size spoof: header declared 5 bytes but zlib produced 43"
    );
    assert!(packtrace::git::zdec::inflate_unbounded(&z, 0, 10).is_err());
    let o = packtrace::git::zlib::inflate_one(&z, 5, 1000).unwrap();
    assert!(o.size_mismatch && o.consumed == n);
    assert_eq!(packtrace::git::zlib::inflate_one(&z[..n - 3], 43, 1000).unwrap_err().code, "zlib_truncated");
    assert_eq!(packtrace::git::zlib::inflate_one(b"not zlib", 43, 1000).unwrap_err().code, "zlib_corrupt");
    let o = packtrace::git::inflate::inflate_once(&z, 1000).unwrap();
    assert_eq!((o.data.as_slice(), o.consumed), (data.as_slice(), n));
    assert!(packtrace::git::inflate::inflate_once(&z, 10).is_err());
    let (out, used) = packtrace::git::inflate_one(&z, 0).unwrap();
    assert_eq!((out.as_slice(), used), (data.as_slice(), n));
    let o = kernel::inflate::inflate_stream(&z, 0, 43).unwrap();
    assert_eq!((o.data.as_slice(), o.consumed), (data.as_slice(), n));
}

#[test]
fn the_other_decoder_reads_what_its_encoder_wrote() {
    let data = b"abcabcabcabc".repeat(50);
    let mut z = gitfmt::zlib::deflate(&data);
    let n = z.len();
    z.push(9);
    let o = gitfmt::zlib::inflate_at(&z, 0, Some(600), 10_000).unwrap();
    assert_eq!((o.data.as_slice(), o.compressed_len), (data.as_slice(), n));
    assert!(o.size_mismatch.is_none());
    let o = gitfmt::zlib::inflate_at(&z, 0, Some(5), 10_000).unwrap();
    assert_eq!(o.size_mismatch, Some((5, 600)));
    assert!(matches!(
        gitfmt::zlib::inflate_at(&z, 0, None, 10),
        Err(gitfmt::zlib::InflateError::CapExceeded { cap: 10 })
    ));
    assert!(matches!(
        gitfmt::zlib::inflate_at(b"garbage", 0, None, 10),
        Err(gitfmt::zlib::InflateError::BadStream(_))
    ));
}

#[test]
fn loose_objects_are_read() {
    let z = packtrace::fixtures::build_loose("blob", b"hi");
    let id = packtrace::fixtures::blob_oid(b"hi");
    let p = loose::parse_loose(&z);
    assert_eq!((p.kind_name.as_str(), p.data.as_slice(), p.declared_size), ("blob", b"hi".as_slice(), 2));
    assert_eq!(p.computed_oid, id);
    assert!(p.error.is_none());
    let p = gitcore::parse_loose(&z).unwrap();
    assert_eq!((p.obj_type, p.content.as_slice(), p.oid), (3, b"hi".as_slice(), id));
    let p = kernel::loose::parse_loose(&z, Some(id));
    assert_eq!(p.content.unwrap(), b"hi");
    let spoofed = packtrace::fixtures::build_loose_fake_size("blob", b"hi", 5);
    assert!(loose::parse_loose(&spoofed).error.is_some());
    assert!(kernel::loose::parse_loose(&spoofed, None).content.is_err());
    let cut = packtrace::fixtures::build_loose_truncated("blob", b"hi", 4);
    assert!(loose::parse_loose(&cut).error.is_some());
    assert!(gitcore::parse_loose(&cut).is_err());
    let odd = packtrace::fixtures::build_loose("fi\"le", b"hi");
    assert!(loose::parse_loose(&odd).error.unwrap().contains("\"fi\\\"le\""));
}

#[test]
fn frames_are_parsed() {
    let (t, body) = gitfmt::parse_loose_frame(b"blob 2\0hi").unwrap();
    assert_eq!((t, body.as_slice()), (gitfmt::ObjType::Blob, b"hi".as_slice()));
    assert!(gitfmt::parse_loose_frame(b"blob 3\0hi").is_err());
    assert!(gitfmt::parse_loose_frame(b"blob two\0hi").is_err());
    assert!(gitfmt::parse_loose_frame(b"\xff\xfe 2\0hi").is_err());
    assert!(gitfmt::parse_loose_frame(b"blob 2").is_err());
    let (t, body) = packtrace::git::object::parse_object_frame(b"tag 1\0x").unwrap();
    assert_eq!((t, body.as_slice()), (packtrace::git::object::ObjType::Tag, b"x".as_slice()));
    assert!(packtrace::git::object::parse_object_frame(b"\xff 1\0x").is_err());
}

#[test]
fn paths_name_loose_objects() {
    let id = [0x12u8; 20];
    let hex = "12".repeat(20);
    let path = format!("{}/{}", &hex[..2], &hex[2..]);
    assert_eq!(kernel::loose::oid_from_relpath(&path), Some(id));
    assert_eq!(kernel::loose::oid_from_relpath("objects/pack/x.pack"), None);
    assert_eq!(packtrace::engine::importer::loose_filename_oid(&hex), Some(hex.clone()));
    assert_eq!(packtrace::engine::importer::loose_filename_oid("readme"), None);
}

#[test]
fn contents_are_previewed() {
    let p = packtrace::api::preview(b"plain text");
    assert_eq!((p.text.as_str(), p.is_text), ("plain text", true));
    let p = packtrace::api::preview(b"a\xffb");
    assert_eq!((p.text.as_str(), p.is_text), ("a\u{fffd}b", false));
    let p = packtrace::api::preview("é".repeat(3000).as_bytes());
    assert_eq!(p.text.chars().count(), 2000);
    assert_eq!(packtrace::api::remaining(10, 12), -2);
}

#[test]
fn errors_have_codes_and_messages() {
    let e = error::Error::SizeMismatch { declared: 5, actual: 7 };
    assert_eq!(e.message(), "declared size 5 does not match actual inflated size 7 (size spoof)");
    assert_eq!(error::code_of(&e), "size_spoof");
    let e = error::Error::DeltaCycle(vec!["a".to_string(), "b".to_string()]);
    assert_eq!(e.message(), "delta cycle detected: a -> b");
    assert_eq!(error::code_of(&e), "delta_cycle");
    let e = error::Error::CrcMismatch { at: 12, expected: 1, actual: 0xdeadbeef };
    assert_eq!(e.message(), "crc32 mismatch at offset 12: index says 00000001, data computes deadbeef");
    let e = error::Error::MissingBase("x".to_string());
    assert_eq!((e.message().as_str(), error::code_of(&e)), ("missing external base x", "missing_base"));
}

#[test]
fn a_member_that_fills_the_room_of_a_call_is_read_back() {
    for n in [0usize, 1, 16383, 16384] {
        let content: Vec<u8> = (0..n).map(|i| (i * i % 251) as u8).collect();
        let mut z = packtrace::formats::zlib_deflate(&content);
        let end = z.len();
        z.extend_from_slice(b"after");
        let o = packtrace::git::inflate::inflate_once(&z, n).unwrap();
        assert_eq!((o.data, o.consumed), (content, end));
    }
}
