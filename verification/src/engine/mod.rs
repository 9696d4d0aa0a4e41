//! The settlement engine: names of kinds, ranks of candidates and limits.
use vstd::prelude::*;
use vstd::string::StringExecFns;
use vstd::utf8::{encode_utf8, is_ascii_chars_encode_utf8};
use crate::engine::resolve::key_less;
use crate::git::types::ObjType;
use crate::model::num::{ascii_bytes, int_padded, padded_numbers_keep_their_order, push_int_padded, ten_to};
use crate::model::outside::{hex_encode, sha256, sha256_of};
use crate::model::sort::{bytes_less, lemma_less_concat, order_is_total};
use crate::model::text::{dec, dec_padded, digit_char, hex, push_dec, same_text};

pub mod import;
pub mod importer;
pub mod inspect;
pub mod laws;
pub mod matching;
pub mod outcomes;
pub mod pairing;
pub mod prune;
pub mod rebuild;
pub mod rerun;
pub mod resolve;
pub mod sources;
pub mod views;

verus! {

pub const DEFAULT_MAX_DEPTH: i64 = 50;

pub const DEFAULT_MAX_TOTAL_EXPAND: i64 = 0x1000_0000;

pub const DEFAULT_SINGLE_OBJECT_RATIO: i64 = 10;

pub const HARD_INFLATE_CAP: usize = 0x2000_0000;

#[derive(Clone, Copy, Debug)]
pub struct Budget {
    pub max_depth: i64,
    pub max_total_expand: i64,
    pub single_object_ratio: i64,
}

/// The name of a kind in the tables.
pub open spec fn kind_text(t: ObjType) -> Seq<char> {
    match t {
        ObjType::Commit => "commit"@,
        ObjType::Tree => "tree"@,
        ObjType::Blob => "blob"@,
        ObjType::Tag => "tag"@,
        ObjType::OfsDelta => "ofs_delta"@,
        ObjType::RefDelta => "ref_delta"@,
    }
}

/// The kind that a name of the tables stands for.
pub open spec fn kind_of(s: Seq<char>) -> Option<ObjType> {
    if s == "commit"@ {
        Some(ObjType::Commit)
    } else if s == "tree"@ {
        Some(ObjType::Tree)
    } else if s == "blob"@ {
        Some(ObjType::Blob)
    } else if s == "tag"@ {
        Some(ObjType::Tag)
    } else if s == "ofs_delta"@ {
        Some(ObjType::OfsDelta)
    } else if s == "ref_delta"@ {
        Some(ObjType::RefDelta)
    } else {
        None
    }
}

pub fn kind_str(t: ObjType) -> (s: &'static str)
    ensures
        s@ == kind_text(t),
{
    match t {
        ObjType::Commit => "commit",
        ObjType::Tree => "tree",
        ObjType::Blob => "blob",
        ObjType::Tag => "tag",
        ObjType::OfsDelta => "ofs_delta",
        ObjType::RefDelta => "ref_delta",
    }
}

pub fn parse_kind(s: &str) -> (r: Option<ObjType>)
    ensures
        r == kind_of(s@),
{
    if same_text(s, "commit") {
        Some(ObjType::Commit)
    } else if same_text(s, "tree") {
        Some(ObjType::Tree)
    } else if same_text(s, "blob") {
        Some(ObjType::Blob)
    } else if same_text(s, "tag") {
        Some(ObjType::Tag)
    } else if same_text(s, "ofs_delta") {
        Some(ObjType::OfsDelta)
    } else if same_text(s, "ref_delta") {
        Some(ObjType::RefDelta)
    } else {
        None
    }
}

/// A kind is read back from its name.
pub proof fn kinds_are_read_back(t: ObjType)
    ensures
        kind_of(kind_text(t)) == Some(t),
{
    reveal_strlit("commit");
    reveal_strlit("tree");
    reveal_strlit("blob");
    reveal_strlit("tag");
    reveal_strlit("ofs_delta");
    reveal_strlit("ref_delta");
    assert("commit"@.len() == 6 && "tree"@.len() == 4 && "blob"@.len() == 4 && "tag"@.len() == 3);
    assert("ofs_delta"@.len() == 9 && "ref_delta"@.len() == 9);
    assert("tree"@[0] == 't' && "blob"@[0] == 'b');
    assert("ofs_delta"@[0] == 'o' && "ref_delta"@[0] == 'r');
}

pub fn sha256_hex(data: &[u8]) -> (s: String)
    ensures
        s@ == hex(sha256_of(data@)),
{
    let sum = sha256(data);
    hex_encode(sum.as_slice())
}

/// How trustworthy a candidate is; the lowest tier wins.
pub open spec fn tier_of(origin: Seq<char>, idx_present: bool, crc_ok: Option<bool>) -> nat {
    if origin == "index"@ && idx_present && crc_ok == Some(true) {
        0
    } else if origin == "index"@ && idx_present && crc_ok == Some(false) {
        1
    } else if origin == "computed"@ && idx_present {
        2
    } else if origin == "computed"@ {
        3
    } else if origin == "index"@ && !idx_present {
        9
    } else {
        5
    }
}

/// The key by which candidates are ordered.
pub open spec fn rank_text(
    origin: Seq<char>,
    idx_present: bool,
    crc_ok: Option<bool>,
    source_id: i64,
    offset: Option<i64>,
) -> Seq<char> {
    dec(tier_of(origin, idx_present, crc_ok)) + ":"@ + int_padded(source_id as int, 10) + ":"@ + int_padded(
        match offset {
            Some(o) => o as int,
            None => i64::MAX as int,
        },
        20,
    )
}

/// Deterministic candidate ordering. The import order never participates.
pub fn candidate_rank_key(
    origin: &str,
    idx_present: bool,
    crc_ok: Option<bool>,
    source_id: i64,
    offset: Option<i64>,
) -> (s: String)
    ensures
        s@ == rank_text(origin@, idx_present, crc_ok, source_id, offset),
{
    proof {
        reveal_strlit("index");
        reveal_strlit("computed");
        assert("index"@.len() == 5 && "computed"@.len() == 8);
    }
    let index: bool = same_text(origin, "index");
    let computed: bool = same_text(origin, "computed");
    let tier: u64 = if index {
        if idx_present {
            match crc_ok {
                Some(true) => 0,
                Some(false) => 1,
                None => 5,
            }
        } else {
            9
        }
    } else if computed {
        if idx_present {
            2
        } else {
            3
        }
    } else {
        5
    };
    let mut s = String::new();
    push_dec(&mut s, tier);
    s.append(":");
    push_int_padded(&mut s, source_id, 10);
    s.append(":");
    push_int_padded(
        &mut s,
        match offset {
            Some(o) => o,
            None => i64::MAX,
        },
        20,
    );
    proof {
        assert(s@ =~= rank_text(origin@, idx_present, crc_ok, source_id, offset));
    }
    s
}

/// The offset by which a key is ordered: a missing one is the largest.
pub open spec fn ranked_offset(offset: Option<i64>) -> int {
    match offset {
        Some(o) => o as int,
        None => i64::MAX as int,
    }
}

proof fn lemma_key_bytes(tier: nat, source_id: i64, offset: Option<i64>)
    requires
        tier < 10,
        0 <= source_id < 10_000_000_000,
        offset matches Some(o) ==> o >= 0,
    ensures
        ({
            let t = dec(tier);
            let s = dec_padded(source_id as nat, 10);
            let p = dec_padded(ranked_offset(offset) as nat, 20);
            &&& encode_utf8(t + ":"@ + int_padded(source_id as int, 10) + ":"@ + int_padded(ranked_offset(offset), 20))
                == ascii_bytes(t) + (seq![58u8] + (ascii_bytes(s) + (seq![58u8] + ascii_bytes(p))))
            &&& ascii_bytes(t) == seq![(48 + tier) as u8]
            &&& s.len() == 10 && source_id < ten_to(10)
            &&& p.len() == 20 && ranked_offset(offset) < ten_to(20)
        }),
{
    reveal_with_fuel(ten_to, 21);
    reveal_strlit(":");
    let t = dec(tier);
    let s = dec_padded(source_id as nat, 10);
    let p = dec_padded(ranked_offset(offset) as nat, 20);
    padded_numbers_keep_their_order(source_id as nat, source_id as nat, 10);
    padded_numbers_keep_their_order(ranked_offset(offset) as nat, ranked_offset(offset) as nat, 20);
    let key = t + ":"@ + s + ":"@ + p;
    assert(t =~= seq![digit_char(tier)]);
    assert forall|i: int| 0 <= i < key.len() implies '\0' <= #[trigger] key[i] <= '\u{7f}' by {
        if i == 0 {
            assert(key[i] == t[0]);
        } else if i == 1 {
            assert(key[i] == ':');
        } else if i < 12 {
            assert(key[i] == s[i - 2]);
        } else if i == 12 {
            assert(key[i] == ':');
        } else {
            assert(key[i] == p[i - 13]);
        }
    }
    is_ascii_chars_encode_utf8(key);
    let bytes = ascii_bytes(t) + (seq![58u8] + (ascii_bytes(s) + (seq![58u8] + ascii_bytes(p))));
    assert(encode_utf8(key) =~= bytes) by {
        assert forall|i: int| 0 <= i < key.len() implies encode_utf8(key)[i] == #[trigger] bytes[i] by {
            assert(encode_utf8(key)[i] == key[i] as u8);
            if i == 0 {
                assert(key[i] == t[0]);
            } else if i == 1 || i == 12 {
                assert(key[i] == ':');
            } else if i < 12 {
                assert(key[i] == s[i - 2]);
            } else {
                assert(key[i] == p[i - 13]);
            }
        }
    }
    assert(ascii_bytes(t) =~= seq![(48 + tier) as u8]);
}

/// Comparing two keys as texts compares the tier, then the source, then the offset, as numbers. So
/// a missing offset comes last within its source, and what an index names with a sound checksum
/// comes before everything else.
pub proof fn keys_are_ordered_as_numbers(
    origins: (Seq<char>, Seq<char>),
    present: (bool, bool),
    crcs: (Option<bool>, Option<bool>),
    sources: (i64, i64),
    offsets: (Option<i64>, Option<i64>),
)
    requires
        0 <= sources.0 < 10_000_000_000,
        0 <= sources.1 < 10_000_000_000,
        offsets.0 matches Some(o) ==> o >= 0,
        offsets.1 matches Some(o) ==> o >= 0,
    ensures
        ({
            let a = tier_of(origins.0, present.0, crcs.0);
            let b = tier_of(origins.1, present.1, crcs.1);
            key_less(
                rank_text(origins.0, present.0, crcs.0, sources.0, offsets.0),
                rank_text(origins.1, present.1, crcs.1, sources.1, offsets.1),
            ) <==> (a < b || (a == b && (sources.0 < sources.1 || (sources.0 == sources.1 && ranked_offset(
                offsets.0,
            ) < ranked_offset(offsets.1)))))
        }),
{
    let a = tier_of(origins.0, present.0, crcs.0);
    let b = tier_of(origins.1, present.1, crcs.1);
    let m = ranked_offset(offsets.0) as nat;
    let n = ranked_offset(offsets.1) as nat;
    lemma_key_bytes(a, sources.0, offsets.0);
    lemma_key_bytes(b, sources.1, offsets.1);
    padded_numbers_keep_their_order(sources.0 as nat, sources.1 as nat, 10);
    padded_numbers_keep_their_order(m, n, 20);
    let colon = seq![58u8];
    let s0 = ascii_bytes(dec_padded(sources.0 as nat, 10));
    let s1 = ascii_bytes(dec_padded(sources.1 as nat, 10));
    let p0 = ascii_bytes(dec_padded(m, 20));
    let p1 = ascii_bytes(dec_padded(n, 20));
    let t0 = seq![(48 + a) as u8];
    let t1 = seq![(48 + b) as u8];
    lemma_less_concat(colon, colon, p0, p1);
    lemma_less_concat(s0, s1, colon + p0, colon + p1);
    lemma_less_concat(colon, colon, s0 + (colon + p0), s1 + (colon + p1));
    lemma_less_concat(t0, t1, colon + (s0 + (colon + p0)), colon + (s1 + (colon + p1)));
    order_is_total(colon, colon);
    reveal_with_fuel(bytes_less, 2);
    assert(t0[0] == 48 + a && t1[0] == 48 + b);
    assert(bytes_less(t0, t1) <==> a < b);
    assert(t0 == t1 <==> a == b);
}

} // verus!
