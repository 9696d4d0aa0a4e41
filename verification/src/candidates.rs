//! Candidate table construction.
//!
//! Every possible provider of an object id is a *candidate*: a loose object, a
//! non-delta pack entry (whose oid is recomputed from content), a delta pack
//! entry (whose claimed oid is only known via an index), or an idx-only claim.
//! Ranking keys are content-derived (verification status, content hash, source
//! id, offset) so the final ordering never depends on import order.
use vstd::prelude::*;
use vstd::string::StringExecFns;
use crate::git::{git_object_id, GitType};
use crate::model::idset::ascending_lists_are_sets;
use crate::model::object::object_frame;
use crate::model::outside::{hex_encode, sha1_smol_of};
use crate::model::text::{dec, dec_int, hex, push_dec, push_int, same_text};

verus! {

#[derive(Debug)]
pub struct Candidate {
    pub id: i64,
    pub oid: String,
    pub kind: String,
    pub source_id: i64,
    pub pack_entry_id: Option<i64>,
    pub offset: Option<i64>,
    pub object_type: Option<String>,
    pub content_sha256: Option<String>,
    pub quality_rank: i64,
    pub parse_problem: bool,
    pub crc_matches: Option<bool>,
    pub idx_pack_mismatch: bool,
    pub note: Option<String>,
}

/// A parsed pack entry.
pub struct PackRow {
    pub entry_id: i64,
    pub source_id: i64,
    pub ordinal: i64,
    pub offset: i64,
    pub object_type: String,
    pub content_sha256: String,
    /// The inflated data, where it could be read.
    pub body: Option<Vec<u8>>,
    pub crc32: i64,
    pub parse_error: Option<String>,
    pub size_ok: bool,
    pub adler_ok: bool,
}

/// A parsed loose object.
pub struct LooseRow {
    pub source_id: i64,
    pub computed_oid: String,
    pub content_sha256: String,
}

/// One claim of an index.
pub struct IdxRow {
    pub idx_source_id: i64,
    pub oid: String,
    pub crc32: i64,
    pub offset: i64,
}

/// An index and the checksum of the pack it describes.
pub struct IdxInfo {
    pub source_id: i64,
    pub pack_checksum: String,
}

/// A pack and its checksum.
pub struct PackInfo {
    pub source_id: i64,
    pub trailer: String,
}

/// The parsed sources that candidates are built from.
pub struct Tables {
    pub packs: Vec<PackInfo>,
    pub indexes: Vec<IdxInfo>,
    pub loose: Vec<LooseRow>,
    /// The pack entries by source and ordinal.
    pub entries: Vec<PackRow>,
    pub claims: Vec<IdxRow>,
}

/// A candidate that is to be stored.
pub struct NewCandidate {
    pub oid: String,
    pub kind: &'static str,
    pub source_id: i64,
    pub pack_entry_id: Option<i64>,
    pub loose_source_id: Option<i64>,
    pub offset: Option<i64>,
    pub idx_source_id: Option<i64>,
    pub idx_crc32: Option<i64>,
    pub entry_crc32: Option<i64>,
    pub content_sha256: Option<String>,
    pub quality_rank: i64,
    pub parse_problem: bool,
    pub crc_matches: Option<bool>,
    pub idx_pack_mismatch: bool,
    pub node_key: Option<String>,
    pub note: String,
}

/// The model of a candidate that is to be stored.
pub ghost struct NewModel {
    pub oid: Seq<char>,
    pub kind: Seq<char>,
    pub source_id: i64,
    pub pack_entry_id: Option<i64>,
    pub loose_source_id: Option<i64>,
    pub offset: Option<i64>,
    pub idx_source_id: Option<i64>,
    pub idx_crc32: Option<i64>,
    pub entry_crc32: Option<i64>,
    pub content_sha256: Option<Seq<char>>,
    pub quality_rank: i64,
    pub parse_problem: bool,
    pub crc_matches: Option<bool>,
    pub idx_pack_mismatch: bool,
    pub node_key: Option<Seq<char>>,
    pub note: Seq<char>,
}

impl View for NewCandidate {
    type V = NewModel;

    open spec fn view(&self) -> NewModel {
        NewModel {
            oid: self.oid@,
            kind: self.kind@,
            source_id: self.source_id,
            pack_entry_id: self.pack_entry_id,
            loose_source_id: self.loose_source_id,
            offset: self.offset,
            idx_source_id: self.idx_source_id,
            idx_crc32: self.idx_crc32,
            entry_crc32: self.entry_crc32,
            content_sha256: match self.content_sha256 {
                Some(s) => Some(s@),
                None => None,
            },
            quality_rank: self.quality_rank,
            parse_problem: self.parse_problem,
            crc_matches: self.crc_matches,
            idx_pack_mismatch: self.idx_pack_mismatch,
            node_key: match self.node_key {
                Some(s) => Some(s@),
                None => None,
            },
            note: self.note@,
        }
    }
}

/// The models of candidates that are to be stored.
pub open spec fn new_models(v: Seq<NewCandidate>) -> Seq<NewModel> {
    v.map_values(|c: NewCandidate| c@)
}

/// The node key of a pack entry.
pub open spec fn pack_key(source_id: i64, ordinal: i64) -> Seq<char> {
    "pack:"@ + dec_int(source_id as int) + ":"@ + dec_int(ordinal as int)
}

pub fn pack_node_key(source_id: i64, ordinal: i64) -> (s: String)
    ensures
        s@ == pack_key(source_id, ordinal),
{
    let mut s = "pack:".to_owned();
    push_int(&mut s, source_id);
    s.append(":");
    push_int(&mut s, ordinal);
    s
}

pub fn loose_node_key(source_id: i64) -> (s: String)
    ensures
        s@ == "loose:"@ + dec_int(source_id as int),
{
    let mut s = "loose:".to_owned();
    push_int(&mut s, source_id);
    s
}

/// The pack whose checksum is `checksum`; of several, the one that was imported first.
pub open spec fn pack_with(packs: Seq<PackInfo>, checksum: Seq<char>) -> Option<i64>
    decreases packs.len(),
{
    if packs.len() == 0 {
        None
    } else {
        let found = pack_with(packs.drop_last(), checksum);
        let last = packs.last();
        if last.trailer@ == checksum && !(found matches Some(p) && p <= last.source_id) {
            Some(last.source_id)
        } else {
            found
        }
    }
}

/// The pack that an index describes: the one whose checksum the index names.
pub open spec fn pack_of(packs: Seq<PackInfo>, indexes: Seq<IdxInfo>, idx: i64) -> Option<i64>
    decreases indexes.len(),
{
    if indexes.len() == 0 {
        None
    } else if indexes.last().source_id == idx {
        pack_with(packs, indexes.last().pack_checksum@)
    } else {
        pack_of(packs, indexes.drop_last(), idx)
    }
}

/// The packs that the claims are about.
pub open spec fn homes(t: Tables) -> Seq<Option<i64>> {
    t.claims@.map_values(|c: IdxRow| pack_of(t.packs@, t.indexes@, c.idx_source_id))
}

/// The numbers of the claims about an offset of a pack, among the first `n`.
pub open spec fn claims_at(t: Tables, pack: i64, offset: i64, n: nat) -> Seq<int>
    decreases n,
{
    if n == 0 {
        Seq::empty()
    } else {
        let before = claims_at(t, pack, offset, (n - 1) as nat);
        if homes(t)[n - 1] == Some(pack) && t.claims@[n - 1].offset == offset {
            before.push(n - 1)
        } else {
            before
        }
    }
}

/// What a claim says of an entry with a CRC: its index, its CRC, and whether the two agree.
pub open spec fn said(c: IdxRow, crc32: i64) -> (Option<i64>, Option<i64>, Option<bool>) {
    (Some(c.idx_source_id), Some(c.crc32), Some(c.crc32 == crc32))
}

/// A claim is heard before another: that of the index that was imported first, then that of the
/// lower CRC.
pub open spec fn heard_before(a: IdxRow, b: IdxRow) -> bool {
    a.idx_source_id < b.idx_source_id || (a.idx_source_id == b.idx_source_id && a.crc32 < b.crc32)
}

/// The number of the claim that is heard before the others.
pub open spec fn first_heard(t: Tables, claims: Seq<int>) -> int
    decreases claims.len(),
{
    if claims.len() <= 1 {
        claims[0]
    } else {
        let k = first_heard(t, claims.drop_last());
        if heard_before(t.claims@[claims.last()], t.claims@[k]) {
            claims.last()
        } else {
            k
        }
    }
}

/// What the indexes say of an entry.
pub open spec fn evidence(t: Tables, claims: Seq<int>, crc32: i64) -> (Option<i64>, Option<i64>, Option<bool>) {
    if claims.len() == 0 {
        (None, None, None)
    } else {
        said(t.claims@[first_heard(t, claims)], crc32)
    }
}

/// The object type that a name stands for; a blob when it stands for none.
pub open spec fn type_of(name: Seq<char>) -> GitType {
    if name == "ofs-delta"@ {
        GitType::OfsDelta
    } else if name == "ref-delta"@ {
        GitType::RefDelta
    } else {
        match GitType::of_text(name) {
            Some(t) => t,
            None => GitType::Blob,
        }
    }
}

/// An entry was not parsed cleanly.
pub open spec fn has_problem(e: PackRow) -> bool {
    e.parse_error is Some || !e.size_ok || !e.adler_ok
}

/// The candidate of a loose object.
pub open spec fn loose_candidate(l: LooseRow) -> NewModel {
    NewModel {
        oid: l.computed_oid@,
        kind: "loose"@,
        source_id: l.source_id,
        pack_entry_id: None,
        loose_source_id: Some(l.source_id),
        offset: None,
        idx_source_id: None,
        idx_crc32: None,
        entry_crc32: None,
        content_sha256: Some(l.content_sha256@),
        quality_rank: 10,
        parse_problem: false,
        crc_matches: None,
        idx_pack_mismatch: false,
        node_key: None,
        note: "loose object oid recomputed from content"@,
    }
}

/// A candidate of a pack entry, with what the indexes say of it.
pub open spec fn entry_candidate(
    e: PackRow,
    oid: Seq<char>,
    kind: Seq<char>,
    said: (Option<i64>, Option<i64>, Option<bool>),
    rank: i64,
    problem: bool,
    note: Seq<char>,
) -> NewModel {
    NewModel {
        oid,
        kind,
        source_id: e.source_id,
        pack_entry_id: Some(e.entry_id),
        loose_source_id: None,
        offset: Some(e.offset),
        idx_source_id: said.0,
        idx_crc32: said.1,
        entry_crc32: Some(e.crc32),
        content_sha256: Some(e.content_sha256@),
        quality_rank: rank,
        parse_problem: problem,
        crc_matches: said.2,
        idx_pack_mismatch: false,
        node_key: Some(pack_key(e.source_id, e.ordinal)),
        note,
    }
}

/// The candidate of an entry that an index names: a delta, or a base entry whose content could not
/// be inflated.
pub open spec fn claimed_candidate(e: PackRow, c: IdxRow, delta: bool) -> NewModel {
    if delta {
        entry_candidate(
            e,
            c.oid@,
            "pack_delta"@,
            said(c, e.crc32),
            if has_problem(e) {
                90
            } else {
                40
            },
            has_problem(e),
            "oid claimed by index at offset "@ + dec_int(e.offset as int) + "; resolved through delta chain"@,
        )
    } else {
        entry_candidate(
            e,
            c.oid@,
            "pack_base"@,
            said(c, e.crc32),
            95,
            true,
            "oid taken from index; content could not be inflated"@,
        )
    }
}

/// The candidates of an entry that indexes name.
pub open spec fn claimed_candidates(t: Tables, e: PackRow, claims: Seq<int>, delta: bool) -> Seq<NewModel> {
    claims.map_values(|k: int| claimed_candidate(e, t.claims@[k], delta))
}

/// The candidates of a pack entry.
pub open spec fn entry_candidates(t: Tables, e: PackRow) -> Seq<NewModel> {
    let kind = type_of(e.object_type@);
    let claims = claims_at(t, e.source_id, e.offset, t.claims@.len());
    if !kind.delta() {
        match e.body {
            Some(body) => seq![
                entry_candidate(
                    e,
                    hex(sha1_smol_of(object_frame(kind.text(), body@))),
                    "pack_base"@,
                    evidence(t, claims, e.crc32),
                    if has_problem(e) {
                        90
                    } else {
                        30
                    },
                    has_problem(e),
                    "oid recomputed from inflated "@ + kind.text() + " body ("@ + dec(body@.len()) + " bytes)"@,
                ),
            ],
            None => claimed_candidates(t, e, claims, false),
        }
    } else if claims.len() == 0 {
        seq![
            entry_candidate(
                e,
                "unresolved:"@ + pack_key(e.source_id, e.ordinal),
                "pack_delta"@,
                (None, None, None),
                80,
                has_problem(e),
                "delta has no index claim; awaiting base chain resolution"@,
            ),
        ]
    } else {
        claimed_candidates(t, e, claims, true)
    }
}

/// A candidate that only an index claims.
pub open spec fn claim_candidate(c: IdxRow, rank: i64, mismatch: bool, note: Seq<char>) -> NewModel {
    NewModel {
        oid: c.oid@,
        kind: "idx_only"@,
        source_id: c.idx_source_id,
        pack_entry_id: None,
        loose_source_id: None,
        offset: Some(c.offset),
        idx_source_id: Some(c.idx_source_id),
        idx_crc32: Some(c.crc32),
        entry_crc32: None,
        content_sha256: None,
        quality_rank: rank,
        parse_problem: false,
        crc_matches: None,
        idx_pack_mismatch: mismatch,
        node_key: None,
        note,
    }
}

/// The candidates of the first `n` loose objects.
pub open spec fn loose_part(t: Tables, n: nat) -> Seq<NewModel> {
    Seq::new(n, |i: int| loose_candidate(t.loose@[i]))
}

/// The candidates of the first `n` pack entries.
pub open spec fn entry_part(t: Tables, n: nat) -> Seq<NewModel>
    decreases n,
{
    if n == 0 {
        Seq::empty()
    } else {
        entry_part(t, (n - 1) as nat) + entry_candidates(t, t.entries@[n - 1])
    }
}

/// The candidates of the claims among the first `n` whose index describes no known pack.
pub open spec fn stray_part(t: Tables, n: nat) -> Seq<NewModel>
    decreases n,
{
    if n == 0 {
        Seq::empty()
    } else if homes(t)[n - 1] is None {
        stray_part(t, (n - 1) as nat).push(
            claim_candidate(
                t.claims@[n - 1],
                70,
                true,
                "index claim without a pack whose checksum matches"@,
            ),
        )
    } else {
        stray_part(t, (n - 1) as nat)
    }
}

/// An entry stands at an offset of a pack.
pub open spec fn has_entry(t: Tables, pack: i64, offset: i64) -> bool {
    exists|i: int|
        0 <= i < t.entries@.len() && (#[trigger] t.entries@[i]).source_id == pack && t.entries@[i].offset
            == offset
}

/// The candidates of the claims about `pack`, among the first `n`, that point at no entry.
pub open spec fn lost_claims(t: Tables, pack: i64, n: nat) -> Seq<NewModel>
    decreases n,
{
    if n == 0 {
        Seq::empty()
    } else if homes(t)[n - 1] == Some(pack) && !has_entry(t, pack, t.claims@[n - 1].offset) {
        lost_claims(t, pack, (n - 1) as nat).push(
            claim_candidate(
                t.claims@[n - 1],
                75,
                false,
                "index offset does not correspond to any parsed pack entry"@,
            ),
        )
    } else {
        lost_claims(t, pack, (n - 1) as nat)
    }
}

/// `s`, which ascends, with `x` in its place, unless it is there.
pub open spec fn with_number(s: Seq<i64>, x: i64) -> Seq<i64>
    decreases s.len(),
{
    if s.len() == 0 || s.last() < x {
        s.push(x)
    } else if s.last() == x {
        s
    } else {
        with_number(s.drop_last(), x).push(s.last())
    }
}

/// The packs that the first `n` claims are about, ascending.
pub open spec fn claimed_packs(t: Tables, n: nat) -> Seq<i64>
    decreases n,
{
    if n == 0 {
        Seq::empty()
    } else {
        match homes(t)[n - 1] {
            Some(p) => with_number(claimed_packs(t, (n - 1) as nat), p),
            None => claimed_packs(t, (n - 1) as nat),
        }
    }
}

/// The candidates of all claims about `packs` that point at no entry.
pub open spec fn lost_part(t: Tables, packs: Seq<i64>) -> Seq<NewModel>
    decreases packs.len(),
{
    if packs.len() == 0 {
        Seq::empty()
    } else {
        lost_part(t, packs.drop_last()) + lost_claims(t, packs.last(), t.claims@.len())
    }
}

/// All candidates that the sources provide.
pub open spec fn all_candidates(t: Tables) -> Seq<NewModel> {
    let n = t.claims@.len();
    loose_part(t, t.loose@.len()) + entry_part(t, t.entries@.len()) + stray_part(t, n) + lost_part(
        t,
        claimed_packs(t, n),
    )
}

fn push_new(out: &mut Vec<NewCandidate>, c: NewCandidate)
    ensures
        new_models(final(out)@) == new_models(old(out)@).push(c@),
{
    let ghost before = new_models(out@);
    out.push(c);
    assert(new_models(out@) =~= before.push(c@));
}

fn find_pack(packs: &Vec<PackInfo>, checksum: &str) -> (r: Option<i64>)
    ensures
        r == pack_with(packs@, checksum@),
{
    let mut found: Option<i64> = None;
    let mut i: usize = 0;
    while i < packs.len()
        invariant
            i <= packs@.len(),
            found == pack_with(packs@.take(i as int), checksum@),
        decreases packs@.len() - i,
    {
        let p = &packs[i];
        let earlier: bool = match found {
            Some(q) => q <= p.source_id,
            None => false,
        };
        if same_text(p.trailer.as_str(), checksum) && !earlier {
            found = Some(p.source_id);
        }
        i += 1;
        assert(packs@.take(i as int).drop_last() =~= packs@.take(i - 1));
    }
    assert(packs@.take(i as int) =~= packs@);
    found
}

fn find_home(t: &Tables, idx: i64) -> (r: Option<i64>)
    ensures
        r == pack_of(t.packs@, t.indexes@, idx),
{
    let mut i: usize = t.indexes.len();
    assert(t.indexes@.take(i as int) =~= t.indexes@);
    while i > 0
        invariant
            i <= t.indexes@.len(),
            pack_of(t.packs@, t.indexes@, idx) == pack_of(t.packs@, t.indexes@.take(i as int), idx),
        decreases i,
    {
        let ghost s = t.indexes@.take(i as int);
        assert(s.last() == t.indexes@[i - 1]);
        if t.indexes[i - 1].source_id == idx {
            return find_pack(&t.packs, t.indexes[i - 1].pack_checksum.as_str());
        }
        assert(s.drop_last() =~= t.indexes@.take(i - 1));
        i -= 1;
    }
    None
}

fn find_homes(t: &Tables) -> (v: Vec<Option<i64>>)
    ensures
        v@ == homes(*t),
{
    let mut v: Vec<Option<i64>> = Vec::new();
    let mut i: usize = 0;
    while i < t.claims.len()
        invariant
            i <= t.claims@.len(),
            v@ == homes(*t).take(i as int),
        decreases t.claims@.len() - i,
    {
        v.push(find_home(t, t.claims[i].idx_source_id));
        i += 1;
        assert(v@ =~= homes(*t).take(i as int));
    }
    assert(v@ =~= homes(*t));
    v
}

fn is_home(h: &Option<i64>, pack: i64) -> (r: bool)
    ensures
        r == (*h == Some(pack)),
{
    match h {
        Some(p) => *p == pack,
        None => false,
    }
}

/// The positions as numbers.
pub open spec fn positions(v: Seq<usize>) -> Seq<int> {
    v.map_values(|i: usize| i as int)
}

fn find_claims(t: &Tables, home: &Vec<Option<i64>>, pack: i64, offset: i64) -> (v: Vec<usize>)
    requires
        home@ == homes(*t),
    ensures
        positions(v@) == claims_at(*t, pack, offset, t.claims@.len()),
        forall|i: int| 0 <= i < v@.len() ==> (#[trigger] v@[i]) < t.claims@.len(),
{
    let mut v: Vec<usize> = Vec::new();
    let mut n: usize = 0;
    assert(positions(v@) =~= Seq::empty());
    while n < t.claims.len()
        invariant
            n <= t.claims@.len(),
            home@ == homes(*t),
            positions(v@) == claims_at(*t, pack, offset, n as nat),
            forall|i: int| 0 <= i < v@.len() ==> (#[trigger] v@[i]) < t.claims@.len(),
        decreases t.claims@.len() - n,
    {
        let ghost before = positions(v@);
        if is_home(&home[n], pack) && t.claims[n].offset == offset {
            v.push(n);
            assert(positions(v@) =~= before.push(n as int));
        }
        n += 1;
    }
    v
}

fn pick_idx_evidence(t: &Tables, claims: &Vec<usize>, crc32: i64) -> (r: (Option<i64>, Option<i64>, Option<bool>))
    requires
        forall|i: int| 0 <= i < claims@.len() ==> (#[trigger] claims@[i]) < t.claims@.len(),
    ensures
        r == evidence(*t, positions(claims@), crc32),
{
    if claims.len() == 0 {
        return (None, None, None);
    }
    let ghost all = positions(claims@);
    let mut best: usize = claims[0];
    let mut i: usize = 1;
    while i < claims.len()
        invariant
            1 <= i <= claims@.len(),
            all == positions(claims@),
            forall|k: int| 0 <= k < claims@.len() ==> (#[trigger] claims@[k]) < t.claims@.len(),
            best < t.claims@.len(),
            best == first_heard(*t, all.take(i as int)),
        decreases claims@.len() - i,
    {
        let k: usize = claims[i];
        let a = &t.claims[k];
        let b = &t.claims[best];
        assert(all.take(i + 1).drop_last() =~= all.take(i as int));
        assert(all.take(i + 1).last() == k);
        if a.idx_source_id < b.idx_source_id || (a.idx_source_id == b.idx_source_id && a.crc32 < b.crc32) {
            best = k;
        }
        i += 1;
    }
    assert(all.take(i as int) =~= all);
    let c = &t.claims[best];
    (Some(c.idx_source_id), Some(c.crc32), Some(c.crc32 == crc32))
}

fn type_named(name: &str) -> (r: GitType)
    ensures
        r == type_of(name@),
{
    if same_text(name, "ofs-delta") {
        GitType::OfsDelta
    } else if same_text(name, "ref-delta") {
        GitType::RefDelta
    } else {
        match GitType::from_name(name) {
            Some(t) => t,
            None => GitType::Blob,
        }
    }
}

fn problem_of(e: &PackRow) -> (r: bool)
    ensures
        r == has_problem(*e),
{
    e.parse_error.is_some() || !e.size_ok || !e.adler_ok
}

fn make_entry(
    e: &PackRow,
    oid: String,
    kind: &'static str,
    said: (Option<i64>, Option<i64>, Option<bool>),
    rank: i64,
    problem: bool,
    note: String,
) -> (c: NewCandidate)
    ensures
        c@ == entry_candidate(*e, oid@, kind@, said, rank, problem, note@),
{
    NewCandidate {
        oid,
        kind,
        source_id: e.source_id,
        pack_entry_id: Some(e.entry_id),
        loose_source_id: None,
        offset: Some(e.offset),
        idx_source_id: said.0,
        idx_crc32: said.1,
        entry_crc32: Some(e.crc32),
        content_sha256: Some(e.content_sha256.clone()),
        quality_rank: rank,
        parse_problem: problem,
        crc_matches: said.2,
        idx_pack_mismatch: false,
        node_key: Some(pack_node_key(e.source_id, e.ordinal)),
        note,
    }
}

fn make_claimed(e: &PackRow, c: &IdxRow, delta: bool) -> (n: NewCandidate)
    ensures
        n@ == claimed_candidate(*e, *c, delta),
{
    let said = (Some(c.idx_source_id), Some(c.crc32), Some(c.crc32 == e.crc32));
    if delta {
        let problem: bool = problem_of(e);
        let mut note = "oid claimed by index at offset ".to_owned();
        push_int(&mut note, e.offset);
        note.append("; resolved through delta chain");
        let rank: i64 = if problem {
            90
        } else {
            40
        };
        make_entry(e, c.oid.clone(), "pack_delta", said, rank, problem, note)
    } else {
        let note = "oid taken from index; content could not be inflated".to_owned();
        make_entry(e, c.oid.clone(), "pack_base", said, 95, true, note)
    }
}

fn push_claimed(out: &mut Vec<NewCandidate>, t: &Tables, e: &PackRow, claims: &Vec<usize>, delta: bool)
    requires
        forall|i: int| 0 <= i < claims@.len() ==> (#[trigger] claims@[i]) < t.claims@.len(),
    ensures
        new_models(final(out)@) == new_models(old(out)@) + claimed_candidates(*t, *e, positions(claims@), delta),
{
    let ghost start = new_models(out@);
    let ghost all = claimed_candidates(*t, *e, positions(claims@), delta);
    let mut i: usize = 0;
    assert(start + all.take(0) =~= start);
    while i < claims.len()
        invariant
            i <= claims@.len(),
            all.len() == claims@.len(),
            all == claimed_candidates(*t, *e, positions(claims@), delta),
            forall|k: int| 0 <= k < claims@.len() ==> (#[trigger] claims@[k]) < t.claims@.len(),
            new_models(out@) == start + all.take(i as int),
        decreases claims@.len() - i,
    {
        let k: usize = claims[i];
        let c = make_claimed(e, &t.claims[k], delta);
        assert(positions(claims@)[i as int] == k);
        assert(c@ == all[i as int]);
        push_new(out, c);
        i += 1;
        assert(start + all.take(i as int) =~= (start + all.take(i - 1)).push(all[i - 1]));
    }
    assert(all.take(i as int) =~= all);
}

fn push_entry(out: &mut Vec<NewCandidate>, t: &Tables, home: &Vec<Option<i64>>, e: &PackRow)
    requires
        home@ == homes(*t),
    ensures
        new_models(final(out)@) == new_models(old(out)@) + entry_candidates(*t, *e),
{
    let ghost start = new_models(out@);
    let claims = find_claims(t, home, e.source_id, e.offset);
    let ghost cs = positions(claims@);
    let kind = type_named(e.object_type.as_str());
    let problem: bool = problem_of(e);
    if !kind.is_delta() {
        match &e.body {
            Some(body) => {
                let id = git_object_id(kind.name(), body.as_slice());
                let oid = hex_encode(id.as_slice());
                let mut note = "oid recomputed from inflated ".to_owned();
                note.append(kind.name());
                note.append(" body (");
                push_dec(&mut note, body.len() as u64);
                note.append(" bytes)");
                let rank: i64 = if problem {
                    90
                } else {
                    30
                };
                let said = pick_idx_evidence(t, &claims, e.crc32);
                let c = make_entry(e, oid, "pack_base", said, rank, problem, note);
                push_new(out, c);
                assert(new_models(out@) =~= start + entry_candidates(*t, *e));
            },
            None => {
                push_claimed(out, t, e, &claims, false);
            },
        }
    } else if claims.len() == 0 {
        let mut oid = "unresolved:".to_owned();
        oid.append(pack_node_key(e.source_id, e.ordinal).as_str());
        let note = "delta has no index claim; awaiting base chain resolution".to_owned();
        assert(cs.len() == 0);
        let c = make_entry(e, oid, "pack_delta", (None, None, None), 80, problem, note);
        push_new(out, c);
        assert(new_models(out@) =~= start + entry_candidates(*t, *e));
    } else {
        assert(cs.len() > 0);
        push_claimed(out, t, e, &claims, true);
    }
}

fn make_claim(c: &IdxRow, rank: i64, mismatch: bool, note: &str) -> (n: NewCandidate)
    ensures
        n@ == claim_candidate(*c, rank, mismatch, note@),
{
    NewCandidate {
        oid: c.oid.clone(),
        kind: "idx_only",
        source_id: c.idx_source_id,
        pack_entry_id: None,
        loose_source_id: None,
        offset: Some(c.offset),
        idx_source_id: Some(c.idx_source_id),
        idx_crc32: Some(c.crc32),
        entry_crc32: None,
        content_sha256: None,
        quality_rank: rank,
        parse_problem: false,
        crc_matches: None,
        idx_pack_mismatch: mismatch,
        node_key: None,
        note: note.to_owned(),
    }
}

fn entry_exists(t: &Tables, pack: i64, offset: i64) -> (r: bool)
    ensures
        r == has_entry(*t, pack, offset),
{
    let mut i: usize = 0;
    while i < t.entries.len()
        invariant
            i <= t.entries@.len(),
            forall|k: int|
                0 <= k < i ==> !((#[trigger] t.entries@[k]).source_id == pack && t.entries@[k].offset
                    == offset),
        decreases t.entries@.len() - i,
    {
        if t.entries[i].source_id == pack && t.entries[i].offset == offset {
            assert(t.entries@[i as int].source_id == pack);
            return true;
        }
        i += 1;
    }
    false
}

/// `s` ascends.
pub open spec fn ascends(s: Seq<i64>) -> bool {
    forall|i: int, j: int| 0 <= i < j < s.len() ==> s[i] < s[j]
}

proof fn lemma_with_number(s: Seq<i64>, x: i64, p: int)
    requires
        0 <= p <= s.len(),
        ascends(s),
        forall|i: int| p <= i < s.len() ==> s[i] > x,
        p > 0 ==> s[p - 1] <= x,
    ensures
        with_number(s, x) == if p > 0 && s[p - 1] == x {
            s
        } else {
            s.insert(p, x)
        },
        ascends(with_number(s, x)),
    decreases s.len(),
{
    if s.len() == 0 || p == s.len() {
        assert(s.insert(p, x) =~= s.push(x));
    } else {
        let t = s.drop_last();
        lemma_with_number(t, x, p);
        if p > 0 && s[p - 1] == x {
            assert(t.push(s.last()) =~= s);
        } else {
            assert(t.insert(p, x).push(s.last()) =~= s.insert(p, x));
        }
    }
}

fn insert_number(v: &mut Vec<i64>, x: i64)
    requires
        ascends(old(v)@),
    ensures
        final(v)@ == with_number(old(v)@, x),
        ascends(final(v)@),
{
    let mut p: usize = v.len();
    while p > 0 && v[p - 1] > x
        invariant
            p <= v@.len(),
            forall|i: int| p <= i < v@.len() ==> v@[i] > x,
        decreases p,
    {
        p -= 1;
    }
    proof {
        lemma_with_number(v@, x, p as int);
    }
    if p > 0 && v[p - 1] == x {
        return;
    }
    v.insert(p, x);
}

fn push_lost(out: &mut Vec<NewCandidate>, t: &Tables, home: &Vec<Option<i64>>, pack: i64)
    requires
        home@ == homes(*t),
    ensures
        new_models(final(out)@) == new_models(old(out)@) + lost_claims(*t, pack, t.claims@.len()),
{
    let ghost start = new_models(out@);
    let mut n: usize = 0;
    assert(start + lost_claims(*t, pack, 0) =~= start);
    while n < t.claims.len()
        invariant
            n <= t.claims@.len(),
            home@ == homes(*t),
            new_models(out@) == start + lost_claims(*t, pack, n as nat),
        decreases t.claims@.len() - n,
    {
        let ghost was = lost_claims(*t, pack, n as nat);
        if is_home(&home[n], pack) && !entry_exists(t, pack, t.claims[n].offset) {
            let c = make_claim(
                &t.claims[n],
                75,
                false,
                "index offset does not correspond to any parsed pack entry",
            );
            push_new(out, c);
            assert((start + was).push(c@) =~= start + was.push(c@));
        }
        n += 1;
    }
}

/// Builds every candidate that the parsed sources provide: loose objects, pack entries, and
/// claims of indexes without a matching pack or without a matching entry.
pub fn rebuild_candidates(t: &Tables) -> (out: Vec<NewCandidate>)
    ensures
        new_models(out@) == all_candidates(*t),
{
    let home = find_homes(t);
    let mut out: Vec<NewCandidate> = Vec::new();
    let mut i: usize = 0;
    assert(new_models(out@) =~= loose_part(*t, 0));
    while i < t.loose.len()
        invariant
            i <= t.loose@.len(),
            new_models(out@) == loose_part(*t, i as nat),
        decreases t.loose@.len() - i,
    {
        let l = &t.loose[i];
        let c = NewCandidate {
            oid: l.computed_oid.clone(),
            kind: "loose",
            source_id: l.source_id,
            pack_entry_id: None,
            loose_source_id: Some(l.source_id),
            offset: None,
            idx_source_id: None,
            idx_crc32: None,
            entry_crc32: None,
            content_sha256: Some(l.content_sha256.clone()),
            quality_rank: 10,
            parse_problem: false,
            crc_matches: None,
            idx_pack_mismatch: false,
            node_key: None,
            note: "loose object oid recomputed from content".to_owned(),
        };
        push_new(&mut out, c);
        i += 1;
        assert(new_models(out@) =~= loose_part(*t, i as nat));
    }
    let ghost first = new_models(out@);
    let mut k: usize = 0;
    assert(first + entry_part(*t, 0) =~= first);
    while k < t.entries.len()
        invariant
            k <= t.entries@.len(),
            home@ == homes(*t),
            new_models(out@) == first + entry_part(*t, k as nat),
        decreases t.entries@.len() - k,
    {
        push_entry(&mut out, t, &home, &t.entries[k]);
        proof {
            let e = entry_candidates(*t, t.entries@[k as int]);
            assert(first + entry_part(*t, k as nat) + e =~= first + (entry_part(*t, k as nat) + e));
        }
        k += 1;
    }
    let ghost second = new_models(out@);
    let mut packs: Vec<i64> = Vec::new();
    let mut n: usize = 0;
    assert(second + stray_part(*t, 0) =~= second);
    assert(packs@ =~= claimed_packs(*t, 0));
    while n < t.claims.len()
        invariant
            n <= t.claims@.len(),
            home@ == homes(*t),
            new_models(out@) == second + stray_part(*t, n as nat),
            packs@ == claimed_packs(*t, n as nat),
            ascends(packs@),
        decreases t.claims@.len() - n,
    {
        let ghost was = stray_part(*t, n as nat);
        match home[n] {
            Some(p) => {
                insert_number(&mut packs, p);
            },
            None => {
                let c = make_claim(
                    &t.claims[n],
                    70,
                    true,
                    "index claim without a pack whose checksum matches",
                );
                push_new(&mut out, c);
                assert((second + was).push(c@) =~= second + was.push(c@));
            },
        }
        n += 1;
    }
    let ghost third = new_models(out@);
    let mut j: usize = 0;
    assert(packs@.take(0) =~= Seq::empty());
    assert(third + lost_part(*t, packs@.take(0)) =~= third);
    while j < packs.len()
        invariant
            j <= packs@.len(),
            home@ == homes(*t),
            new_models(out@) == third + lost_part(*t, packs@.take(j as int)),
        decreases packs@.len() - j,
    {
        push_lost(&mut out, t, &home, packs[j]);
        proof {
            let s = packs@.take(j + 1);
            assert(s.drop_last() =~= packs@.take(j as int));
            assert(s.last() == packs@[j as int]);
            let l = lost_claims(*t, packs@[j as int], t.claims@.len());
            assert(third + lost_part(*t, packs@.take(j as int)) + l =~= third + (lost_part(
                *t,
                packs@.take(j as int),
            ) + l));
        }
        j += 1;
    }
    assert(packs@.take(j as int) =~= packs@);
    out
}

proof fn lemma_claims_at_bounds(t: Tables, pack: i64, offset: i64, n: nat, k: int)
    requires
        0 <= k < n <= t.claims@.len(),
        homes(t)[k] == Some(pack),
        t.claims@[k].offset == offset,
    ensures
        claims_at(t, pack, offset, n).contains(k),
    decreases n,
{
    let before = claims_at(t, pack, offset, (n - 1) as nat);
    if k < n - 1 {
        lemma_claims_at_bounds(t, pack, offset, (n - 1) as nat, k);
        let i = choose|i: int| 0 <= i < before.len() && before[i] == k;
        assert(claims_at(t, pack, offset, n)[i] == k);
    } else {
        assert(claims_at(t, pack, offset, n).last() == k);
    }
}

/// A claim about an entry that was parsed is among the claims that the entry is listed with, so
/// no claim is lost: each is listed with an entry, or as a claim of its own.
pub proof fn every_claim_is_listed(t: Tables, k: int)
    requires
        0 <= k < t.claims@.len(),
    ensures
        ({
            let c = t.claims@[k];
            match homes(t)[k] {
                None => stray_part(t, t.claims@.len()).contains(
                    claim_candidate(c, 70, true, "index claim without a pack whose checksum matches"@),
                ),
                Some(p) => if has_entry(t, p, c.offset) {
                    claims_at(t, p, c.offset, t.claims@.len()).contains(k)
                } else {
                    lost_claims(t, p, t.claims@.len()).contains(
                        claim_candidate(
                            c,
                            75,
                            false,
                            "index offset does not correspond to any parsed pack entry"@,
                        ),
                    )
                },
            }
        }),
{
    match homes(t)[k] {
        None => lemma_stray(t, t.claims@.len(), k),
        Some(p) => {
            if has_entry(t, p, t.claims@[k].offset) {
                lemma_claims_at_bounds(t, p, t.claims@[k].offset, t.claims@.len(), k);
            } else {
                lemma_lost(t, p, t.claims@.len(), k);
            }
        },
    }
}

proof fn lemma_stray(t: Tables, n: nat, k: int)
    requires
        0 <= k < n <= t.claims@.len(),
        homes(t)[k] is None,
    ensures
        stray_part(t, n).contains(
            claim_candidate(t.claims@[k], 70, true, "index claim without a pack whose checksum matches"@),
        ),
    decreases n,
{
    let c = claim_candidate(
        t.claims@[k],
        70,
        true,
        "index claim without a pack whose checksum matches"@,
    );
    let before = stray_part(t, (n - 1) as nat);
    if k < n - 1 {
        lemma_stray(t, (n - 1) as nat, k);
        let i = choose|i: int| 0 <= i < before.len() && before[i] == c;
        assert(stray_part(t, n)[i] == c);
    } else {
        assert(stray_part(t, n).last() == c);
    }
}

proof fn lemma_lost(t: Tables, pack: i64, n: nat, k: int)
    requires
        0 <= k < n <= t.claims@.len(),
        homes(t)[k] == Some(pack),
        !has_entry(t, pack, t.claims@[k].offset),
    ensures
        lost_claims(t, pack, n).contains(
            claim_candidate(
                t.claims@[k],
                75,
                false,
                "index offset does not correspond to any parsed pack entry"@,
            ),
        ),
    decreases n,
{
    let c = claim_candidate(
        t.claims@[k],
        75,
        false,
        "index offset does not correspond to any parsed pack entry"@,
    );
    let before = lost_claims(t, pack, (n - 1) as nat);
    if k < n - 1 {
        lemma_lost(t, pack, (n - 1) as nat, k);
        let i = choose|i: int| 0 <= i < before.len() && before[i] == c;
        assert(lost_claims(t, pack, n)[i] == c);
    } else {
        assert(lost_claims(t, pack, n).last() == c);
    }
}

/// What the rows of a list give, one after the other.
spec fn flat<A>(s: Seq<A>, f: spec_fn(A) -> Seq<NewModel>) -> Seq<NewModel>
    decreases s.len(),
{
    if s.len() == 0 {
        Seq::empty()
    } else {
        flat(s.drop_last(), f) + f(s.last())
    }
}

proof fn lemma_flat_joined<A>(a: Seq<A>, b: Seq<A>, f: spec_fn(A) -> Seq<NewModel>)
    ensures
        flat(a + b, f) == flat(a, f) + flat(b, f),
    decreases b.len(),
{
    if b.len() == 0 {
        assert(a + b =~= a);
        assert(flat(a, f) + flat(b, f) =~= flat(a, f));
    } else {
        lemma_flat_joined(a, b.drop_last(), f);
        assert((a + b).drop_last() =~= a + b.drop_last());
        assert(flat(a, f) + (flat(b.drop_last(), f) + f(b.last())) =~= flat(a, f) + flat(b.drop_last(), f) + f(
            b.last(),
        ));
    }
}

proof fn lemma_flat_any_order<A>(a: Seq<A>, b: Seq<A>, f: spec_fn(A) -> Seq<NewModel>)
    requires
        a.to_multiset() == b.to_multiset(),
    ensures
        flat(a, f).to_multiset() == flat(b, f).to_multiset(),
    decreases a.len(),
{
    broadcast use vstd::seq_lib::group_to_multiset_ensures;

    if a.len() == 0 {
        assert(b.len() == b.to_multiset().len() && a.len() == a.to_multiset().len());
        assert(a =~= b);
    } else {
        let x = a.last();
        assert(a.to_multiset().contains(x));
        assert(b.to_multiset().contains(x));
        assert(b.contains(x));
        let j = choose|j: int| 0 <= j < b.len() && b[j] == x;
        let p = b.take(j);
        let q = b.skip(j + 1);
        assert(b =~= p.push(x) + q);
        assert(b.remove(j) =~= p + q);
        assert(a.remove(a.len() - 1) =~= a.drop_last());
        assert((p + q).to_multiset() =~= a.drop_last().to_multiset());
        lemma_flat_any_order(a.drop_last(), p + q, f);
        lemma_flat_joined(p, q, f);
        lemma_flat_joined(p.push(x), q, f);
        assert(p.push(x).drop_last() =~= p);
        let g = f(x);
        let (u, v) = (flat(p, f), flat(q, f));
        vstd::seq_lib::lemma_multiset_commutative(u + g, v);
        vstd::seq_lib::lemma_multiset_commutative(u, g);
        vstd::seq_lib::lemma_multiset_commutative(u, v);
        vstd::seq_lib::lemma_multiset_commutative(flat(a.drop_last(), f), g);
        assert(flat(b, f) == u + g + v);
        assert((u + g + v).to_multiset() =~= (u + v).to_multiset().add(g.to_multiset()));
    }
}

proof fn lemma_flat_same<A>(s: Seq<A>, f: spec_fn(A) -> Seq<NewModel>, g: spec_fn(A) -> Seq<NewModel>)
    requires
        forall|x: A| #[trigger] f(x).to_multiset() == g(x).to_multiset(),
    ensures
        flat(s, f).to_multiset() == flat(s, g).to_multiset(),
    decreases s.len(),
{
    if s.len() > 0 {
        lemma_flat_same(s.drop_last(), f, g);
        vstd::seq_lib::lemma_multiset_commutative(flat(s.drop_last(), f), f(s.last()));
        vstd::seq_lib::lemma_multiset_commutative(flat(s.drop_last(), g), g(s.last()));
        assert(f(s.last()).to_multiset() == g(s.last()).to_multiset());
    }
}

/// The pack that a claim is about.
pub open spec fn home_of(t: Tables, c: IdxRow) -> Option<i64> {
    pack_of(t.packs@, t.indexes@, c.idx_source_id)
}

spec fn of_loose() -> spec_fn(LooseRow) -> Seq<NewModel> {
    |l: LooseRow| seq![loose_candidate(l)]
}

spec fn of_entry(t: Tables) -> spec_fn(PackRow) -> Seq<NewModel> {
    |e: PackRow| entry_candidates(t, e)
}

spec fn stray_of(t: Tables) -> spec_fn(IdxRow) -> Seq<NewModel> {
    |c: IdxRow|
        if home_of(t, c) is None {
            seq![claim_candidate(c, 70, true, "index claim without a pack whose checksum matches"@)]
        } else {
            Seq::empty()
        }
}

spec fn lost_of(t: Tables, pack: i64) -> spec_fn(IdxRow) -> Seq<NewModel> {
    |c: IdxRow|
        if home_of(t, c) == Some(pack) && !has_entry(t, pack, c.offset) {
            seq![
                claim_candidate(c, 75, false, "index offset does not correspond to any parsed pack entry"@),
            ]
        } else {
            Seq::empty()
        }
}

spec fn claimed_of(t: Tables, e: PackRow, delta: bool) -> spec_fn(IdxRow) -> Seq<NewModel> {
    |c: IdxRow|
        if home_of(t, c) == Some(e.source_id) && c.offset == e.offset {
            seq![claimed_candidate(e, c, delta)]
        } else {
            Seq::empty()
        }
}

proof fn lemma_loose_flat(t: Tables, n: nat)
    requires
        n <= t.loose@.len(),
    ensures
        loose_part(t, n) == flat(t.loose@.take(n as int), of_loose()),
    decreases n,
{
    if n > 0 {
        lemma_loose_flat(t, (n - 1) as nat);
        assert(t.loose@.take(n as int).drop_last() =~= t.loose@.take(n - 1));
    }
    assert(loose_part(t, n) =~= flat(t.loose@.take(n as int), of_loose()));
}

proof fn lemma_entries_flat(t: Tables, n: nat)
    requires
        n <= t.entries@.len(),
    ensures
        entry_part(t, n) == flat(t.entries@.take(n as int), of_entry(t)),
    decreases n,
{
    if n > 0 {
        lemma_entries_flat(t, (n - 1) as nat);
        assert(t.entries@.take(n as int).drop_last() =~= t.entries@.take(n - 1));
    }
}

proof fn lemma_claims_flat(t: Tables, pack: i64, n: nat)
    requires
        n <= t.claims@.len(),
    ensures
        stray_part(t, n) == flat(t.claims@.take(n as int), stray_of(t)),
        lost_claims(t, pack, n) == flat(t.claims@.take(n as int), lost_of(t, pack)),
    decreases n,
{
    let s = t.claims@.take(n as int);
    if n > 0 {
        lemma_claims_flat(t, pack, (n - 1) as nat);
        assert(s.drop_last() =~= t.claims@.take(n - 1));
        assert(homes(t)[n - 1] == home_of(t, t.claims@[n - 1]));
        assert(s.last() == t.claims@[n - 1]);
    }
    assert(stray_part(t, n) =~= flat(s, stray_of(t)));
    assert(lost_claims(t, pack, n) =~= flat(s, lost_of(t, pack)));
}

proof fn lemma_claimed_flat(t: Tables, e: PackRow, delta: bool, n: nat)
    requires
        n <= t.claims@.len(),
    ensures
        claimed_candidates(t, e, claims_at(t, e.source_id, e.offset, n), delta) == flat(
            t.claims@.take(n as int),
            claimed_of(t, e, delta),
        ),
    decreases n,
{
    let s = t.claims@.take(n as int);
    if n > 0 {
        let m = (n - 1) as nat;
        lemma_claimed_flat(t, e, delta, m);
        assert(s.drop_last() =~= t.claims@.take(n - 1));
        assert(homes(t)[n - 1] == home_of(t, t.claims@[n - 1]));
        assert(s.last() == t.claims@[n - 1]);
        let before = claims_at(t, e.source_id, e.offset, m);
        assert(claimed_candidates(t, e, before.push(n - 1), delta) =~= claimed_candidates(t, e, before, delta).push(
            claimed_candidate(e, t.claims@[n - 1], delta),
        ));
    }
    assert(claimed_candidates(t, e, claims_at(t, e.source_id, e.offset, n), delta) =~= flat(
        s,
        claimed_of(t, e, delta),
    ));
}

proof fn lemma_pack_with(packs: Seq<PackInfo>, checksum: Seq<char>)
    ensures
        match pack_with(packs, checksum) {
            Some(p) => {
                &&& exists|i: int|
                    0 <= i < packs.len() && (#[trigger] packs[i]).trailer@ == checksum && packs[i].source_id == p
                &&& forall|i: int|
                    0 <= i < packs.len() && (#[trigger] packs[i]).trailer@ == checksum ==> p <= packs[i].source_id
            },
            None => forall|i: int| 0 <= i < packs.len() ==> (#[trigger] packs[i]).trailer@ != checksum,
        },
    decreases packs.len(),
{
    if packs.len() > 0 {
        let rest = packs.drop_last();
        lemma_pack_with(rest, checksum);
        let n = packs.len() - 1;
        if let Some(p) = pack_with(rest, checksum) {
            let i = choose|i: int|
                0 <= i < rest.len() && (#[trigger] rest[i]).trailer@ == checksum && rest[i].source_id == p;
            assert(packs[i].trailer@ == checksum && packs[i].source_id == p);
        }
        assert(packs[n] == packs.last());
        assert forall|i: int| 0 <= i < packs.len() && (#[trigger] packs[i]).trailer@ == checksum implies (pack_with(
            packs,
            checksum,
        ) matches Some(p) && p <= packs[i].source_id) by {
            if i < n {
                assert(rest[i] == packs[i]);
            }
        }
    }
}

proof fn lemma_pack_any_order(a: Seq<PackInfo>, b: Seq<PackInfo>, checksum: Seq<char>)
    requires
        forall|p: PackInfo| a.contains(p) <==> b.contains(p),
    ensures
        pack_with(a, checksum) == pack_with(b, checksum),
{
    lemma_pack_with(a, checksum);
    lemma_pack_with(b, checksum);
    if let Some(p) = pack_with(a, checksum) {
        let i = choose|i: int|
            0 <= i < a.len() && (#[trigger] a[i]).trailer@ == checksum && a[i].source_id == p;
        assert(a.contains(a[i]));
        let j = choose|j: int| 0 <= j < b.len() && b[j] == a[i];
        assert(b[j].trailer@ == checksum);
    }
    if let Some(p) = pack_with(b, checksum) {
        let i = choose|i: int|
            0 <= i < b.len() && (#[trigger] b[i]).trailer@ == checksum && b[i].source_id == p;
        assert(b.contains(b[i]));
        let j = choose|j: int| 0 <= j < a.len() && a[j] == b[i];
        assert(a[j].trailer@ == checksum);
    }
}

/// No two indexes have the same number.
pub open spec fn indexes_differ(v: Seq<IdxInfo>) -> bool {
    forall|i: int, j: int|
        0 <= i < j < v.len() ==> (#[trigger] v[i]).source_id != (#[trigger] v[j]).source_id
}

proof fn lemma_pack_of(packs: Seq<PackInfo>, v: Seq<IdxInfo>, idx: i64)
    requires
        indexes_differ(v),
    ensures
        forall|i: int|
            0 <= i < v.len() && (#[trigger] v[i]).source_id == idx ==> pack_of(packs, v, idx) == pack_with(
                packs,
                v[i].pack_checksum@,
            ),
        (forall|i: int| 0 <= i < v.len() ==> (#[trigger] v[i]).source_id != idx) ==> pack_of(packs, v, idx) is None,
    decreases v.len(),
{
    if v.len() > 0 {
        let rest = v.drop_last();
        assert forall|i: int, j: int| 0 <= i < j < rest.len() implies (#[trigger] rest[i]).source_id != (
        #[trigger] rest[j]).source_id by {
            assert(rest[i] == v[i] && rest[j] == v[j]);
        }
        lemma_pack_of(packs, rest, idx);
        let n = v.len() - 1;
        assert(v[n] == v.last());
        assert forall|i: int| 0 <= i < v.len() && (#[trigger] v[i]).source_id == idx implies pack_of(packs, v, idx)
            == pack_with(packs, v[i].pack_checksum@) by {
            if i < n {
                assert(rest[i] == v[i]);
                assert(v[i].source_id != v[n].source_id);
            }
        }
        assert((forall|i: int| 0 <= i < v.len() ==> (#[trigger] v[i]).source_id != idx) ==> forall|i: int|
            0 <= i < rest.len() ==> (#[trigger] rest[i]).source_id != idx) by {
            if forall|i: int| 0 <= i < v.len() ==> (#[trigger] v[i]).source_id != idx {
                assert forall|i: int| 0 <= i < rest.len() implies (#[trigger] rest[i]).source_id != idx by {
                    assert(rest[i] == v[i]);
                }
            }
        }
    }
}

/// Two sets of tables hold the same rows, in whatever order, and the numbers of their indexes
/// differ.
pub open spec fn same_rows(t: Tables, u: Tables) -> bool {
    &&& t.packs@.to_multiset() == u.packs@.to_multiset()
    &&& t.indexes@.to_multiset() == u.indexes@.to_multiset()
    &&& t.loose@.to_multiset() == u.loose@.to_multiset()
    &&& t.entries@.to_multiset() == u.entries@.to_multiset()
    &&& t.claims@.to_multiset() == u.claims@.to_multiset()
    &&& indexes_differ(t.indexes@)
    &&& indexes_differ(u.indexes@)
}

proof fn lemma_members<A>(a: Seq<A>, b: Seq<A>)
    requires
        a.to_multiset() == b.to_multiset(),
    ensures
        a.len() == b.len(),
        forall|x: A| #[trigger] a.contains(x) <==> b.contains(x),
{
    broadcast use vstd::seq_lib::group_to_multiset_ensures;

    assert(a.len() == a.to_multiset().len() && b.len() == b.to_multiset().len());
    assert forall|x: A| #[trigger] a.contains(x) <==> b.contains(x) by {
        assert(a.contains(x) <==> a.to_multiset().contains(x));
        assert(b.contains(x) <==> b.to_multiset().contains(x));
    }
}

proof fn lemma_same_home(t: Tables, u: Tables, c: IdxRow)
    requires
        same_rows(t, u),
    ensures
        home_of(t, c) == home_of(u, c),
{
    lemma_members(t.packs@, u.packs@);
    lemma_members(t.indexes@, u.indexes@);
    let idx = c.idx_source_id;
    lemma_pack_of(t.packs@, t.indexes@, idx);
    lemma_pack_of(u.packs@, u.indexes@, idx);
    if exists|i: int| 0 <= i < t.indexes@.len() && (#[trigger] t.indexes@[i]).source_id == idx {
        let i = choose|i: int| 0 <= i < t.indexes@.len() && (#[trigger] t.indexes@[i]).source_id == idx;
        assert(t.indexes@.contains(t.indexes@[i]));
        let j = choose|j: int| 0 <= j < u.indexes@.len() && u.indexes@[j] == t.indexes@[i];
        assert(u.indexes@[j].source_id == idx);
        lemma_pack_any_order(t.packs@, u.packs@, t.indexes@[i].pack_checksum@);
    } else {
        assert forall|j: int| 0 <= j < u.indexes@.len() implies (#[trigger] u.indexes@[j]).source_id != idx by {
            assert(u.indexes@.contains(u.indexes@[j]));
            assert(t.indexes@.contains(u.indexes@[j]));
            let i = choose|i: int| 0 <= i < t.indexes@.len() && t.indexes@[i] == u.indexes@[j];
            assert(t.indexes@[i].source_id != idx);
        }
    }
}

proof fn lemma_same_has_entry(t: Tables, u: Tables, p: i64, o: i64)
    requires
        same_rows(t, u),
        has_entry(t, p, o),
    ensures
        has_entry(u, p, o),
{
    lemma_members(t.entries@, u.entries@);
    let i = choose|i: int|
        0 <= i < t.entries@.len() && (#[trigger] t.entries@[i]).source_id == p && t.entries@[i].offset == o;
    assert(t.entries@.contains(t.entries@[i]));
    let j = choose|j: int| 0 <= j < u.entries@.len() && u.entries@[j] == t.entries@[i];
    assert(u.entries@[j].source_id == p);
}

proof fn lemma_rows_swap(t: Tables, u: Tables)
    requires
        same_rows(t, u),
    ensures
        same_rows(u, t),
{
}

proof fn lemma_claims_in(t: Tables, pack: i64, offset: i64, n: nat)
    requires
        n <= t.claims@.len(),
    ensures
        forall|i: int|
            #![trigger claims_at(t, pack, offset, n)[i]]
            0 <= i < claims_at(t, pack, offset, n).len() ==> {
                let k = claims_at(t, pack, offset, n)[i];
                0 <= k < n && home_of(t, t.claims@[k]) == Some(pack) && t.claims@[k].offset == offset
            },
    decreases n,
{
    if n > 0 {
        lemma_claims_in(t, pack, offset, (n - 1) as nat);
        let before = claims_at(t, pack, offset, (n - 1) as nat);
        assert forall|i: int|
            #![trigger claims_at(t, pack, offset, n)[i]]
            0 <= i < claims_at(t, pack, offset, n).len() implies {
            let k = claims_at(t, pack, offset, n)[i];
            0 <= k < n && home_of(t, t.claims@[k]) == Some(pack) && t.claims@[k].offset == offset
        } by {
            if i < before.len() {
                assert(before[i] == claims_at(t, pack, offset, n)[i]);
            }
        }
    }
}

proof fn lemma_first_heard(t: Tables, claims: Seq<int>)
    requires
        claims.len() > 0,
    ensures
        claims.contains(first_heard(t, claims)),
        forall|i: int|
            0 <= i < claims.len() ==> !heard_before(
                t.claims@[#[trigger] claims[i]],
                t.claims@[first_heard(t, claims)],
            ),
    decreases claims.len(),
{
    if claims.len() == 1 {
        assert(claims[0] == first_heard(t, claims));
    } else {
        let rest = claims.drop_last();
        lemma_first_heard(t, rest);
        let k = first_heard(t, rest);
        let j = choose|j: int| 0 <= j < rest.len() && rest[j] == k;
        assert(claims[j] == k);
        assert(claims[claims.len() - 1] == claims.last());
        assert forall|i: int| 0 <= i < claims.len() implies !heard_before(
            t.claims@[#[trigger] claims[i]],
            t.claims@[first_heard(t, claims)],
        ) by {
            if i < rest.len() {
                assert(rest[i] == claims[i]);
            }
        }
    }
}

/// What is heard first in one set of tables is not heard later in the other.
proof fn lemma_heard(t: Tables, u: Tables, p: i64, o: i64)
    requires
        same_rows(t, u),
        claims_at(t, p, o, t.claims@.len()).len() > 0,
    ensures
        ({
            let a = claims_at(t, p, o, t.claims@.len());
            let b = claims_at(u, p, o, u.claims@.len());
            b.len() > 0 && !heard_before(t.claims@[first_heard(t, a)], u.claims@[first_heard(u, b)])
        }),
{
    let a = claims_at(t, p, o, t.claims@.len());
    let b = claims_at(u, p, o, u.claims@.len());
    lemma_claims_in(t, p, o, t.claims@.len());
    lemma_first_heard(t, a);
    let i = choose|i: int| 0 <= i < a.len() && a[i] == first_heard(t, a);
    let c = t.claims@[a[i]];
    lemma_members(t.claims@, u.claims@);
    assert(t.claims@.contains(c));
    let k = choose|k: int| 0 <= k < u.claims@.len() && u.claims@[k] == c;
    lemma_same_home(t, u, c);
    assert(homes(u)[k] == Some(p));
    lemma_claims_at_bounds(u, p, o, u.claims@.len(), k);
    let j = choose|j: int| 0 <= j < b.len() && b[j] == k;
    lemma_first_heard(u, b);
    assert(!heard_before(u.claims@[b[j]], u.claims@[first_heard(u, b)]));
}

proof fn lemma_same_entry(t: Tables, u: Tables, e: PackRow)
    requires
        same_rows(t, u),
    ensures
        entry_candidates(t, e).to_multiset() == entry_candidates(u, e).to_multiset(),
{
    let (p, o) = (e.source_id, e.offset);
    let a = claims_at(t, p, o, t.claims@.len());
    let b = claims_at(u, p, o, u.claims@.len());
    lemma_rows_swap(t, u);
    if a.len() > 0 {
        lemma_heard(t, u, p, o);
    }
    if b.len() > 0 {
        lemma_heard(u, t, p, o);
    }
    assert(evidence(t, a, e.crc32) == evidence(u, b, e.crc32));
    let delta = type_of(e.object_type@).delta();
    lemma_claimed_flat(t, e, delta, t.claims@.len());
    lemma_claimed_flat(u, e, delta, u.claims@.len());
    assert(t.claims@.take(t.claims@.len() as int) =~= t.claims@);
    assert(u.claims@.take(u.claims@.len() as int) =~= u.claims@);
    assert forall|c: IdxRow| #[trigger] claimed_of(t, e, delta)(c) == claimed_of(u, e, delta)(c) by {
        lemma_same_home(t, u, c);
    }
    lemma_flat_same(t.claims@, claimed_of(t, e, delta), claimed_of(u, e, delta));
    lemma_flat_any_order(t.claims@, u.claims@, claimed_of(u, e, delta));
    assert(claimed_candidates(t, e, a, delta).to_multiset() == claimed_candidates(u, e, b, delta).to_multiset());
}

proof fn lemma_number_set(s: Seq<i64>, x: i64)
    requires
        ascends(s),
    ensures
        ascends(with_number(s, x)),
        forall|y: i64| #[trigger] with_number(s, x).contains(y) <==> s.contains(y) || y == x,
    decreases s.len(),
{
    let w = with_number(s, x);
    if s.len() == 0 || s.last() < x {
        assert forall|y: i64| #[trigger] w.contains(y) <==> s.contains(y) || y == x by {
            if s.contains(y) {
                let i = choose|i: int| 0 <= i < s.len() && s[i] == y;
                assert(w[i] == y);
            }
            assert(w[s.len() as int] == x);
        }
    } else if s.last() == x {
        assert(s[s.len() - 1] == x);
    } else {
        let t = s.drop_last();
        lemma_number_set(t, x);
        let v = with_number(t, x);
        assert forall|i: int| 0 <= i < v.len() implies v[i] < s.last() by {
            assert(v.contains(v[i]));
            if t.contains(v[i]) {
                let j = choose|j: int| 0 <= j < t.len() && t[j] == v[i];
                assert(s[j] < s[s.len() - 1]);
            }
        }
        assert forall|y: i64| #[trigger] w.contains(y) <==> s.contains(y) || y == x by {
            assert(v.contains(y) <==> t.contains(y) || y == x);
            if w.contains(y) {
                let i = choose|i: int| 0 <= i < w.len() && w[i] == y;
                if i < v.len() {
                    assert(v[i] == y);
                    if t.contains(y) {
                        let j = choose|j: int| 0 <= j < t.len() && t[j] == y;
                        assert(s[j] == y);
                    }
                } else {
                    assert(s[s.len() - 1] == y);
                }
            }
            if s.contains(y) {
                let j = choose|j: int| 0 <= j < s.len() && s[j] == y;
                if j < t.len() {
                    assert(t[j] == y);
                } else {
                    assert(w[v.len() as int] == y);
                }
            }
            if v.contains(y) {
                let i = choose|i: int| 0 <= i < v.len() && v[i] == y;
                assert(w[i] == y);
            }
        }
    }
}

spec fn is_claimed(t: Tables, n: nat, p: i64) -> bool {
    exists|k: int| 0 <= k < n && home_of(t, #[trigger] t.claims@[k]) == Some(p)
}

proof fn lemma_claimed_packs(t: Tables, n: nat)
    requires
        n <= t.claims@.len(),
    ensures
        ascends(claimed_packs(t, n)),
        forall|p: i64| #[trigger] claimed_packs(t, n).contains(p) <==> is_claimed(t, n, p),
    decreases n,
{
    if n > 0 {
        let m = (n - 1) as nat;
        lemma_claimed_packs(t, m);
        let c = t.claims@[n - 1];
        assert(homes(t)[n - 1] == home_of(t, c));
        if let Some(h) = home_of(t, c) {
            lemma_number_set(claimed_packs(t, m), h);
        }
        assert forall|p: i64| #[trigger] claimed_packs(t, n).contains(p) <==> is_claimed(t, n, p) by {
            assert(claimed_packs(t, m).contains(p) <==> is_claimed(t, m, p));
            if is_claimed(t, n, p) {
                let k = choose|k: int| 0 <= k < n && home_of(t, #[trigger] t.claims@[k]) == Some(p);
                if k < m {
                    assert(home_of(t, t.claims@[k]) == Some(p));
                    assert(is_claimed(t, m, p));
                }
            }
            if is_claimed(t, m, p) {
                let k = choose|k: int| 0 <= k < m && home_of(t, #[trigger] t.claims@[k]) == Some(p);
                assert(home_of(t, t.claims@[k]) == Some(p));
            }
        }
    }
}

proof fn lemma_claimed_in(t: Tables, u: Tables, p: i64)
    requires
        same_rows(t, u),
        is_claimed(t, t.claims@.len(), p),
    ensures
        is_claimed(u, u.claims@.len(), p),
{
    lemma_members(t.claims@, u.claims@);
    let k = choose|k: int| 0 <= k < t.claims@.len() && home_of(t, #[trigger] t.claims@[k]) == Some(p);
    let c = t.claims@[k];
    assert(t.claims@.contains(c));
    let j = choose|j: int| 0 <= j < u.claims@.len() && u.claims@[j] == c;
    lemma_same_home(t, u, c);
    assert(home_of(u, u.claims@[j]) == Some(p));
}

proof fn lemma_same_lost(t: Tables, u: Tables, packs: Seq<i64>)
    requires
        same_rows(t, u),
    ensures
        lost_part(t, packs).to_multiset() == lost_part(u, packs).to_multiset(),
    decreases packs.len(),
{
    if packs.len() > 0 {
        let p = packs.last();
        lemma_same_lost(t, u, packs.drop_last());
        let a = lost_claims(t, p, t.claims@.len());
        let b = lost_claims(u, p, u.claims@.len());
        lemma_claims_flat(t, p, t.claims@.len());
        lemma_claims_flat(u, p, u.claims@.len());
        assert(t.claims@.take(t.claims@.len() as int) =~= t.claims@);
        assert(u.claims@.take(u.claims@.len() as int) =~= u.claims@);
        assert forall|c: IdxRow| #[trigger] lost_of(t, p)(c) == lost_of(u, p)(c) by {
            lemma_same_home(t, u, c);
            lemma_rows_swap(t, u);
            if has_entry(t, p, c.offset) {
                lemma_same_has_entry(t, u, p, c.offset);
            }
            if has_entry(u, p, c.offset) {
                lemma_same_has_entry(u, t, p, c.offset);
            }
        }
        lemma_flat_same(t.claims@, lost_of(t, p), lost_of(u, p));
        lemma_flat_any_order(t.claims@, u.claims@, lost_of(u, p));
        vstd::seq_lib::lemma_multiset_commutative(lost_part(t, packs.drop_last()), a);
        vstd::seq_lib::lemma_multiset_commutative(lost_part(u, packs.drop_last()), b);
    }
}

proof fn lemma_same_stray(t: Tables, u: Tables)
    requires
        same_rows(t, u),
    ensures
        stray_part(t, t.claims@.len()).to_multiset() == stray_part(u, u.claims@.len()).to_multiset(),
{
    lemma_claims_flat(t, 0, t.claims@.len());
    lemma_claims_flat(u, 0, u.claims@.len());
    assert(t.claims@.take(t.claims@.len() as int) =~= t.claims@);
    assert(u.claims@.take(u.claims@.len() as int) =~= u.claims@);
    assert forall|c: IdxRow| #[trigger] stray_of(t)(c) == stray_of(u)(c) by {
        lemma_same_home(t, u, c);
    }
    lemma_flat_same(t.claims@, stray_of(t), stray_of(u));
    lemma_flat_any_order(t.claims@, u.claims@, stray_of(u));
}

/// The candidates depend on the parsed sources alone: packs, indexes, loose objects, entries and
/// claims may come in any order, and the same candidates are listed.
pub proof fn order_of_rows_does_not_matter(t: Tables, u: Tables)
    requires
        same_rows(t, u),
    ensures
        all_candidates(t).to_multiset() == all_candidates(u).to_multiset(),
{
    let (m, n) = (t.claims@.len(), u.claims@.len());
    lemma_rows_swap(t, u);
    lemma_claimed_packs(t, m);
    lemma_claimed_packs(u, n);
    assert forall|p: i64| #[trigger] claimed_packs(t, m).contains(p) <==> claimed_packs(u, n).contains(p) by {
        if is_claimed(t, m, p) {
            lemma_claimed_in(t, u, p);
        }
        if is_claimed(u, n, p) {
            lemma_claimed_in(u, t, p);
        }
    }
    ascending_lists_are_sets(claimed_packs(t, m), claimed_packs(u, n));
    lemma_same_lost(t, u, claimed_packs(t, m));
    lemma_same_stray(t, u);
    lemma_loose_flat(t, t.loose@.len());
    lemma_loose_flat(u, u.loose@.len());
    assert(t.loose@.take(t.loose@.len() as int) =~= t.loose@);
    assert(u.loose@.take(u.loose@.len() as int) =~= u.loose@);
    lemma_flat_any_order(t.loose@, u.loose@, of_loose());
    lemma_entries_flat(t, t.entries@.len());
    lemma_entries_flat(u, u.entries@.len());
    assert(t.entries@.take(t.entries@.len() as int) =~= t.entries@);
    assert(u.entries@.take(u.entries@.len() as int) =~= u.entries@);
    assert forall|e: PackRow| #[trigger] of_entry(t)(e).to_multiset() == of_entry(u)(e).to_multiset() by {
        lemma_same_entry(t, u, e);
    }
    lemma_flat_same(t.entries@, of_entry(t), of_entry(u));
    lemma_flat_any_order(t.entries@, u.entries@, of_entry(u));
    let (a, b) = (loose_part(t, t.loose@.len()), loose_part(u, u.loose@.len()));
    let (c, d) = (entry_part(t, t.entries@.len()), entry_part(u, u.entries@.len()));
    let (s, r) = (stray_part(t, m), stray_part(u, n));
    let (l, k) = (lost_part(t, claimed_packs(t, m)), lost_part(u, claimed_packs(u, n)));
    vstd::seq_lib::lemma_multiset_commutative(a, c);
    vstd::seq_lib::lemma_multiset_commutative(b, d);
    vstd::seq_lib::lemma_multiset_commutative(a + c, s);
    vstd::seq_lib::lemma_multiset_commutative(b + d, r);
    vstd::seq_lib::lemma_multiset_commutative(a + c + s, l);
    vstd::seq_lib::lemma_multiset_commutative(b + d + r, k);
}

/// What is picked out of a list of candidates: those of loose objects, or those that are flagged
/// because their index describes no known pack.
pub open spec fn picked(v: Seq<NewModel>, loose: bool) -> Seq<NewModel>
    decreases v.len(),
{
    if v.len() == 0 {
        v
    } else {
        let rest = picked(v.drop_last(), loose);
        if if loose {
            v.last().kind == "loose"@
        } else {
            v.last().idx_pack_mismatch
        } {
            rest.push(v.last())
        } else {
            rest
        }
    }
}

proof fn lemma_picked_joined(a: Seq<NewModel>, b: Seq<NewModel>, loose: bool)
    ensures
        picked(a + b, loose) == picked(a, loose) + picked(b, loose),
    decreases b.len(),
{
    if b.len() == 0 {
        assert(a + b =~= a);
        assert(picked(a, loose) + b =~= picked(a, loose));
    } else {
        lemma_picked_joined(a, b.drop_last(), loose);
        assert((a + b).drop_last() =~= a + b.drop_last());
        assert((a + b).last() == b.last());
        assert(picked(a + b, loose) =~= picked(a, loose) + picked(b, loose));
    }
}

proof fn lemma_picked_entry(t: Tables, e: PackRow, loose: bool)
    ensures
        picked(entry_candidates(t, e), loose).len() == 0,
{
    reveal_strlit("loose");
    reveal_strlit("pack_base");
    reveal_strlit("pack_delta");
    assert("loose"@.len() == 5 && "pack_base"@.len() == 9 && "pack_delta"@.len() == 10);
    let s = entry_candidates(t, e);
    lemma_picked_none(s, loose, s.len());
}

proof fn lemma_picked_none(s: Seq<NewModel>, loose: bool, n: nat)
    requires
        n <= s.len(),
        forall|i: int| 0 <= i < s.len() ==> (#[trigger] s[i]).kind != "loose"@ && !s[i].idx_pack_mismatch,
    ensures
        picked(s.take(n as int), loose).len() == 0,
        picked(s, loose).len() == 0 || n < s.len(),
    decreases n,
{
    assert(s.take(s.len() as int) =~= s);
    if n > 0 {
        lemma_picked_none(s, loose, (n - 1) as nat);
        assert(s.take(n as int).drop_last() =~= s.take(n - 1));
        assert(s.take(n as int).last() == s[n - 1]);
    }
}

proof fn lemma_picked_entries(t: Tables, n: nat, loose: bool)
    requires
        n <= t.entries@.len(),
    ensures
        picked(entry_part(t, n), loose).len() == 0,
    decreases n,
{
    if n > 0 {
        lemma_picked_entries(t, (n - 1) as nat, loose);
        lemma_picked_entry(t, t.entries@[n - 1], loose);
        lemma_picked_joined(entry_part(t, (n - 1) as nat), entry_candidates(t, t.entries@[n - 1]), loose);
    }
}

proof fn lemma_picked_claims(t: Tables, pack: i64, n: nat)
    requires
        n <= t.claims@.len(),
    ensures
        picked(stray_part(t, n), false) == stray_part(t, n),
        picked(stray_part(t, n), true).len() == 0,
        picked(lost_claims(t, pack, n), false).len() == 0,
        picked(lost_claims(t, pack, n), true).len() == 0,
    decreases n,
{
    reveal_strlit("loose");
    reveal_strlit("idx_only");
    assert("loose"@.len() == 5 && "idx_only"@.len() == 8);
    if n > 0 {
        let m = (n - 1) as nat;
        lemma_picked_claims(t, pack, m);
        let (a, b) = (stray_part(t, m), lost_claims(t, pack, m));
        if stray_part(t, n).len() > a.len() {
            assert(stray_part(t, n).drop_last() =~= a);
        }
        if lost_claims(t, pack, n).len() > b.len() {
            assert(lost_claims(t, pack, n).drop_last() =~= b);
        }
    }
}

proof fn lemma_picked_lost(t: Tables, packs: Seq<i64>, loose: bool)
    ensures
        picked(lost_part(t, packs), loose).len() == 0,
    decreases packs.len(),
{
    if packs.len() > 0 {
        lemma_picked_lost(t, packs.drop_last(), loose);
        lemma_picked_claims(t, packs.last(), t.claims@.len());
        lemma_picked_joined(
            lost_part(t, packs.drop_last()),
            lost_claims(t, packs.last(), t.claims@.len()),
            loose,
        );
    }
}

proof fn lemma_picked_loose(t: Tables, n: nat)
    requires
        n <= t.loose@.len(),
    ensures
        picked(loose_part(t, n), true) == loose_part(t, n),
        picked(loose_part(t, n), false).len() == 0,
    decreases n,
{
    if n > 0 {
        lemma_picked_loose(t, (n - 1) as nat);
        assert(loose_part(t, n).drop_last() =~= loose_part(t, (n - 1) as nat));
        assert(loose_part(t, (n - 1) as nat).push(loose_part(t, n).last()) =~= loose_part(t, n));
    }
}

/// Every loose object gives exactly one candidate of its kind, of rank 10, and every claim whose
/// index describes no known pack gives exactly one of rank 70 that is flagged as a mismatch; no
/// other candidates are of that kind or flagged.
pub proof fn rows_give_one_candidate_each(t: Tables)
    ensures
        picked(all_candidates(t), true) == loose_part(t, t.loose@.len()),
        picked(all_candidates(t), false) == stray_part(t, t.claims@.len()),
{
    let n = t.claims@.len();
    let a = loose_part(t, t.loose@.len());
    let b = entry_part(t, t.entries@.len());
    let c = stray_part(t, n);
    let d = lost_part(t, claimed_packs(t, n));
    lemma_picked_loose(t, t.loose@.len());
    lemma_picked_claims(t, 0, n);
    lemma_picked_pair(t, a, b, c, d, true);
    lemma_picked_pair(t, a, b, c, d, false);
    assert(picked(a + b + c + d, true) =~= a);
    assert(picked(a + b + c + d, false) =~= c);
}

proof fn lemma_picked_pair(t: Tables, a: Seq<NewModel>, b: Seq<NewModel>, c: Seq<NewModel>, d: Seq<NewModel>, loose: bool)
    requires
        b == entry_part(t, t.entries@.len()),
        d == lost_part(t, claimed_packs(t, t.claims@.len())),
    ensures
        picked(a + b + c + d, loose) == picked(a, loose) + picked(c, loose),
{
    lemma_picked_entries(t, t.entries@.len(), loose);
    lemma_picked_lost(t, claimed_packs(t, t.claims@.len()), loose);
    lemma_picked_joined(a, b, loose);
    lemma_picked_joined(a + b, c, loose);
    lemma_picked_joined(a + b + c, d, loose);
    assert(picked(a + b + c + d, loose) =~= picked(a, loose) + picked(c, loose));
}

/// An index describes no known pack exactly when the checksum that it names is that of no pack.
pub proof fn an_index_without_its_pack_has_no_home(t: Tables, i: int)
    requires
        0 <= i < t.indexes@.len(),
        indexes_differ(t.indexes@),
    ensures
        pack_of(t.packs@, t.indexes@, t.indexes@[i].source_id) is None <==> forall|k: int|
            0 <= k < t.packs@.len() ==> (#[trigger] t.packs@[k]).trailer@ != t.indexes@[i].pack_checksum@,
{
    lemma_pack_of(t.packs@, t.indexes@, t.indexes@[i].source_id);
    lemma_pack_with(t.packs@, t.indexes@[i].pack_checksum@);
}

/// The claim is about the entry: it names its offset, and its index names the checksum of a pack
/// that is the source of the entry.
pub open spec fn is_about(t: Tables, c: IdxRow, e: PackRow) -> bool {
    &&& c.offset == e.offset
    &&& exists|j: int, p: int|
        0 <= j < t.indexes@.len() && 0 <= p < t.packs@.len() && (#[trigger] t.indexes@[j]).source_id == c.idx_source_id
            && (#[trigger] t.packs@[p]).trailer@ == t.indexes@[j].pack_checksum@ && t.packs@[p].source_id == e.source_id
}

/// The candidate stands for loose object `i`.
pub open spec fn is_of_loose(t: Tables, m: NewModel, i: int) -> bool {
    let l = t.loose@[i];
    &&& 0 <= i < t.loose@.len()
    &&& m.kind == "loose"@
    &&& m.oid == l.computed_oid@
    &&& m.source_id == l.source_id && m.loose_source_id == Some(l.source_id) && m.pack_entry_id is None
    &&& m.content_sha256 == Some(l.content_sha256@)
    &&& m.quality_rank == 10 && !m.parse_problem && !m.idx_pack_mismatch
    &&& m.idx_source_id is None && m.idx_crc32 is None && m.entry_crc32 is None && m.crc_matches is None
}

/// The candidate has from claim `k`, which is about the entry, what it says of an index.
pub open spec fn hears(t: Tables, m: NewModel, e: PackRow, k: int) -> bool {
    let c = t.claims@[k];
    &&& 0 <= k < t.claims@.len()
    &&& is_about(t, c, e)
    &&& m.idx_source_id == Some(c.idx_source_id)
    &&& m.idx_crc32 == Some(c.crc32)
}

/// The candidate stands for pack entry `i`. A whole object is named by the hash of its content under
/// its type; what can only be named by an index is named by the claim; a delta without a claim has
/// no name. Whether the checksums agree is told where an index gives one.
pub open spec fn is_of_entry(t: Tables, m: NewModel, i: int) -> bool {
    let e = t.entries@[i];
    let broken = e.parse_error is Some || !e.size_ok || !e.adler_ok;
    let key = "pack:"@ + dec_int(e.source_id as int) + ":"@ + dec_int(e.ordinal as int);
    let kind = if e.object_type@ == "commit"@ || e.object_type@ == "tree"@ || e.object_type@ == "tag"@ {
        e.object_type@
    } else {
        "blob"@
    };
    &&& 0 <= i < t.entries@.len()
    &&& m.source_id == e.source_id && m.pack_entry_id == Some(e.entry_id) && m.loose_source_id is None
    &&& m.offset == Some(e.offset)
    &&& m.entry_crc32 == Some(e.crc32)
    &&& m.content_sha256 == Some(e.content_sha256@)
    &&& m.node_key == Some(key)
    &&& !m.idx_pack_mismatch
    &&& m.crc_matches is Some <==> m.idx_crc32 is Some
    &&& m.idx_source_id is Some <==> m.idx_crc32 is Some
    &&& m.crc_matches == Some(true) <==> m.idx_crc32 == m.entry_crc32
    &&& m.idx_source_id is Some ==> exists|k: int| #[trigger] hears(t, m, e, k)
    &&& if e.object_type@ == "ofs-delta"@ || e.object_type@ == "ref-delta"@ {
        &&& m.kind == "pack_delta"@
        &&& m.parse_problem == broken
        &&& if m.idx_source_id is None {
            m.oid == "unresolved:"@ + key && m.quality_rank == 80
        } else {
            &&& exists|k: int| #[trigger] hears(t, m, e, k) && t.claims@[k].oid@ == m.oid
            &&& m.quality_rank == if broken {
                90i64
            } else {
                40i64
            }
        }
    } else if e.body is Some {
        &&& m.kind == "pack_base"@
        &&& m.oid == hex(sha1_smol_of(object_frame(kind, e.body->0@)))
        &&& m.parse_problem == broken
        &&& m.quality_rank == if broken {
            90i64
        } else {
            30i64
        }
        &&& forall|k: int|
            0 <= k < t.claims@.len() && (#[trigger] t.claims@[k]).offset == e.offset && home_of(t, t.claims@[k]) == Some(
                e.source_id,
            ) ==> m.idx_source_id is Some && m.idx_source_id->0 <= t.claims@[k].idx_source_id
    } else {
        &&& m.kind == "pack_base"@
        &&& m.parse_problem
        &&& m.quality_rank == 95
        &&& exists|k: int| #[trigger] hears(t, m, e, k) && t.claims@[k].oid@ == m.oid
    }
}

/// The candidate stands for claim `k` alone, of which there is no entry.
pub open spec fn is_of_claim(t: Tables, m: NewModel, k: int) -> bool {
    let c = t.claims@[k];
    &&& 0 <= k < t.claims@.len()
    &&& m.kind == "idx_only"@
    &&& m.oid == c.oid@
    &&& m.source_id == c.idx_source_id && m.idx_source_id == Some(c.idx_source_id)
    &&& m.offset == Some(c.offset)
    &&& m.idx_crc32 == Some(c.crc32)
    &&& m.entry_crc32 is None && m.crc_matches is None && m.pack_entry_id is None && m.content_sha256 is None
    &&& m.idx_pack_mismatch <==> home_of(t, c) is None
    &&& m.idx_pack_mismatch ==> m.quality_rank == 70
    &&& !m.idx_pack_mismatch ==> m.quality_rank == 75 && !has_entry(t, home_of(t, c)->0, c.offset)
}

proof fn lemma_home(packs: Seq<PackInfo>, v: Seq<IdxInfo>, idx: i64)
    ensures
        pack_of(packs, v, idx) matches Some(p) ==> exists|j: int, q: int|
            0 <= j < v.len() && 0 <= q < packs.len() && (#[trigger] v[j]).source_id == idx && (
            #[trigger] packs[q]).trailer@ == v[j].pack_checksum@ && packs[q].source_id == p,
    decreases v.len(),
{
    if v.len() > 0 {
        let rest = v.drop_last();
        if v.last().source_id == idx {
            lemma_pack_with(packs, v.last().pack_checksum@);
            if let Some(p) = pack_of(packs, v, idx) {
                let q = choose|q: int|
                    0 <= q < packs.len() && (#[trigger] packs[q]).trailer@ == v.last().pack_checksum@
                        && packs[q].source_id == p;
                assert(v[v.len() - 1].source_id == idx && packs[q].source_id == p);
            }
        } else {
            lemma_home(packs, rest, idx);
            if let Some(p) = pack_of(packs, rest, idx) {
                let (j, q) = choose|j: int, q: int|
                    0 <= j < rest.len() && 0 <= q < packs.len() && (#[trigger] rest[j]).source_id == idx && (
                    #[trigger] packs[q]).trailer@ == rest[j].pack_checksum@ && packs[q].source_id == p;
                assert(v[j].source_id == idx && packs[q].source_id == p);
            }
        }
    }
}

proof fn lemma_about(t: Tables, e: PackRow, k: int)
    requires
        claims_at(t, e.source_id, e.offset, t.claims@.len()).contains(k),
    ensures
        0 <= k < t.claims@.len(),
        is_about(t, t.claims@[k], e),
        home_of(t, t.claims@[k]) == Some(e.source_id),
{
    lemma_claims_in(t, e.source_id, e.offset, t.claims@.len());
    lemma_home(t.packs@, t.indexes@, t.claims@[k].idx_source_id);
}

proof fn lemma_entry_says(t: Tables, i: int, x: int)
    requires
        0 <= i < t.entries@.len(),
        0 <= x < entry_candidates(t, t.entries@[i]).len(),
    ensures
        is_of_entry(t, entry_candidates(t, t.entries@[i])[x], i),
{
    let e = t.entries@[i];
    let m = entry_candidates(t, e)[x];
    let claims = claims_at(t, e.source_id, e.offset, t.claims@.len());
    reveal_strlit("ofs-delta");
    reveal_strlit("ref-delta");
    reveal_strlit("commit");
    reveal_strlit("tree");
    reveal_strlit("blob");
    reveal_strlit("tag");
    assert("ofs-delta"@[0] == 'o' && "ref-delta"@[0] == 'r' && "commit"@.len() == 6 && "tree"@.len() == 4
        && "blob"@.len() == 4 && "tag"@.len() == 3 && "ofs-delta"@.len() == 9 && "ref-delta"@.len() == 9
        && "tree"@[0] == 't' && "blob"@[0] == 'b');
    lemma_claims_in(t, e.source_id, e.offset, t.claims@.len());
    if type_of(e.object_type@).delta() {
        if claims.len() > 0 {
            let k = claims[x];
            assert(claims.contains(k));
            lemma_about(t, e, k);
            assert(hears(t, m, e, k) && t.claims@[k].oid@ == m.oid);
        }
    } else if e.body is Some {
        if claims.len() > 0 {
            lemma_first_heard(t, claims);
            let k = first_heard(t, claims);
            lemma_about(t, e, k);
            assert(hears(t, m, e, k));
        }
        assert forall|k: int|
            0 <= k < t.claims@.len() && (#[trigger] t.claims@[k]).offset == e.offset && home_of(t, t.claims@[k]) == Some(
                e.source_id,
            ) implies m.idx_source_id is Some && m.idx_source_id->0 <= t.claims@[k].idx_source_id by {
            assert(homes(t)[k] == home_of(t, t.claims@[k]));
            lemma_claims_at_bounds(t, e.source_id, e.offset, t.claims@.len(), k);
            assert(claims.contains(k));
            lemma_first_heard(t, claims);
        }
    } else {
        let k = claims[x];
        assert(claims.contains(k));
        lemma_about(t, e, k);
        assert(hears(t, m, e, k) && t.claims@[k].oid@ == m.oid);
    }
}

proof fn lemma_entries_say(t: Tables, n: nat, x: int)
    requires
        n <= t.entries@.len(),
        0 <= x < entry_part(t, n).len(),
    ensures
        exists|i: int| #[trigger] is_of_entry(t, entry_part(t, n)[x], i),
    decreases n,
{
    let before = entry_part(t, (n - 1) as nat);
    if x < before.len() {
        lemma_entries_say(t, (n - 1) as nat, x);
        assert(entry_part(t, n)[x] == before[x]);
    } else {
        lemma_entry_says(t, n - 1, x - before.len());
        assert(is_of_entry(t, entry_part(t, n)[x], n - 1));
    }
}

proof fn lemma_claims_say(t: Tables, pack: i64, n: nat, x: int)
    requires
        n <= t.claims@.len(),
    ensures
        0 <= x < stray_part(t, n).len() ==> exists|k: int| #[trigger] is_of_claim(t, stray_part(t, n)[x], k),
        0 <= x < lost_claims(t, pack, n).len() ==> exists|k: int| #[trigger]
            is_of_claim(t, lost_claims(t, pack, n)[x], k),
    decreases n,
{
    if n > 0 {
        let m = (n - 1) as nat;
        lemma_claims_say(t, pack, m, x);
        assert(homes(t)[n - 1] == home_of(t, t.claims@[n - 1]));
        if 0 <= x < stray_part(t, n).len() {
            if x < stray_part(t, m).len() {
                assert(stray_part(t, n)[x] == stray_part(t, m)[x]);
            } else {
                assert(is_of_claim(t, stray_part(t, n)[x], n - 1));
            }
        }
        if 0 <= x < lost_claims(t, pack, n).len() {
            if x < lost_claims(t, pack, m).len() {
                assert(lost_claims(t, pack, n)[x] == lost_claims(t, pack, m)[x]);
            } else {
                assert(is_of_claim(t, lost_claims(t, pack, n)[x], n - 1));
            }
        }
    }
}

proof fn lemma_lost_say(t: Tables, packs: Seq<i64>, x: int)
    requires
        0 <= x < lost_part(t, packs).len(),
    ensures
        exists|k: int| #[trigger] is_of_claim(t, lost_part(t, packs)[x], k),
    decreases packs.len(),
{
    let before = lost_part(t, packs.drop_last());
    if x < before.len() {
        lemma_lost_say(t, packs.drop_last(), x);
        assert(lost_part(t, packs)[x] == before[x]);
    } else {
        lemma_claims_say(t, packs.last(), t.claims@.len(), x - before.len());
        assert(lost_part(t, packs)[x] == lost_claims(t, packs.last(), t.claims@.len())[x - before.len()]);
    }
}

/// Every candidate says of an object what one row of the sources says: a loose object, a pack entry
/// with what the indexes of its pack claim of it, or a claim of which there is no entry.
pub proof fn candidates_say_what_their_sources_say(t: Tables, x: int)
    requires
        0 <= x < all_candidates(t).len(),
    ensures
        ({
            let m = all_candidates(t)[x];
            ||| exists|i: int| #[trigger] is_of_loose(t, m, i)
            ||| exists|i: int| #[trigger] is_of_entry(t, m, i)
            ||| exists|k: int| #[trigger] is_of_claim(t, m, k)
        }),
{
    let n = t.claims@.len();
    let a = loose_part(t, t.loose@.len());
    let b = entry_part(t, t.entries@.len());
    let c = stray_part(t, n);
    let m = all_candidates(t)[x];
    if x < a.len() {
        assert(is_of_loose(t, m, x));
    } else if x < a.len() + b.len() {
        lemma_entries_say(t, t.entries@.len(), x - a.len());
        assert(m == b[x - a.len()]);
    } else if x < a.len() + b.len() + c.len() {
        lemma_claims_say(t, 0, n, x - a.len() - b.len());
        assert(m == c[x - a.len() - b.len()]);
    } else {
        lemma_lost_say(t, claimed_packs(t, n), x - a.len() - b.len() - c.len());
        assert(m == lost_part(t, claimed_packs(t, n))[x - a.len() - b.len() - c.len()]);
    }
}

proof fn lemma_part_holds(t: Tables, n: nat, i: int, x: int)
    requires
        0 <= i < n <= t.entries@.len(),
        0 <= x < entry_candidates(t, t.entries@[i]).len(),
    ensures
        entry_part(t, n).contains(entry_candidates(t, t.entries@[i])[x]),
    decreases n,
{
    let before = entry_part(t, (n - 1) as nat);
    let m = entry_candidates(t, t.entries@[i])[x];
    if i < n - 1 {
        lemma_part_holds(t, (n - 1) as nat, i, x);
        let k = choose|k: int| 0 <= k < before.len() && before[k] == m;
        assert(entry_part(t, n)[k] == m);
    } else {
        assert(entry_part(t, n)[before.len() + x] == m);
    }
}

/// Every pack entry that was read, every delta, and every entry that an index claims, gives a
/// candidate.
pub proof fn every_entry_gives_a_candidate(t: Tables, i: int)
    requires
        0 <= i < t.entries@.len(),
        ({
            let e = t.entries@[i];
            e.body is Some || e.object_type@ == "ofs-delta"@ || e.object_type@ == "ref-delta"@ || exists|k: int|
                0 <= k < t.claims@.len() && (#[trigger] t.claims@[k]).offset == e.offset && home_of(t, t.claims@[k])
                    == Some(e.source_id)
        }),
    ensures
        exists|x: int|
            0 <= x < all_candidates(t).len() && is_of_entry(t, #[trigger] all_candidates(t)[x], i),
{
    let e = t.entries@[i];
    let v = entry_candidates(t, e);
    let claims = claims_at(t, e.source_id, e.offset, t.claims@.len());
    if e.body is None && e.object_type@ != "ofs-delta"@ && e.object_type@ != "ref-delta"@ {
        let k = choose|k: int|
            0 <= k < t.claims@.len() && (#[trigger] t.claims@[k]).offset == e.offset && home_of(t, t.claims@[k])
                == Some(e.source_id);
        assert(homes(t)[k] == home_of(t, t.claims@[k]));
        lemma_claims_at_bounds(t, e.source_id, e.offset, t.claims@.len(), k);
        assert(claims.len() > 0);
    }
    assert(v.len() > 0);
    lemma_entry_says(t, i, 0);
    lemma_part_holds(t, t.entries@.len(), i, 0);
    let part = entry_part(t, t.entries@.len());
    let k = choose|k: int| 0 <= k < part.len() && part[k] == v[0];
    assert(all_candidates(t)[loose_part(t, t.loose@.len()).len() + k] == v[0]);
}

} // verus!
