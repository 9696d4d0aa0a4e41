//! Pairing of indexes with packs: each unpaired index finds the pack with its checksum, and
//! what it claims of the ids and checksums of the entries is filled in.
use vstd::prelude::*;
use vstd::string::StringExecFns;
use crate::analyze::graph::{copy_opt, text_opt};
use crate::error::Error;
use crate::model::assoc::{get, get_of_put, has_key, keyed, lemma_row, put, row_of, IdMap};
use crate::model::crc::crc32_of;
use crate::model::num::{signed, to_signed};
use crate::model::outside::{crc32fast_hash, hex_encode};
use crate::model::text::{dec, dec_int, hex, push_dec, push_int, push_part, same_text, texts};

verus! {

/// A stored file.
#[derive(Debug)]
pub struct Source {
    pub kind: String,
    pub pack_checksum: Option<String>,
    pub idx_pack_checksum: String,
    pub attached_pack_id: Option<i64>,
    pub status: String,
    pub note: String,
}

/// The model of a stored file.
pub ghost struct SourceModel {
    pub kind: Seq<char>,
    pub pack_checksum: Option<Seq<char>>,
    pub idx_pack_checksum: Seq<char>,
    pub attached_pack_id: Option<i64>,
    pub status: Seq<char>,
    pub note: Seq<char>,
}

impl DeepView for Source {
    type V = SourceModel;

    open spec fn deep_view(&self) -> SourceModel {
        SourceModel {
            kind: self.kind@,
            pack_checksum: text_opt(self.pack_checksum),
            idx_pack_checksum: self.idx_pack_checksum@,
            attached_pack_id: self.attached_pack_id,
            status: self.status@,
            note: self.note@,
        }
    }
}

/// A candidate object of a pack.
#[derive(Debug)]
pub struct Candidate {
    pub source_id: i64,
    pub pack_offset: i64,
    pub claim_oid: Option<String>,
    pub idx_crc: Option<u32>,
    pub crc_ok: Option<bool>,
    pub status: String,
    pub parse_error_code: Option<String>,
    pub parse_error: Option<String>,
}

/// The model of a candidate.
pub ghost struct CandidateModel {
    pub source_id: i64,
    pub pack_offset: i64,
    pub claim_oid: Option<Seq<char>>,
    pub idx_crc: Option<u32>,
    pub crc_ok: Option<bool>,
    pub status: Seq<char>,
    pub parse_error_code: Option<Seq<char>>,
    pub parse_error: Option<Seq<char>>,
}

impl DeepView for Candidate {
    type V = CandidateModel;

    open spec fn deep_view(&self) -> CandidateModel {
        CandidateModel {
            source_id: self.source_id,
            pack_offset: self.pack_offset,
            claim_oid: text_opt(self.claim_oid),
            idx_crc: self.idx_crc,
            crc_ok: self.crc_ok,
            status: self.status@,
            parse_error_code: text_opt(self.parse_error_code),
            parse_error: text_opt(self.parse_error),
        }
    }
}

/// A record of a parsed index.
#[derive(Clone, Copy, Debug)]
pub struct IdxRecord {
    pub oid: [u8; 20],
    pub offset: u64,
    pub crc32: Option<u32>,
}

/// A parsed index.
#[derive(Debug)]
pub struct ParsedIndex {
    /// Nothing of it can be used.
    pub fatal: bool,
    /// The number of objects that its fanout table gives.
    pub total: u64,
    pub entries: Vec<IdxRecord>,
}

/// An entry of a parsed pack.
#[derive(Debug)]
pub struct ParsedEntry {
    pub offset: u64,
    pub compressed: Vec<u8>,
    /// It could not be parsed.
    pub broken: bool,
}

/// A parsed pack.
#[derive(Debug)]
pub struct ParsedPack {
    pub entries: Vec<ParsedEntry>,
}

/// The files that a pairing needs, as they were read: parsed, or why they could not be read.
#[derive(Debug)]
pub struct Files {
    pub indexes: Vec<(i64, Result<ParsedIndex, String>)>,
    pub packs: Vec<(i64, Result<ParsedPack, String>)>,
}

/// The tables that a pairing changes.
pub struct Tables {
    pub sources: IdMap<Source>,
    pub candidates: IdMap<Candidate>,
    pub warnings: Vec<String>,
}

/// The model of the tables.
pub ghost struct TablesModel {
    pub sources: Seq<(i64, SourceModel)>,
    pub candidates: Seq<(i64, CandidateModel)>,
    pub warnings: Seq<Seq<char>>,
}

impl View for Tables {
    type V = TablesModel;

    open spec fn view(&self) -> TablesModel {
        TablesModel {
            sources: self.sources@,
            candidates: self.candidates@,
            warnings: texts(self.warnings@),
        }
    }
}

/// The place of the file of a source, from place `n` on.
pub open spec fn file_of<T>(v: Seq<(i64, Result<T, String>)>, id: i64, n: nat) -> nat
    decreases v.len() - n,
{
    if n >= v.len() || v[n as int].0 == id {
        n
    } else {
        file_of(v, id, n + 1)
    }
}

fn find_file<T>(v: &Vec<(i64, Result<T, String>)>, id: i64) -> (n: usize)
    ensures
        n == file_of(v@, id, 0),
        n <= v@.len(),
{
    let mut n: usize = 0;
    while n < v.len() && v[n].0 != id
        invariant
            n <= v@.len(),
            file_of(v@, id, 0) == file_of(v@, id, n as nat),
        decreases v@.len() - n,
    {
        n += 1;
    }
    n
}

/// Some index is paired with pack `id`.
pub open spec fn occupied(v: Seq<(i64, SourceModel)>, id: i64) -> bool {
    exists|i: int|
        0 <= i < v.len() && (#[trigger] v[i]).1.kind == "index"@ && v[i].1.attached_pack_id == Some(id)
}

/// A pack with a given checksum; `free`: with which no index is paired.
pub open spec fn suits(v: Seq<(i64, SourceModel)>, i: int, checksum: Seq<char>, free: bool) -> bool {
    v[i].1.kind == "pack"@ && v[i].1.pack_checksum == Some(checksum) && (free ==> !occupied(v, v[i].0))
}

/// The least number among the first `n` sources that suit.
pub open spec fn least_pack(v: Seq<(i64, SourceModel)>, checksum: Seq<char>, free: bool, n: nat) -> Option<i64>
    decreases n,
{
    if n == 0 {
        None
    } else {
        let w = least_pack(v, checksum, free, (n - 1) as nat);
        if suits(v, n - 1, checksum, free) && (w is None || v[n - 1].0 < w->0) {
            Some(v[n - 1].0)
        } else {
            w
        }
    }
}

/// The pack that an index is paired with: the least that is free, else the least.
pub open spec fn chosen_pack(v: Seq<(i64, SourceModel)>, checksum: Seq<char>) -> Option<i64> {
    match least_pack(v, checksum, true, v.len()) {
        Some(id) => Some(id),
        None => least_pack(v, checksum, false, v.len()),
    }
}

/// The number of the first candidate at an offset of a pack, from row `n` on.
pub open spec fn candidate_at(v: Seq<(i64, CandidateModel)>, pack: i64, offset: i64, n: nat) -> Option<i64>
    decreases v.len() - n,
{
    if n >= v.len() {
        None
    } else if v[n as int].1.source_id == pack && v[n as int].1.pack_offset == offset {
        Some(v[n as int].0)
    } else {
        candidate_at(v, pack, offset, n + 1)
    }
}

/// The place of the last of the first `n` entries at an offset.
pub open spec fn entry_at(v: Seq<ParsedEntry>, offset: u64, n: nat) -> Option<nat>
    decreases n,
{
    if n == 0 {
        None
    } else if v[n - 1].offset == offset {
        Some((n - 1) as nat)
    } else {
        entry_at(v, offset, (n - 1) as nat)
    }
}

/// The message of a bad checksum.
pub open spec fn crc_message(at: u64, expected: u32, actual: u32) -> Seq<char> {
    Error::CrcMismatch { at, expected, actual }.text()
}

/// A candidate with the claim of an index record.
pub open spec fn claimed(c: CandidateModel, r: IdxRecord) -> CandidateModel {
    CandidateModel { claim_oid: Some(hex(r.oid@)), idx_crc: r.crc32, ..c }
}

/// The tables with one record of an index filled in.
pub open spec fn with_record(t: TablesModel, pack_id: i64, idx_id: i64, pack: Seq<ParsedEntry>, r: IdxRecord) -> TablesModel {
    match candidate_at(t.candidates, pack_id, signed(r.offset as nat), 0) {
        None => TablesModel {
            warnings: t.warnings.push(
                "index#"@ + dec_int(idx_id as int) + " 记录偏移 "@ + dec(r.offset as nat) + " 在 pack#"@
                    + dec_int(pack_id as int) + " 中找不到对象（不配套）"@,
            ),
            ..t
        },
        Some(id) => match get(t.candidates, id) {
            None => t,
            Some(c) => match (r.crc32, entry_at(pack, r.offset, pack.len())) {
                (Some(expected), Some(k)) => {
                    let e = pack[k as int];
                    let actual = crc32_of(e.compressed@);
                    let m = crc_message(r.offset, expected, actual);
                    let row = CandidateModel { crc_ok: Some(actual == expected), ..claimed(c, r) };
                    if actual != expected && !e.broken {
                        TablesModel {
                            candidates: put(
                                t.candidates,
                                id,
                                CandidateModel {
                                    status: "bad"@,
                                    parse_error_code: Some("crc_mismatch"@),
                                    parse_error: Some(m),
                                    ..row
                                },
                            ),
                            warnings: t.warnings.push("candidate#"@ + dec_int(id as int) + " "@ + m),
                            ..t
                        }
                    } else {
                        TablesModel { candidates: put(t.candidates, id, row), ..t }
                    }
                },
                _ => TablesModel { candidates: put(t.candidates, id, claimed(c, r)), ..t },
            },
        },
    }
}

/// The tables with the first `n` records of an index filled in.
pub open spec fn with_records(
    t: TablesModel,
    pack_id: i64,
    idx_id: i64,
    pack: Seq<ParsedEntry>,
    rows: Seq<IdxRecord>,
    n: nat,
) -> TablesModel
    decreases n,
{
    if n == 0 {
        t
    } else {
        with_record(
            with_records(t, pack_id, idx_id, pack, rows, (n - 1) as nat),
            pack_id,
            idx_id,
            pack,
            rows[n - 1],
        )
    }
}

/// The tables with an index paired with a pack.
pub open spec fn attached(t: TablesModel, pack_id: i64, idx_id: i64, pack: ParsedPack, idx: ParsedIndex) -> TablesModel {
    let u = if idx.total != pack.entries@.len() {
        TablesModel {
            warnings: t.warnings.push(
                "index#"@ + dec_int(idx_id as int) + " fanout 对象数 "@ + dec(idx.total as nat) + " 与 pack#"@
                    + dec_int(pack_id as int) + " 解析对象数 "@ + dec(pack.entries@.len())
                    + " 不一致（index 与 pack 不配套）"@,
            ),
            ..t
        }
    } else {
        t
    };
    let w = match get(u.sources, idx_id) {
        Some(s) => TablesModel {
            sources: put(u.sources, idx_id, SourceModel { attached_pack_id: Some(pack_id), ..s }),
            ..u
        },
        None => u,
    };
    with_records(w, pack_id, idx_id, pack.entries@, idx.entries@, idx.entries@.len())
}

/// The warning about a file that could not be read.
pub open spec fn unread(what: Seq<char>, id: i64, why: Seq<char>) -> Seq<char> {
    "读取 "@ + what + "#"@ + dec_int(id as int) + " 失败："@ + why
}

/// What pairing one index does to the tables.
pub open spec fn paired_one(t: TablesModel, f: Files, idx_id: i64, checksum: Seq<char>) -> TablesModel {
    let k = file_of(f.indexes@, idx_id, 0);
    if k >= f.indexes@.len() {
        TablesModel { warnings: t.warnings.push(unread("index"@, idx_id, "not read"@)), ..t }
    } else {
        match f.indexes@[k as int].1 {
            Err(e) => TablesModel { warnings: t.warnings.push(unread("index"@, idx_id, e@)), ..t },
            Ok(idx) => if idx.fatal {
                t
            } else {
                match chosen_pack(t.sources, checksum) {
                    None => TablesModel {
                        sources: match get(t.sources, idx_id) {
                            Some(s) => put(
                                t.sources,
                                idx_id,
                                SourceModel {
                                    status: "mismatch"@,
                                    note: "找不到 pack_checksum="@ + checksum
                                        + " 的 pack（index 与 pack 不配套/缺 pack）"@,
                                    ..s
                                },
                            ),
                            None => t.sources,
                        },
                        warnings: t.warnings.push(
                            "index#"@ + dec_int(idx_id as int) + " 找不到配套 pack（"@ + checksum + "）"@,
                        ),
                        ..t
                    },
                    Some(pack_id) => {
                        let j = file_of(f.packs@, pack_id, 0);
                        if j >= f.packs@.len() {
                            TablesModel {
                                warnings: t.warnings.push(unread("pack"@, pack_id, "not read"@)),
                                ..t
                            }
                        } else {
                            match f.packs@[j as int].1 {
                                Err(e) => TablesModel {
                                    warnings: t.warnings.push(unread("pack"@, pack_id, e@)),
                                    ..t
                                },
                                Ok(pack) => attached(t, pack_id, idx_id, pack, idx),
                            }
                        }
                    },
                }
            },
        }
    }
}

/// An index that is not paired.
pub open spec fn unpaired(x: SourceModel) -> bool {
    x.kind == "index"@ && x.attached_pack_id is None
}

/// The tables after the first `n` sources had their turn; which of them are unpaired indexes is
/// settled at the start.
pub open spec fn paired_upto(start: TablesModel, f: Files, n: nat) -> TablesModel
    decreases n,
{
    if n == 0 {
        start
    } else {
        let t = paired_upto(start, f, (n - 1) as nat);
        let x = start.sources[n - 1];
        if unpaired(x.1) {
            paired_one(t, f, x.0, x.1.idx_pack_checksum)
        } else {
            t
        }
    }
}

fn is_occupied(v: &IdMap<Source>, id: i64) -> (r: bool)
    ensures
        r == occupied(v@, id),
{
    let mut i: usize = 0;
    while i < v.len()
        invariant
            i <= v@.len(),
            forall|j: int|
                0 <= j < i ==> !((#[trigger] v@[j]).1.kind == "index"@ && v@[j].1.attached_pack_id == Some(id)),
        decreases v@.len() - i,
    {
        let x = v.value_at(i);
        if same_text(x.kind.as_str(), "index") {
            if let Some(p) = x.attached_pack_id {
                if p == id {
                    assert(v@[i as int].1.attached_pack_id == Some(id));
                    return true;
                }
            }
        }
        i += 1;
    }
    false
}

fn find_pack(v: &IdMap<Source>, checksum: &str, free: bool) -> (r: Option<i64>)
    ensures
        r == least_pack(v@, checksum@, free, v@.len()),
{
    let mut best: Option<i64> = None;
    let mut i: usize = 0;
    while i < v.len()
        invariant
            i <= v@.len(),
            best == least_pack(v@, checksum@, free, i as nat),
        decreases v@.len() - i,
    {
        let x = v.value_at(i);
        let id: i64 = v.key_at(i);
        let same: bool = match &x.pack_checksum {
            Some(c) => same_text(c.as_str(), checksum),
            None => false,
        };
        let fits: bool = same_text(x.kind.as_str(), "pack") && same && !(free && is_occupied(v, id));
        assert(fits == suits(v@, i as int, checksum@, free));
        let less: bool = match best {
            None => true,
            Some(b) => id < b,
        };
        if fits && less {
            best = Some(id);
        }
        i += 1;
    }
    best
}

fn find_candidate(v: &IdMap<Candidate>, pack: i64, offset: i64) -> (r: Option<i64>)
    ensures
        r == candidate_at(v@, pack, offset, 0),
{
    let mut n: usize = 0;
    while n < v.len()
        invariant
            n <= v@.len(),
            candidate_at(v@, pack, offset, 0) == candidate_at(v@, pack, offset, n as nat),
        decreases v@.len() - n,
    {
        let x = v.value_at(n);
        if x.source_id == pack && x.pack_offset == offset {
            return Some(v.key_at(n));
        }
        n += 1;
    }
    None
}

fn find_entry(v: &Vec<ParsedEntry>, offset: u64) -> (r: Option<usize>)
    ensures
        match r {
            Some(k) => entry_at(v@, offset, v@.len()) == Some(k as nat) && k < v@.len(),
            None => entry_at(v@, offset, v@.len()) is None,
        },
{
    let mut n: usize = v.len();
    while n > 0
        invariant
            n <= v@.len(),
            entry_at(v@, offset, v@.len()) == entry_at(v@, offset, n as nat),
        decreases n,
    {
        n -= 1;
        if v[n].offset == offset {
            return Some(n);
        }
    }
    None
}

fn unread_text(what: &str, id: i64, why: &str) -> (m: String)
    ensures
        m@ == unread(what@, id, why@),
{
    let mut m = "读取 ".to_owned();
    m.append(what);
    m.append("#");
    push_int(&mut m, id);
    m.append(" 失败：");
    m.append(why);
    m
}

fn copy_source(x: &Source) -> (r: Source)
    ensures
        r.deep_view() == x.deep_view(),
{
    Source {
        kind: x.kind.clone(),
        pack_checksum: copy_opt(&x.pack_checksum),
        idx_pack_checksum: x.idx_pack_checksum.clone(),
        attached_pack_id: x.attached_pack_id,
        status: x.status.clone(),
        note: x.note.clone(),
    }
}

impl Tables {
    fn fill_record(&mut self, pack_id: i64, idx_id: i64, pack: &Vec<ParsedEntry>, r: &IdxRecord)
        ensures
            final(self)@ == with_record(old(self)@, pack_id, idx_id, pack@, *r),
    {
        let id: i64 = match find_candidate(&self.candidates, pack_id, to_signed(r.offset)) {
            Some(i) => i,
            None => {
                let mut m = "index#".to_owned();
                push_int(&mut m, idx_id);
                m.append(" 记录偏移 ");
                push_dec(&mut m, r.offset);
                m.append(" 在 pack#");
                push_int(&mut m, pack_id);
                m.append(" 中找不到对象（不配套）");
                push_part(&mut self.warnings, m);
                return;
            },
        };
        let mut row = match self.candidates.get(id) {
            None => return,
            Some(c) => Candidate {
                source_id: c.source_id,
                pack_offset: c.pack_offset,
                claim_oid: Some(hex_encode(r.oid.as_slice())),
                idx_crc: r.crc32,
                crc_ok: c.crc_ok,
                status: c.status.clone(),
                parse_error_code: copy_opt(&c.parse_error_code),
                parse_error: copy_opt(&c.parse_error),
            },
        };
        if let Some(expected) = r.crc32 {
            if let Some(k) = find_entry(pack, r.offset) {
                let actual: u32 = crc32fast_hash(pack[k].compressed.as_slice());
                row.crc_ok = Some(actual == expected);
                if actual != expected && !pack[k].broken {
                    let e = Error::CrcMismatch { at: r.offset, expected, actual };
                    let m = e.message();
                    row.status = "bad".to_owned();
                    row.parse_error_code = Some("crc_mismatch".to_owned());
                    row.parse_error = Some(m.clone());
                    let mut w = "candidate#".to_owned();
                    push_int(&mut w, id);
                    w.append(" ");
                    w.append(m.as_str());
                    push_part(&mut self.warnings, w);
                }
            }
        }
        self.candidates.insert(id, row);
    }

    fn pair(&mut self, files: &Files, idx_id: i64, checksum: &str)
        ensures
            final(self)@ == paired_one(old(self)@, *files, idx_id, checksum@),
    {
        let k: usize = find_file(&files.indexes, idx_id);
        if k >= files.indexes.len() {
            push_part(&mut self.warnings, unread_text("index", idx_id, "not read"));
            return;
        }
        let idx = match &files.indexes[k].1 {
            Ok(x) => x,
            Err(e) => {
                push_part(&mut self.warnings, unread_text("index", idx_id, e.as_str()));
                return;
            },
        };
        if idx.fatal {
            return;
        }
        let free: Option<i64> = find_pack(&self.sources, checksum, true);
        let chosen: Option<i64> = match free {
            Some(id) => Some(id),
            None => find_pack(&self.sources, checksum, false),
        };
        let pack_id: i64 = match chosen {
            Some(id) => id,
            None => {
                let row = match self.sources.get(idx_id) {
                    Some(s) => {
                        let mut x = copy_source(s);
                        let mut note = "找不到 pack_checksum=".to_owned();
                        note.append(checksum);
                        note.append(" 的 pack（index 与 pack 不配套/缺 pack）");
                        x.status = "mismatch".to_owned();
                        x.note = note;
                        Some(x)
                    },
                    None => None,
                };
                if let Some(x) = row {
                    self.sources.insert(idx_id, x);
                }
                let mut m = "index#".to_owned();
                push_int(&mut m, idx_id);
                m.append(" 找不到配套 pack（");
                m.append(checksum);
                m.append("）");
                push_part(&mut self.warnings, m);
                return;
            },
        };
        let j: usize = find_file(&files.packs, pack_id);
        if j >= files.packs.len() {
            push_part(&mut self.warnings, unread_text("pack", pack_id, "not read"));
            return;
        }
        match &files.packs[j].1 {
            Ok(pack) => attach_one(self, pack_id, idx_id, pack, idx),
            Err(e) => push_part(&mut self.warnings, unread_text("pack", pack_id, e.as_str())),
        }
    }

}

/// Filling in records leaves the sources as they are.
proof fn lemma_records_keep_sources(
    t: TablesModel,
    pack_id: i64,
    idx_id: i64,
    pack: Seq<ParsedEntry>,
    rows: Seq<IdxRecord>,
    n: nat,
)
    ensures
        with_records(t, pack_id, idx_id, pack, rows, n).sources == t.sources,
    decreases n,
{
    if n > 0 {
        lemma_records_keep_sources(t, pack_id, idx_id, pack, rows, (n - 1) as nat);
    }
}

/// Pairing changes nothing about a source other than the indexes that are not paired yet.
pub proof fn pairs_are_kept(start: TablesModel, f: Files, n: nat, id: i64)
    requires
        n <= start.sources.len(),
        keyed(start.sources),
        get(start.sources, id) matches Some(x) && !unpaired(x),
    ensures
        get(paired_upto(start, f, n).sources, id) == get(start.sources, id),
    decreases n,
{
    if n > 0 {
        pairs_are_kept(start, f, (n - 1) as nat, id);
        let t = paired_upto(start, f, (n - 1) as nat);
        let x = start.sources[n - 1];
        if unpaired(x.1) {
            lemma_row(start.sources, id);
            assert(x.0 != id) by {
                if x.0 == id {
                    assert(start.sources[row_of(start.sources, id) as int].0 == start.sources[n - 1].0);
                }
            }
            let k = file_of(f.indexes@, x.0, 0);
            if k < f.indexes@.len() && f.indexes@[k as int].1 is Ok {
                let idx = f.indexes@[k as int].1->Ok_0;
                let old_row = get(t.sources, x.0);
                if old_row is Some {
                    match chosen_pack(t.sources, x.1.idx_pack_checksum) {
                        Some(pack_id) => {
                            get_of_put(
                                t.sources,
                                x.0,
                                SourceModel { attached_pack_id: Some(pack_id), ..old_row->0 },
                                id,
                            );
                        },
                        None => {
                            get_of_put(
                                t.sources,
                                x.0,
                                SourceModel {
                                    status: "mismatch"@,
                                    note: "找不到 pack_checksum="@ + x.1.idx_pack_checksum
                                        + " 的 pack（index 与 pack 不配套/缺 pack）"@,
                                    ..old_row->0
                                },
                                id,
                            );
                        },
                    }
                }
                match chosen_pack(t.sources, x.1.idx_pack_checksum) {
                    Some(pack_id) => {
                        let j = file_of(f.packs@, pack_id, 0);
                        if j < f.packs@.len() && f.packs@[j as int].1 is Ok {
                            let pack = f.packs@[j as int].1->Ok_0;
                            lemma_attached_sources(t, pack_id, x.0, pack, idx);
                        }
                    },
                    None => {},
                }
            }
        }
    }
}

/// Of the sources, a pairing changes only the index.
proof fn lemma_attached_sources(t: TablesModel, pack_id: i64, idx_id: i64, pack: ParsedPack, idx: ParsedIndex)
    ensures
        attached(t, pack_id, idx_id, pack, idx).sources == match get(t.sources, idx_id) {
            Some(s) => put(t.sources, idx_id, SourceModel { attached_pack_id: Some(pack_id), ..s }),
            None => t.sources,
        },
{
    let u = if idx.total != pack.entries@.len() {
        TablesModel {
            warnings: t.warnings.push(
                "index#"@ + dec_int(idx_id as int) + " fanout 对象数 "@ + dec(idx.total as nat) + " 与 pack#"@
                    + dec_int(pack_id as int) + " 解析对象数 "@ + dec(pack.entries@.len())
                    + " 不一致（index 与 pack 不配套）"@,
            ),
            ..t
        }
    } else {
        t
    };
    let w = match get(u.sources, idx_id) {
        Some(s) => TablesModel {
            sources: put(u.sources, idx_id, SourceModel { attached_pack_id: Some(pack_id), ..s }),
            ..u
        },
        None => u,
    };
    lemma_records_keep_sources(w, pack_id, idx_id, pack.entries@, idx.entries@, idx.entries@.len());
}

/// Pairs an index with a pack.
pub fn attach_one(tables: &mut Tables, pack_id: i64, idx_id: i64, pack: &ParsedPack, idx: &ParsedIndex)
    ensures
        final(tables)@ == attached(old(tables)@, pack_id, idx_id, *pack, *idx),
{
    let count: u64 = pack.entries.len() as u64;
    assert(pack.entries@.len() == pack.entries.len());
    if idx.total != count {
        let mut m = "index#".to_owned();
        push_int(&mut m, idx_id);
        m.append(" fanout 对象数 ");
        push_dec(&mut m, idx.total);
        m.append(" 与 pack#");
        push_int(&mut m, pack_id);
        m.append(" 解析对象数 ");
        push_dec(&mut m, count);
        m.append(" 不一致（index 与 pack 不配套）");
        push_part(&mut tables.warnings, m);
    }
    let row = match tables.sources.get(idx_id) {
        Some(s) => {
            let mut x = copy_source(s);
            x.attached_pack_id = Some(pack_id);
            Some(x)
        },
        None => None,
    };
    if let Some(x) = row {
        tables.sources.insert(idx_id, x);
    }
    let ghost w = tables@;
    let mut n: usize = 0;
    while n < idx.entries.len()
        invariant
            n <= idx.entries@.len(),
            tables@ == with_records(w, pack_id, idx_id, pack.entries@, idx.entries@, n as nat),
        decreases idx.entries@.len() - n,
    {
        tables.fill_record(pack_id, idx_id, &pack.entries, &idx.entries[n]);
        n += 1;
    }
}

/// Pairs every unpaired index with a pack of its checksum.
pub fn attach_all(tables: &mut Tables, files: &Files)
    ensures
        final(tables)@ == paired_upto(old(tables)@, *files, old(tables)@.sources.len()),
{
    let ghost start = tables@;
    let mut todo: Vec<(i64, String, bool)> = Vec::new();
    let mut k: usize = 0;
    while k < tables.sources.len()
        invariant
            k <= start.sources.len(),
            tables@ == start,
            todo@.len() == k,
            forall|j: int|
                0 <= j < k ==> (#[trigger] todo@[j]).0 == start.sources[j].0 && todo@[j].1@
                    == start.sources[j].1.idx_pack_checksum && todo@[j].2 == unpaired(start.sources[j].1),
        decreases start.sources.len() - k,
    {
        let x = tables.sources.value_at(k);
        let open: bool = same_text(x.kind.as_str(), "index") && x.attached_pack_id.is_none();
        todo.push((tables.sources.key_at(k), x.idx_pack_checksum.clone(), open));
        k += 1;
    }
    let mut n: usize = 0;
    while n < todo.len()
        invariant
            n <= todo@.len(),
            todo@.len() == start.sources.len(),
            forall|j: int|
                0 <= j < todo@.len() ==> (#[trigger] todo@[j]).0 == start.sources[j].0 && todo@[j].1@
                    == start.sources[j].1.idx_pack_checksum && todo@[j].2 == unpaired(start.sources[j].1),
            tables@ == paired_upto(start, *files, n as nat),
        decreases todo@.len() - n,
    {
        assert(todo@[n as int].2 == unpaired(start.sources[n as int].1));
        if todo[n].2 {
            tables.pair(files, todo[n].0, todo[n].1.as_str());
        }
        n += 1;
    }
}

/// The bytes that the pack holds at the offset of a record, by the last entry there, are sound but
/// have another checksum than the record says.
pub open spec fn bytes_differ(pack: Seq<ParsedEntry>, r: IdxRecord) -> bool {
    exists|k: int|
        0 <= k < pack.len() && (#[trigger] pack[k]).offset == r.offset && (forall|m: int|
            k < m < pack.len() ==> (#[trigger] pack[m]).offset != r.offset) && !pack[k].broken && r.crc32 is Some
            && crc32_of(pack[k].compressed@) != r.crc32->0
}

/// The row of the first candidate that a record is about.
pub open spec fn is_meant(v: Seq<(i64, CandidateModel)>, pack_id: i64, r: IdxRecord, i: int) -> bool {
    &&& 0 <= i < v.len()
    &&& v[i].1.source_id == pack_id
    &&& v[i].1.pack_offset == signed(r.offset as nat)
    &&& forall|j: int|
        0 <= j < i ==> !((#[trigger] v[j]).1.source_id == pack_id && v[j].1.pack_offset == signed(r.offset as nat))
}

proof fn lemma_entry_at(v: Seq<ParsedEntry>, offset: u64, n: nat)
    requires
        n <= v.len(),
    ensures
        match entry_at(v, offset, n) {
            Some(k) => k < n && v[k as int].offset == offset && forall|m: int|
                k < m < n ==> (#[trigger] v[m]).offset != offset,
            None => forall|m: int| 0 <= m < n ==> (#[trigger] v[m]).offset != offset,
        },
    decreases n,
{
    if n > 0 && v[n - 1].offset != offset {
        lemma_entry_at(v, offset, (n - 1) as nat);
    }
}

proof fn lemma_candidate_at(v: Seq<(i64, CandidateModel)>, pack: i64, offset: i64, n: nat, i: int)
    requires
        n <= i < v.len(),
        v[i].1.source_id == pack,
        v[i].1.pack_offset == offset,
        forall|j: int| n <= j < i ==> !((#[trigger] v[j]).1.source_id == pack && v[j].1.pack_offset == offset),
    ensures
        candidate_at(v, pack, offset, n) == Some(v[i].0),
    decreases v.len() - n,
{
    if n < i {
        lemma_candidate_at(v, pack, offset, n + 1, i);
    }
}

proof fn lemma_no_candidate(v: Seq<(i64, CandidateModel)>, pack: i64, offset: i64, n: nat)
    requires
        forall|j: int|
            n <= j < v.len() ==> !((#[trigger] v[j]).1.source_id == pack && v[j].1.pack_offset == offset),
    ensures
        candidate_at(v, pack, offset, n) is None,
    decreases v.len() - n,
{
    if n < v.len() {
        lemma_no_candidate(v, pack, offset, n + 1);
    }
}

proof fn lemma_put_row(v: Seq<(i64, CandidateModel)>, i: int, c: CandidateModel)
    requires
        keyed(v),
        0 <= i < v.len(),
    ensures
        get(v, v[i].0) == Some(v[i].1),
        put(v, v[i].0, c) == v.update(i, (v[i].0, c)),
{
    lemma_row(v, v[i].0);
    assert(row_of(v, v[i].0) == i) by {
        if row_of(v, v[i].0) < i {
            assert(v[row_of(v, v[i].0) as int].0 == v[i].0);
        }
    }
}

/// A record makes its candidate bad, with the code of a checksum that does not match and a warning,
/// exactly when the pack holds sound bytes at the offset whose checksum is another than the one
/// that the record gives. In every other case the status and the parse error stay. Either way the
/// candidate takes the id and the checksum of the record, and no other candidate changes.
pub proof fn a_record_marks_exactly_the_bytes_that_differ(
    t: TablesModel,
    pack_id: i64,
    idx_id: i64,
    pack: Seq<ParsedEntry>,
    r: IdxRecord,
    i: int,
)
    requires
        keyed(t.candidates),
        is_meant(t.candidates, pack_id, r, i),
    ensures
        ({
            let v = with_record(t, pack_id, idx_id, pack, r);
            let c = t.candidates[i].1;
            let d = v.candidates[i].1;
            &&& v.candidates == t.candidates.update(i, (t.candidates[i].0, d))
            &&& v.sources == t.sources
            &&& d.source_id == c.source_id
            &&& d.pack_offset == c.pack_offset
            &&& d.claim_oid == Some(hex(r.oid@))
            &&& d.idx_crc == r.crc32
            &&& bytes_differ(pack, r) ==> d.status == "bad"@ && d.parse_error_code == Some("crc_mismatch"@)
                && d.parse_error is Some && v.warnings.len() == t.warnings.len() + 1
            &&& !bytes_differ(pack, r) ==> d.status == c.status && d.parse_error_code == c.parse_error_code
                && d.parse_error == c.parse_error && v.warnings == t.warnings
            &&& forall|k: int|
                0 <= k < pack.len() && (#[trigger] pack[k]).offset == r.offset && (forall|m: int|
                    k < m < pack.len() ==> (#[trigger] pack[m]).offset != r.offset) && r.crc32 is Some ==> d.crc_ok
                    == Some(crc32_of(pack[k].compressed@) == r.crc32->0)
            &&& (r.crc32 is None || forall|k: int| 0 <= k < pack.len() ==> (#[trigger] pack[k]).offset != r.offset)
                ==> d.crc_ok == c.crc_ok
        }),
{
    let at = signed(r.offset as nat);
    lemma_candidate_at(t.candidates, pack_id, at, 0, i);
    lemma_entry_at(pack, r.offset, pack.len());
    let v = with_record(t, pack_id, idx_id, pack, r);
    let id = t.candidates[i].0;
    let c = t.candidates[i].1;
    lemma_put_row(t.candidates, i, c);
    let d = get(v.candidates, id)->0;
    assert forall|x: CandidateModel| #[trigger] put(t.candidates, id, x) == t.candidates.update(i, (id, x)) by {
        lemma_put_row(t.candidates, i, x);
    }
    if let Some(k) = entry_at(pack, r.offset, pack.len()) {
        assert(pack[k as int].offset == r.offset);
        assert forall|m: int|
            0 <= m < pack.len() && (#[trigger] pack[m]).offset == r.offset && (forall|l: int|
                m < l < pack.len() ==> (#[trigger] pack[l]).offset != r.offset) implies m == k by {
            if m < k {
                assert(pack[k as int].offset != r.offset);
            }
        }
    }
}

/// A record that is about no candidate changes none, and leaves a warning.
pub proof fn a_record_of_no_candidate_is_only_a_warning(
    t: TablesModel,
    pack_id: i64,
    idx_id: i64,
    pack: Seq<ParsedEntry>,
    r: IdxRecord,
)
    requires
        forall|j: int|
            0 <= j < t.candidates.len() ==> !((#[trigger] t.candidates[j]).1.source_id == pack_id
                && t.candidates[j].1.pack_offset == signed(r.offset as nat)),
    ensures
        with_record(t, pack_id, idx_id, pack, r).candidates == t.candidates,
        with_record(t, pack_id, idx_id, pack, r).sources == t.sources,
        with_record(t, pack_id, idx_id, pack, r).warnings.len() == t.warnings.len() + 1,
{
    lemma_no_candidate(t.candidates, pack_id, signed(r.offset as nat), 0);
}

/// What filling in the first `n` records leaves of the candidates: their keys and places.
proof fn lemma_records_keep_places(
    t: TablesModel,
    pack_id: i64,
    idx_id: i64,
    pack: Seq<ParsedEntry>,
    rows: Seq<IdxRecord>,
    n: nat,
)
    requires
        n <= rows.len(),
        keyed(t.candidates),
    ensures
        ({
            let v = with_records(t, pack_id, idx_id, pack, rows, n).candidates;
            &&& v.len() == t.candidates.len()
            &&& keyed(v)
            &&& forall|i: int|
                0 <= i < v.len() ==> (#[trigger] v[i]).0 == t.candidates[i].0 && v[i].1.source_id
                    == t.candidates[i].1.source_id && v[i].1.pack_offset == t.candidates[i].1.pack_offset
        }),
    decreases n,
{
    if n > 0 {
        lemma_records_keep_places(t, pack_id, idx_id, pack, rows, (n - 1) as nat);
        let u = with_records(t, pack_id, idx_id, pack, rows, (n - 1) as nat);
        lemma_record_cases(u, pack_id, idx_id, pack, rows[n - 1]);
    }
}

proof fn lemma_first_meant(v: Seq<(i64, CandidateModel)>, pack_id: i64, r: IdxRecord, n: nat) -> (i: int)
    requires
        n <= v.len(),
        exists|j: int|
            0 <= j < n && (#[trigger] v[j]).1.source_id == pack_id && v[j].1.pack_offset == signed(r.offset as nat),
    ensures
        is_meant(v, pack_id, r, i),
        i < n,
    decreases n,
{
    if exists|j: int|
        0 <= j < n - 1 && (#[trigger] v[j]).1.source_id == pack_id && v[j].1.pack_offset == signed(
            r.offset as nat,
        ) {
        lemma_first_meant(v, pack_id, r, (n - 1) as nat)
    } else {
        n - 1
    }
}

proof fn lemma_record_cases(t: TablesModel, pack_id: i64, idx_id: i64, pack: Seq<ParsedEntry>, r: IdxRecord)
    requires
        keyed(t.candidates),
    ensures
        ({
            let v = with_record(t, pack_id, idx_id, pack, r).candidates;
            &&& v.len() == t.candidates.len()
            &&& keyed(v)
            &&& forall|i: int|
                0 <= i < v.len() ==> (#[trigger] v[i]).0 == t.candidates[i].0 && v[i].1.source_id
                    == t.candidates[i].1.source_id && v[i].1.pack_offset == t.candidates[i].1.pack_offset
            &&& forall|i: int|
                0 <= i < v.len() && !is_meant(t.candidates, pack_id, r, i) ==> #[trigger] v[i] == t.candidates[i]
        }),
{
    let v = with_record(t, pack_id, idx_id, pack, r).candidates;
    if exists|j: int|
        0 <= j < t.candidates.len() && (#[trigger] t.candidates[j]).1.source_id == pack_id
            && t.candidates[j].1.pack_offset == signed(r.offset as nat) {
        let i = lemma_first_meant(t.candidates, pack_id, r, t.candidates.len());
        a_record_marks_exactly_the_bytes_that_differ(t, pack_id, idx_id, pack, r, i);
    } else {
        a_record_of_no_candidate_is_only_a_warning(t, pack_id, idx_id, pack, r);
    }
}

proof fn lemma_meant_same(
    v: Seq<(i64, CandidateModel)>,
    u: Seq<(i64, CandidateModel)>,
    pack_id: i64,
    r: IdxRecord,
    i: int,
)
    requires
        v.len() == u.len(),
        forall|j: int|
            0 <= j < v.len() ==> (#[trigger] v[j]).1.source_id == u[j].1.source_id && v[j].1.pack_offset
                == u[j].1.pack_offset,
    ensures
        is_meant(v, pack_id, r, i) == is_meant(u, pack_id, r, i),
{
    if is_meant(v, pack_id, r, i) {
        assert(v[i].1.source_id == u[i].1.source_id);
        assert forall|j: int| 0 <= j < i implies !((#[trigger] u[j]).1.source_id == pack_id && u[j].1.pack_offset
            == signed(r.offset as nat)) by {
            assert(v[j].1.source_id == u[j].1.source_id);
        }
    }
    if is_meant(u, pack_id, r, i) {
        assert(v[i].1.source_id == u[i].1.source_id);
    }
}

/// Over a whole index whose records have different offsets, a candidate comes out bad exactly when
/// it was bad or the record about it differs from sound bytes of the pack; without a record about
/// it a candidate stays as it is.
pub proof fn an_index_marks_exactly_the_bytes_that_differ(
    t: TablesModel,
    pack_id: i64,
    idx_id: i64,
    pack: Seq<ParsedEntry>,
    rows: Seq<IdxRecord>,
    n: nat,
    i: int,
)
    requires
        n <= rows.len(),
        keyed(t.candidates),
        0 <= i < t.candidates.len(),
        forall|a: int, b: int| 0 <= a < b < rows.len() ==> (#[trigger] rows[a]).offset != (#[trigger] rows[b]).offset,
    ensures
        ({
            let c = t.candidates[i].1;
            let d = with_records(t, pack_id, idx_id, pack, rows, n).candidates[i].1;
            &&& forall|m: int|
                0 <= m < n && is_meant(t.candidates, pack_id, #[trigger] rows[m], i) ==> {
                    &&& d.claim_oid == Some(hex(rows[m].oid@))
                    &&& bytes_differ(pack, rows[m]) ==> d.status == "bad"@ && d.parse_error_code == Some(
                        "crc_mismatch"@,
                    )
                    &&& !bytes_differ(pack, rows[m]) ==> d.status == c.status && d.parse_error_code
                        == c.parse_error_code && d.parse_error == c.parse_error
                }
            &&& (forall|m: int| 0 <= m < n ==> !is_meant(t.candidates, pack_id, #[trigger] rows[m], i)) ==> d == c
        }),
    decreases n,
{
    if n > 0 {
        an_index_marks_exactly_the_bytes_that_differ(t, pack_id, idx_id, pack, rows, (n - 1) as nat, i);
        lemma_records_keep_places(t, pack_id, idx_id, pack, rows, (n - 1) as nat);
        let u = with_records(t, pack_id, idx_id, pack, rows, (n - 1) as nat);
        let r = rows[n - 1];
        lemma_meant_same(t.candidates, u.candidates, pack_id, r, i);
        lemma_record_cases(u, pack_id, idx_id, pack, r);
        if is_meant(t.candidates, pack_id, r, i) {
            a_record_marks_exactly_the_bytes_that_differ(u, pack_id, idx_id, pack, r, i);
            assert forall|m: int| 0 <= m < n - 1 implies !is_meant(t.candidates, pack_id, #[trigger] rows[m], i) by {
                assert(rows[m].offset != rows[n - 1].offset);
                if is_meant(t.candidates, pack_id, rows[m], i) {
                    lemma_signed_is_one_to_one(rows[m].offset, r.offset);
                }
            }
        } else {
            let v = with_record(u, pack_id, idx_id, pack, r).candidates;
            assert(v[i] == u.candidates[i]);
        }
    }
}

proof fn lemma_signed_is_one_to_one(a: u64, b: u64)
    requires
        signed(a as nat) == signed(b as nat),
    ensures
        a == b,
{
}

proof fn lemma_least_pack(v: Seq<(i64, SourceModel)>, checksum: Seq<char>, free: bool, n: nat)
    requires
        n <= v.len(),
    ensures
        match least_pack(v, checksum, free, n) {
            Some(p) => (exists|i: int| 0 <= i < n && (#[trigger] v[i]).0 == p && suits(v, i, checksum, free))
                && forall|i: int| 0 <= i < n && suits(v, i, checksum, free) ==> p <= (#[trigger] v[i]).0,
            None => forall|i: int| 0 <= i < n ==> !#[trigger] suits(v, i, checksum, free),
        },
    decreases n,
{
    if n > 0 {
        lemma_least_pack(v, checksum, free, (n - 1) as nat);
        assert(v[n - 1].0 == v[n - 1].0);
    }
}

/// An index is paired with a pack of its checksum: with the least that no index is paired with, or
/// with the least of all when every one is taken. Without a pack of the checksum it is paired with
/// none.
pub proof fn an_index_is_paired_by_checksum(v: Seq<(i64, SourceModel)>, checksum: Seq<char>)
    ensures
        chosen_pack(v, checksum) is None <==> forall|i: int|
            0 <= i < v.len() ==> !((#[trigger] v[i]).1.kind == "pack"@ && v[i].1.pack_checksum == Some(checksum)),
        chosen_pack(v, checksum) matches Some(p) ==> exists|i: int|
            0 <= i < v.len() && (#[trigger] v[i]).0 == p && v[i].1.kind == "pack"@ && v[i].1.pack_checksum == Some(
                checksum,
            ),
        forall|i: int|
            0 <= i < v.len() && (#[trigger] v[i]).1.kind == "pack"@ && v[i].1.pack_checksum == Some(checksum)
                && !(exists|j: int|
                0 <= j < v.len() && (#[trigger] v[j]).1.kind == "index"@ && v[j].1.attached_pack_id == Some(v[i].0))
                ==> chosen_pack(v, checksum)->0 <= v[i].0 && !(exists|j: int|
                0 <= j < v.len() && (#[trigger] v[j]).1.kind == "index"@ && v[j].1.attached_pack_id
                    == chosen_pack(v, checksum)),
{
    lemma_least_pack(v, checksum, true, v.len());
    lemma_least_pack(v, checksum, false, v.len());
    if least_pack(v, checksum, true, v.len()) is None && least_pack(v, checksum, false, v.len()) is None {
        assert forall|i: int| 0 <= i < v.len() implies !((#[trigger] v[i]).1.kind == "pack"@
            && v[i].1.pack_checksum == Some(checksum)) by {
            assert(!suits(v, i, checksum, false));
        }
    } else if let Some(p) = chosen_pack(v, checksum) {
        let free = least_pack(v, checksum, true, v.len()) is Some;
        let i = choose|i: int| 0 <= i < v.len() && (#[trigger] v[i]).0 == p && suits(v, i, checksum, free);
        assert(v[i].1.kind == "pack"@);
    }
    assert forall|i: int|
        0 <= i < v.len() && (#[trigger] v[i]).1.kind == "pack"@ && v[i].1.pack_checksum == Some(checksum) && !(
        exists|j: int|
            0 <= j < v.len() && (#[trigger] v[j]).1.kind == "index"@ && v[j].1.attached_pack_id == Some(v[i].0))
        implies chosen_pack(v, checksum)->0 <= v[i].0 && !(exists|j: int|
        0 <= j < v.len() && (#[trigger] v[j]).1.kind == "index"@ && v[j].1.attached_pack_id == chosen_pack(
            v,
            checksum,
        )) by {
        assert(!occupied(v, v[i].0));
        assert(suits(v, i, checksum, true));
        let p = least_pack(v, checksum, true, v.len())->0;
        let k = choose|k: int| 0 <= k < v.len() && (#[trigger] v[k]).0 == p && suits(v, k, checksum, true);
        assert(!occupied(v, p));
    }
}

/// An unpaired index whose file and whose pack could be read is paired with a pack of its checksum;
/// without one it is marked, and nothing else of the sources and no candidate changes.
pub proof fn pairing_one_index(t: TablesModel, f: Files, idx_id: i64, checksum: Seq<char>, k: int)
    requires
        0 <= k < f.indexes@.len(),
        f.indexes@[k].0 == idx_id,
        forall|j: int| 0 <= j < k ==> (#[trigger] f.indexes@[j]).0 != idx_id,
        f.indexes@[k].1 matches Ok(x) && !x.fatal,
        has_key(t.sources, idx_id),
    ensures
        ({
            let v = paired_one(t, f, idx_id, checksum);
            &&& chosen_pack(t.sources, checksum) is None ==> v.candidates == t.candidates && get(v.sources, idx_id)
                is Some && get(v.sources, idx_id)->0.status == "mismatch"@ && get(
                v.sources,
                idx_id,
            )->0.attached_pack_id == get(t.sources, idx_id)->0.attached_pack_id
            &&& chosen_pack(t.sources, checksum) matches Some(p) ==> forall|j: int|
                0 <= j < f.packs@.len() && (#[trigger] f.packs@[j]).0 == p && f.packs@[j].1 is Ok && (forall|m: int|
                    0 <= m < j ==> (#[trigger] f.packs@[m]).0 != p) ==> get(v.sources, idx_id) == Some(
                    SourceModel { attached_pack_id: Some(p), ..get(t.sources, idx_id)->0 },
                )
        }),
{
    lemma_file_of(f.indexes@, idx_id, 0, k);
    let s = get(t.sources, idx_id)->0;
    assert forall|x: SourceModel| get(#[trigger] put(t.sources, idx_id, x), idx_id) == Some(x) by {
        get_of_put(t.sources, idx_id, x, idx_id);
    }
    if let Some(p) = chosen_pack(t.sources, checksum) {
        let idx = f.indexes@[k].1->Ok_0;
        assert forall|j: int|
            0 <= j < f.packs@.len() && (#[trigger] f.packs@[j]).0 == p && f.packs@[j].1 is Ok && (forall|m: int|
                0 <= m < j ==> (#[trigger] f.packs@[m]).0 != p) implies get(
            paired_one(t, f, idx_id, checksum).sources,
            idx_id,
        ) == Some(SourceModel { attached_pack_id: Some(p), ..s }) by {
            lemma_file_of(f.packs@, p, 0, j);
            lemma_attached_sources(t, p, idx_id, f.packs@[j].1->Ok_0, idx);
        }
    }
}

proof fn lemma_file_of<T>(v: Seq<(i64, Result<T, String>)>, id: i64, n: nat, k: int)
    requires
        n <= k < v.len(),
        v[k].0 == id,
        forall|j: int| n <= j < k ==> (#[trigger] v[j]).0 != id,
    ensures
        file_of(v, id, n) == k,
    decreases v.len() - n,
{
    if n < k {
        lemma_file_of(v, id, n + 1, k);
    }
}

} // verus!
