//! The rows of imported files: what is known of each, which pack and index belong together, and
//! the fanout tables of the indexes.
use vstd::prelude::*;
use crate::model::assoc::{get, get_of_put, has_key, put, IdMap};
use crate::model::text::{push_part, same_text, texts};

verus! {

/// What was read from the frame of a file.
#[derive(Debug)]
pub enum SourceDetail {
    Pack {
        pack_sha: String,
        trailer_sha: String,
        checksum_ok: bool,
        object_count: u64,
        /// An index has been read beside it.
        idx_present: bool,
        parse_errors: Vec<String>,
    },
    Idx {
        pack_sha: String,
        idx_sha: String,
        trailer_sha: String,
        checksum_ok: bool,
        object_count: u64,
    },
    Loose { oid: String, zlib_start: u64, zlib_end: u64, header_len: u64 },
}

/// The model of a detail.
pub ghost enum DetailModel {
    Pack {
        pack_sha: Seq<char>,
        trailer_sha: Seq<char>,
        checksum_ok: bool,
        object_count: u64,
        idx_present: bool,
        parse_errors: Seq<Seq<char>>,
    },
    Idx {
        pack_sha: Seq<char>,
        idx_sha: Seq<char>,
        trailer_sha: Seq<char>,
        checksum_ok: bool,
        object_count: u64,
    },
    Loose { oid: Seq<char>, zlib_start: u64, zlib_end: u64, header_len: u64 },
}

impl View for SourceDetail {
    type V = DetailModel;

    open spec fn view(&self) -> DetailModel {
        match *self {
            SourceDetail::Pack {
                pack_sha,
                trailer_sha,
                checksum_ok,
                object_count,
                idx_present,
                parse_errors,
            } => DetailModel::Pack {
                pack_sha: pack_sha@,
                trailer_sha: trailer_sha@,
                checksum_ok,
                object_count,
                idx_present,
                parse_errors: texts(parse_errors@),
            },
            SourceDetail::Idx { pack_sha, idx_sha, trailer_sha, checksum_ok, object_count } => DetailModel::Idx {
                pack_sha: pack_sha@,
                idx_sha: idx_sha@,
                trailer_sha: trailer_sha@,
                checksum_ok,
                object_count,
            },
            SourceDetail::Loose { oid, zlib_start, zlib_end, header_len } => DetailModel::Loose {
                oid: oid@,
                zlib_start,
                zlib_end,
                header_len,
            },
        }
    }
}

/// An imported file.
#[derive(Debug)]
pub struct SourceRow {
    pub kind: String,
    pub filename: String,
    pub stored_path: String,
    pub sha256: String,
    pub byte_len: i64,
    /// The index of a pack, or the pack of an index.
    pub linked_pack_source_id: Option<i64>,
    pub detail: Option<SourceDetail>,
}

/// The model of an imported file.
pub ghost struct SourceModel {
    pub kind: Seq<char>,
    pub filename: Seq<char>,
    pub stored_path: Seq<char>,
    pub sha256: Seq<char>,
    pub byte_len: i64,
    pub linked_pack_source_id: Option<i64>,
    pub detail: Option<DetailModel>,
}

/// The model of an optional detail.
pub open spec fn detail_opt(d: Option<SourceDetail>) -> Option<DetailModel> {
    match d {
        Some(x) => Some(x@),
        None => None,
    }
}

impl DeepView for SourceRow {
    type V = SourceModel;

    open spec fn deep_view(&self) -> SourceModel {
        SourceModel {
            kind: self.kind@,
            filename: self.filename@,
            stored_path: self.stored_path@,
            sha256: self.sha256@,
            byte_len: self.byte_len,
            linked_pack_source_id: self.linked_pack_source_id,
            detail: detail_opt(self.detail),
        }
    }
}

/// One bucket of the fanout table of an index.
#[derive(Clone, Copy, Debug)]
pub struct FanoutRow {
    pub source_id: i64,
    pub bucket: i64,
    pub value: i64,
}

/// The first source with given content, from row `n` on.
pub open spec fn known_source(v: Seq<(i64, SourceModel)>, sha: Seq<char>, n: nat) -> Option<i64>
    decreases v.len() - n,
{
    if n >= v.len() {
        None
    } else if v[n as int].1.sha256 == sha {
        Some(v[n as int].0)
    } else {
        known_source(v, sha, n + 1)
    }
}

/// Finds the first source with given content.
pub fn find_source(v: &IdMap<SourceRow>, sha: &str) -> (r: Option<i64>)
    ensures
        r == known_source(v@, sha@, 0),
{
    let mut n: usize = 0;
    while n < v.len()
        invariant
            n <= v@.len(),
            known_source(v@, sha@, 0) == known_source(v@, sha@, n as nat),
        decreases v@.len() - n,
    {
        if same_text(v.value_at(n).sha256.as_str(), sha) {
            return Some(v.key_at(n));
        }
        n += 1;
    }
    None
}

/// The sources with a detail noted on one of them.
pub open spec fn detailed(v: Seq<(i64, SourceModel)>, id: i64, d: DetailModel) -> Seq<(i64, SourceModel)> {
    match get(v, id) {
        Some(s) => put(v, id, SourceModel { detail: Some(d), ..s }),
        None => v,
    }
}

/// The sources with a link from one of them to another.
pub open spec fn linked(v: Seq<(i64, SourceModel)>, id: i64, other: i64) -> Seq<(i64, SourceModel)> {
    match get(v, id) {
        Some(s) => put(v, id, SourceModel { linked_pack_source_id: Some(other), ..s }),
        None => v,
    }
}

/// A detail that says that an index is there, where it is that of a pack.
pub open spec fn with_index(d: DetailModel) -> DetailModel {
    match d {
        DetailModel::Pack { pack_sha, trailer_sha, checksum_ok, object_count, idx_present: _, parse_errors } =>
            DetailModel::Pack { pack_sha, trailer_sha, checksum_ok, object_count, idx_present: true, parse_errors },
        _ => d,
    }
}

/// The sources with the note on a pack that its index is there.
pub open spec fn indexed(v: Seq<(i64, SourceModel)>, id: i64) -> Seq<(i64, SourceModel)> {
    match get(v, id) {
        Some(s) => match s.detail {
            Some(d) => put(v, id, SourceModel { detail: Some(with_index(d)), ..s }),
            None => v,
        },
        None => v,
    }
}

fn copy_texts(v: &Vec<String>) -> (r: Vec<String>)
    ensures
        texts(r@) == texts(v@),
{
    let mut r: Vec<String> = Vec::new();
    let mut i: usize = 0;
    assert(texts(r@) =~= texts(v@).take(0));
    while i < v.len()
        invariant
            i <= v@.len(),
            texts(r@) == texts(v@).take(i as int),
        decreases v@.len() - i,
    {
        push_part(&mut r, v[i].clone());
        i += 1;
        assert(texts(r@) =~= texts(v@).take(i as int));
    }
    assert(texts(v@).take(i as int) =~= texts(v@));
    r
}

fn copy_detail(d: &SourceDetail, paired: bool) -> (r: SourceDetail)
    ensures
        r@ == if paired {
            with_index(d@)
        } else {
            d@
        },
{
    match d {
        SourceDetail::Pack { pack_sha, trailer_sha, checksum_ok, object_count, idx_present, parse_errors } =>
            SourceDetail::Pack {
                pack_sha: pack_sha.clone(),
                trailer_sha: trailer_sha.clone(),
                checksum_ok: *checksum_ok,
                object_count: *object_count,
                idx_present: *idx_present || paired,
                parse_errors: copy_texts(parse_errors),
            },
        SourceDetail::Idx { pack_sha, idx_sha, trailer_sha, checksum_ok, object_count } => SourceDetail::Idx {
            pack_sha: pack_sha.clone(),
            idx_sha: idx_sha.clone(),
            trailer_sha: trailer_sha.clone(),
            checksum_ok: *checksum_ok,
            object_count: *object_count,
        },
        SourceDetail::Loose { oid, zlib_start, zlib_end, header_len } => SourceDetail::Loose {
            oid: oid.clone(),
            zlib_start: *zlib_start,
            zlib_end: *zlib_end,
            header_len: *header_len,
        },
    }
}

/// A source with another link and detail.
fn changed(s: &SourceRow, link: Option<i64>, detail: Option<SourceDetail>) -> (r: SourceRow)
    ensures
        r.deep_view() == (SourceModel {
            linked_pack_source_id: link,
            detail: detail_opt(detail),
            ..s.deep_view()
        }),
{
    SourceRow {
        kind: s.kind.clone(),
        filename: s.filename.clone(),
        stored_path: s.stored_path.clone(),
        sha256: s.sha256.clone(),
        byte_len: s.byte_len,
        linked_pack_source_id: link,
        detail,
    }
}

/// Notes a detail on a source, where it is there.
pub fn note_detail(v: &mut IdMap<SourceRow>, id: i64, d: SourceDetail)
    ensures
        final(v)@ == detailed(old(v)@, id, d@),
{
    let row: SourceRow = match v.get(id) {
        Some(s) => changed(s, s.linked_pack_source_id, Some(d)),
        None => return,
    };
    v.insert(id, row);
}

/// Notes on a source which other one belongs to it.
pub fn note_link(v: &mut IdMap<SourceRow>, id: i64, other: i64)
    ensures
        final(v)@ == linked(old(v)@, id, other),
{
    let row: SourceRow = match v.get(id) {
        Some(s) => changed(
            s,
            Some(other),
            match &s.detail {
                Some(d) => Some(copy_detail(d, false)),
                None => None,
            },
        ),
        None => return,
    };
    v.insert(id, row);
}

/// Notes on a pack that its index is there.
pub fn note_index(v: &mut IdMap<SourceRow>, id: i64)
    ensures
        final(v)@ == indexed(old(v)@, id),
{
    let row: SourceRow = match v.get(id) {
        Some(s) => match &s.detail {
            Some(d) => changed(s, s.linked_pack_source_id, Some(copy_detail(d, true))),
            None => return,
        },
        None => return,
    };
    v.insert(id, row);
}

proof fn lemma_known_from(v: Seq<(i64, SourceModel)>, sha: Seq<char>, n: nat, i: int)
    requires
        n <= i < v.len(),
        v[i].1.sha256 == sha,
    ensures
        known_source(v, sha, n) is Some,
    decreases v.len() - n,
{
    if v[n as int].1.sha256 != sha {
        lemma_known_from(v, sha, n + 1, i);
    }
}

proof fn lemma_known_at(v: Seq<(i64, SourceModel)>, sha: Seq<char>, n: nat) -> (i: int)
    requires
        known_source(v, sha, n) is Some,
    ensures
        n <= i < v.len(),
        v[i].1.sha256 == sha,
    decreases v.len() - n,
{
    if v[n as int].1.sha256 == sha {
        n as int
    } else {
        lemma_known_at(v, sha, n + 1)
    }
}

/// Replacing a source by one with the same content keeps what is known.
pub proof fn lemma_known_kept(v: Seq<(i64, SourceModel)>, id: i64, s: SourceModel, sha: Seq<char>)
    requires
        get(v, id) matches Some(x) && x.sha256 == s.sha256,
        known_source(v, sha, 0) is Some,
    ensures
        known_source(put(v, id, s), sha, 0) is Some,
{
    let i = lemma_known_at(v, sha, 0);
    let w = put(v, id, s);
    assert(w[i].1.sha256 == sha);
    lemma_known_from(w, sha, 0, i);
}

/// A source that is put in is known by its content.
pub proof fn lemma_known_put(v: Seq<(i64, SourceModel)>, id: i64, s: SourceModel)
    ensures
        known_source(put(v, id, s), s.sha256, 0) is Some,
{
    let w = put(v, id, s);
    let i = crate::model::assoc::row_of(v, id) as int;
    if crate::model::assoc::has_key(v, id) {
        lemma_known_from(w, s.sha256, 0, i);
    } else {
        lemma_known_from(w, s.sha256, 0, v.len() as int);
    }
}

/// A file is known exactly when a row has its content, and then by a row that has it.
pub proof fn known_files_are_found_by_content(v: Seq<(i64, SourceModel)>, sha: Seq<char>, n: nat)
    requires
        n <= v.len(),
    ensures
        known_source(v, sha, n) is Some <==> exists|i: int| n <= i < v.len() && (#[trigger] v[i]).1.sha256 == sha,
        known_source(v, sha, n) is Some ==> exists|i: int|
            n <= i < v.len() && (#[trigger] v[i]).1.sha256 == sha && v[i].0 == known_source(v, sha, n)->0,
    decreases v.len() - n,
{
    if n < v.len() {
        if v[n as int].1.sha256 != sha {
            known_files_are_found_by_content(v, sha, n + 1);
        }
    }
}

/// A note changes the source that it is on, in what it says and in nothing else; the others stay.
pub proof fn notes_change_one_source(v: Seq<(i64, SourceModel)>, id: i64, d: DetailModel, other: i64, far: i64)
    requires
        has_key(v, id),
        other != id,
    ensures
        ({
            let s = get(v, id)->0;
            let a = get(detailed(v, id, d), id)->0;
            let b = get(linked(v, id, far), id)->0;
            let c = get(indexed(v, id), id)->0;
            &&& a.detail == Some(d) && a.linked_pack_source_id == s.linked_pack_source_id && a.sha256 == s.sha256 && a.kind
                == s.kind && a.filename == s.filename && a.stored_path == s.stored_path && a.byte_len == s.byte_len
            &&& b.linked_pack_source_id == Some(far) && b.detail == s.detail && b.sha256 == s.sha256 && b.kind == s.kind
                && b.filename == s.filename && b.stored_path == s.stored_path && b.byte_len == s.byte_len
            &&& c.linked_pack_source_id == s.linked_pack_source_id && c.sha256 == s.sha256 && c.kind == s.kind
            &&& s.detail is Some && s.detail->0 is Pack ==> c.detail is Some && c.detail->0 is Pack
                && c.detail->0->idx_present && c.detail->0->Pack_pack_sha == s.detail->0->Pack_pack_sha
                && c.detail->0->Pack_checksum_ok == s.detail->0->Pack_checksum_ok && c.detail->0->Pack_object_count
                == s.detail->0->Pack_object_count
            &&& !(s.detail is Some && s.detail->0 is Pack) ==> c.detail == s.detail
            &&& get(detailed(v, id, d), other) == get(v, other)
            &&& get(linked(v, id, far), other) == get(v, other)
            &&& get(indexed(v, id), other) == get(v, other)
        }),
{
    let s = get(v, id)->0;
    get_of_put(v, id, SourceModel { detail: Some(d), ..s }, other);
    get_of_put(v, id, SourceModel { linked_pack_source_id: Some(far), ..s }, other);
    if let Some(x) = s.detail {
        get_of_put(v, id, SourceModel { detail: Some(with_index(x)), ..s }, other);
    }
}

} // verus!
