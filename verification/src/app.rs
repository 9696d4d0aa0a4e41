//! What importing, deleting and pinning touch: the kinds of files, the names under which they
//! are kept, and the entries that have to be reconstructed again.
use vstd::prelude::*;
use vstd::string::{StrSliceExecFns, StringExecFns};
use crate::analyze::graph::{copy_opt, text_opt};
use crate::engine::sha256_hex;
use crate::model::assoc::{del, get, get_of_put, has_key, lemma_row, put, IdMap, TextMap};
use crate::model::bytes::begins_with;
use crate::model::idset::{ascending, close_ids, closed_under, has_id, insert_id, stands_on};
use crate::model::order::views;
use crate::model::outside::sha256_of;
use crate::model::text::{
    ends_with_lower, find_last, hex, is_hex_char, last_at, lower_ends_with, part_of, push_part, same_text, texts,
};

verus! {

#[derive(Clone, Copy, Debug, PartialEq, Eq, Structural)]
pub enum FileKind {
    Loose,
    Pack,
    Idx,
    Unknown,
}

/// What kind of file a name and bytes suggest.
pub open spec fn kind_of(name: Seq<char>, bytes: Seq<u8>) -> FileKind {
    if lower_ends_with(name, ".pack"@) || seq![80u8, 65, 67, 75].is_prefix_of(bytes) {
        FileKind::Pack
    } else if lower_ends_with(name, ".idx"@) || seq![255u8, 116, 79, 99].is_prefix_of(bytes) {
        FileKind::Idx
    } else if bytes.len() > 0 && bytes[0] == 0x78 {
        FileKind::Loose
    } else {
        FileKind::Unknown
    }
}

/// Tells the kind of a file. A loose object is a zlib stream, which starts with 0x78.
pub fn classify(name: &str, bytes: &[u8]) -> (k: FileKind)
    ensures
        k == kind_of(name@, bytes@),
{
    let pack: [u8; 4] = [80, 65, 67, 75];
    let idx: [u8; 4] = [255, 116, 79, 99];
    assert(pack@ =~= seq![80u8, 65, 67, 75]);
    assert(idx@ =~= seq![255u8, 116, 79, 99]);
    if ends_with_lower(name, ".pack") || begins_with(bytes, pack.as_slice()) {
        FileKind::Pack
    } else if ends_with_lower(name, ".idx") || begins_with(bytes, idx.as_slice()) {
        FileKind::Idx
    } else if bytes.len() > 0 && bytes[0] == 0x78 {
        FileKind::Loose
    } else {
        FileKind::Unknown
    }
}

impl FileKind {
    /// The name of the kind.
    pub open spec fn text(self) -> Seq<char> {
        match self {
            FileKind::Pack => "pack"@,
            FileKind::Idx => "idx"@,
            FileKind::Loose => "loose"@,
            FileKind::Unknown => "unknown"@,
        }
    }

    pub fn name(self) -> (s: &'static str)
        ensures
            s@ == self.text(),
    {
        match self {
            FileKind::Pack => "pack",
            FileKind::Idx => "idx",
            FileKind::Loose => "loose",
            FileKind::Unknown => "unknown",
        }
    }
}

/// A character that may stand in the name of a kept file.
pub open spec fn is_safe(c: char) -> bool {
    ('0' <= c && c <= '9') || ('a' <= c && c <= 'z') || ('A' <= c && c <= 'Z') || c == '.' || c == '_' || c
        == '-'
}

/// A name with every other character replaced.
pub open spec fn safe_name(s: Seq<char>) -> Seq<char> {
    s.map_values(
        |c: char|
            if is_safe(c) {
                c
            } else {
                '_'
            },
    )
}

/// Where a file is kept, below the data directory.
pub open spec fn kept_name(original: Seq<char>, bytes: Seq<u8>) -> Seq<char> {
    "raw/"@ + safe_name(original) + "."@ + hex(sha256_of(bytes)) + match kind_of(original, bytes) {
        FileKind::Pack => ".pack"@,
        FileKind::Idx => ".idx"@,
        _ => ""@,
    }
}

/// Where a file is kept, below the data directory, and the digest of its content.
pub fn raw_name(original: &str, bytes: &[u8]) -> (r: (String, String))
    ensures
        r.0@ == kept_name(original@, bytes@),
        r.1@ == hex(sha256_of(bytes@)),
{
    let sha = sha256_hex(bytes);
    let n: usize = original.unicode_len();
    let mut safe = String::new();
    let mut i: usize = 0;
    while i < n
        invariant
            n == original@.len(),
            i <= n,
            safe@ == safe_name(original@).take(i as int),
        decreases n - i,
    {
        let c: char = original.get_char(i);
        let ok: bool = ('0' <= c && c <= '9') || ('a' <= c && c <= 'z') || ('A' <= c && c <= 'Z') || c == '.'
            || c == '_' || c == '-';
        safe.push(
            if ok {
                c
            } else {
                '_'
            },
        );
        i += 1;
        assert(safe@ =~= safe_name(original@).take(i as int));
    }
    assert(safe@ =~= safe_name(original@));
    let mut rel = "raw/".to_owned();
    rel.append(safe.as_str());
    rel.append(".");
    rel.append(sha.as_str());
    rel.append(
        match classify(original, bytes) {
            FileKind::Pack => ".pack",
            FileKind::Idx => ".idx",
            _ => "",
        },
    );
    (rel, sha)
}

/// The hexadecimal digits among the first `n` characters.
pub open spec fn digits_of(s: Seq<char>, n: nat) -> Seq<char>
    decreases n,
{
    if n == 0 {
        Seq::empty()
    } else {
        let w = digits_of(s, (n - 1) as nat);
        if is_hex_char(s[n - 1]) {
            w.push(s[n - 1])
        } else {
            w
        }
    }
}

/// `s` without `tail` at its end.
pub open spec fn trimmed(s: Seq<char>, tail: Seq<char>) -> Seq<char> {
    if tail.is_suffix_of(s) {
        s.take(s.len() - tail.len())
    } else {
        s
    }
}

/// What stands behind the last slash.
pub open spec fn last_part(s: Seq<char>) -> Seq<char> {
    match last_at(s, '/', s.len()) {
        Some(k) => s.subrange(k as int + 1, s.len() as int),
        None => s,
    }
}

/// What stands before the last slash.
pub open spec fn first_part(s: Seq<char>) -> Option<Seq<char>> {
    match last_at(s, '/', s.len()) {
        Some(k) => Some(s.subrange(0, k as int)),
        None => None,
    }
}

/// The id that the path of a loose object spells: the digits of its last part, or those of its
/// last two parts.
pub open spec fn loose_id(name: Seq<char>) -> Option<Seq<char>> {
    let t = trimmed(trimmed(last_part(name), ".zlib"@), ".loose"@);
    let compact = digits_of(t, t.len());
    if compact.len() == 40 {
        Some(compact)
    } else {
        match first_part(name) {
            Some(p) => {
                let a = digits_of(last_part(p), last_part(p).len());
                let b = digits_of(last_part(name), last_part(name).len());
                if a.len() + b.len() == 40 {
                    Some(a + b)
                } else {
                    None
                }
            },
            None => None,
        }
    }
}

fn digits(s: &str) -> (r: String)
    ensures
        r@ == digits_of(s@, s@.len()),
{
    let n: usize = s.unicode_len();
    let mut r = String::new();
    let mut i: usize = 0;
    while i < n
        invariant
            n == s@.len(),
            i <= n,
            r@ == digits_of(s@, i as nat),
        decreases n - i,
    {
        let c: char = s.get_char(i);
        if ('0' <= c && c <= '9') || ('a' <= c && c <= 'f') || ('A' <= c && c <= 'F') {
            r.push(c);
        }
        i += 1;
    }
    r
}

fn trim_end(s: &str, tail: &str) -> (r: String)
    ensures
        r@ == trimmed(s@, tail@),
{
    let n: usize = s.unicode_len();
    let k: usize = tail.unicode_len();
    if k > n {
        return s.to_owned();
    }
    let end = part_of(s, n - k, n);
    if same_text(end.as_str(), tail) {
        let r = part_of(s, 0, n - k);
        assert(r@ =~= s@.take(n - k));
        r
    } else {
        s.to_owned()
    }
}

fn behind_slash(s: &str) -> (r: String)
    ensures
        r@ == last_part(s@),
{
    match find_last(s, '/') {
        Some(k) => {
            let n: usize = s.unicode_len();
            part_of(s, k + 1, n)
        },
        None => s.to_owned(),
    }
}

/// Reads the id that the path of a loose object spells.
pub fn infer_loose_oid(name: &str) -> (r: Option<String>)
    ensures
        text_opt(r) == loose_id(name@),
{
    let last = behind_slash(name);
    let t1 = trim_end(last.as_str(), ".zlib");
    let t = trim_end(t1.as_str(), ".loose");
    let compact = digits(t.as_str());
    if compact.as_str().unicode_len() == 40 {
        return Some(compact);
    }
    match find_last(name, '/') {
        Some(k) => {
            let dir = part_of(name, 0, k);
            let dir_last = behind_slash(dir.as_str());
            let a = digits(dir_last.as_str());
            let b = digits(last.as_str());
            let x: usize = a.as_str().unicode_len();
            let y: usize = b.as_str().unicode_len();
            if x <= 40 && y == 40 - x {
                let mut joined = a;
                joined.append(b.as_str());
                Some(joined)
            } else {
                None
            }
        },
        None => None,
    }
}

/// An entry of a source.
#[derive(Debug)]
pub struct EntryInfo {
    pub source_id: i64,
    pub offset: Option<i64>,
    pub kind: String,
    /// Its base is given by an object id.
    pub ref_delta: bool,
    pub base_oid: Option<String>,
    pub claimed_oid: Option<String>,
    pub base_entry_id: Option<i64>,
}

/// The model of an entry.
pub ghost struct EntryModel {
    pub source_id: i64,
    pub offset: Option<i64>,
    pub kind: Seq<char>,
    pub ref_delta: bool,
    pub base_oid: Option<Seq<char>>,
    pub claimed_oid: Option<Seq<char>>,
    pub base_entry_id: Option<i64>,
}

impl DeepView for EntryInfo {
    type V = EntryModel;

    open spec fn deep_view(&self) -> EntryModel {
        EntryModel {
            source_id: self.source_id,
            offset: self.offset,
            kind: self.kind@,
            ref_delta: self.ref_delta,
            base_oid: text_opt(self.base_oid),
            claimed_oid: text_opt(self.claimed_oid),
            base_entry_id: self.base_entry_id,
        }
    }
}

/// An analysis branch: the entries that provide ids in it, and how its entries stand.
pub struct Branch {
    pub pins: TextMap<i64>,
    pub statuses: IdMap<String>,
}

/// The model of a branch.
pub ghost struct BranchModel {
    pub pins: Seq<(Seq<char>, i64)>,
    pub statuses: Seq<(i64, Seq<char>)>,
}

impl DeepView for Branch {
    type V = BranchModel;

    open spec fn deep_view(&self) -> BranchModel {
        BranchModel { pins: self.pins@, statuses: self.statuses@ }
    }
}

/// The sources by name, the entries, how the entries stand in the default branch, and the other
/// branches.
pub struct AppState {
    pub sources: IdMap<String>,
    pub entries: IdMap<EntryInfo>,
    pub statuses: IdMap<String>,
    pub branches: TextMap<Branch>,
}

/// The model of the state.
pub ghost struct StateModel {
    pub sources: Seq<(i64, Seq<char>)>,
    pub entries: Seq<(i64, EntryModel)>,
    pub statuses: Seq<(i64, Seq<char>)>,
    pub branches: Seq<(Seq<char>, BranchModel)>,
}

impl View for AppState {
    type V = StateModel;

    open spec fn view(&self) -> StateModel {
        StateModel {
            sources: self.sources@,
            entries: self.entries@,
            statuses: self.statuses@,
            branches: self.branches@,
        }
    }
}

/// An entry that stands on a source.
#[derive(Debug)]
pub struct DependencyInfo {
    pub entry_id: i64,
    pub source_id: i64,
    pub source_name: String,
    pub offset: Option<i64>,
    pub kind: String,
    pub status: String,
}

/// The model of a dependency.
pub ghost struct DependencyModel {
    pub entry_id: i64,
    pub source_id: i64,
    pub source_name: Seq<char>,
    pub offset: Option<i64>,
    pub kind: Seq<char>,
    pub status: Seq<char>,
}

impl View for DependencyInfo {
    type V = DependencyModel;

    open spec fn view(&self) -> DependencyModel {
        DependencyModel {
            entry_id: self.entry_id,
            source_id: self.source_id,
            source_name: self.source_name@,
            offset: self.offset,
            kind: self.kind@,
            status: self.status@,
        }
    }
}

/// A source claims an id for one of its entries.
pub open spec fn claims(v: Seq<(i64, EntryModel)>, source_id: i64, oid: Seq<char>) -> bool {
    exists|i: int|
        0 <= i < v.len() && (#[trigger] v[i]).1.source_id == source_id && v[i].1.claimed_oid == Some(oid)
}

/// Row `i` is affected by the import of a source: it is new, or its base is among the ids that
/// the source claims.
pub open spec fn row_affected(v: Seq<(i64, EntryModel)>, before: Seq<i64>, source_id: i64, i: int) -> bool {
    ||| !before.contains(v[i].0)
    ||| v[i].1.ref_delta && v[i].1.base_oid is Some && claims(v, source_id, v[i].1.base_oid->0)
}

/// The entries with a source's own numbers.
pub open spec fn of_source(v: Seq<(i64, EntryModel)>, source_id: i64, n: nat) -> Seq<i64>
    decreases n,
{
    if n == 0 {
        Seq::empty()
    } else {
        let w = of_source(v, source_id, (n - 1) as nat);
        if v[n - 1].1.source_id == source_id {
            w.push(v[n - 1].0)
        } else {
            w
        }
    }
}

/// The edges from an entry to the one that it was built on.
pub open spec fn base_edges(v: Seq<(i64, EntryModel)>, n: nat) -> Seq<(i64, i64)>
    decreases n,
{
    if n == 0 {
        Seq::empty()
    } else {
        let w = base_edges(v, (n - 1) as nat);
        match v[n - 1].1.base_entry_id {
            Some(b) => w.push((v[n - 1].0, b)),
            None => w,
        }
    }
}

/// An entry stands on a source, directly or through other entries.
pub open spec fn depends(v: Seq<(i64, EntryModel)>, source_id: i64, x: i64) -> bool {
    stands_on(base_edges(v, v.len()), of_source(v, source_id, v.len()).to_set(), x)
}

/// What is shown of an entry.
pub open spec fn shown(s: StateModel, id: i64) -> Option<DependencyModel> {
    match get(s.entries, id) {
        None => None,
        Some(e) => match get(s.sources, e.source_id) {
            None => None,
            Some(name) => Some(
                DependencyModel {
                    entry_id: id,
                    source_id: e.source_id,
                    source_name: name,
                    offset: e.offset,
                    kind: e.kind,
                    status: match get(s.statuses, id) {
                        Some(t) => t,
                        None => "unresolved"@,
                    },
                },
            ),
        },
    }
}

/// What is shown of the first `n` entries of a list.
pub open spec fn all_shown(s: StateModel, ids: Seq<i64>, n: nat) -> Seq<DependencyModel>
    decreases n,
{
    if n == 0 {
        Seq::empty()
    } else {
        let w = all_shown(s, ids, (n - 1) as nat);
        match shown(s, ids[n - 1]) {
            Some(d) => w.push(d),
            None => w,
        }
    }
}

/// The rows of entries that do not come from a source.
pub open spec fn without_source(v: Seq<(i64, EntryModel)>, source_id: i64, n: nat) -> Seq<(i64, EntryModel)>
    decreases n,
{
    if n == 0 {
        Seq::empty()
    } else {
        let w = without_source(v, source_id, (n - 1) as nat);
        if v[n - 1].1.source_id == source_id {
            w
        } else {
            w.push(v[n - 1])
        }
    }
}

fn copy_entry(x: &EntryInfo) -> (r: EntryInfo)
    ensures
        r.deep_view() == x.deep_view(),
{
    EntryInfo {
        source_id: x.source_id,
        offset: x.offset,
        kind: x.kind.clone(),
        ref_delta: x.ref_delta,
        base_oid: copy_opt(&x.base_oid),
        claimed_oid: copy_opt(&x.claimed_oid),
        base_entry_id: x.base_entry_id,
    }
}

impl AppState {
    fn claimed_by(&self, source_id: i64, oid: &str) -> (r: bool)
        ensures
            r == claims(self@.entries, source_id, oid@),
    {
        let mut i: usize = 0;
        while i < self.entries.len()
            invariant
                i <= self@.entries.len(),
                forall|j: int|
                    0 <= j < i ==> !((#[trigger] self@.entries[j]).1.source_id == source_id
                        && self@.entries[j].1.claimed_oid == Some(oid@)),
            decreases self@.entries.len() - i,
        {
            let x = self.entries.value_at(i);
            let same: bool = match &x.claimed_oid {
                Some(o) => same_text(o.as_str(), oid),
                None => false,
            };
            if x.source_id == source_id && same {
                assert(self@.entries[i as int].1.claimed_oid == Some(oid@));
                return true;
            }
            i += 1;
        }
        false
    }

    /// The entries that have to be reconstructed after the import of a source, given the numbers
    /// of the entries before it: the new ones, and those whose base may now be provided.
    pub fn affected_by_import(&self, before: &Vec<i64>, source_id: i64) -> (r: Vec<i64>)
        ensures
            ascending(r@),
            forall|x: i64| #[trigger]
                r@.contains(x) <==> exists|i: int|
                    0 <= i < self@.entries.len() && (#[trigger] self@.entries[i]).0 == x && row_affected(
                        self@.entries,
                        before@,
                        source_id,
                        i,
                    ),
    {
        let mut r: Vec<i64> = Vec::new();
        let ghost v = self@.entries;
        let mut n: usize = 0;
        while n < self.entries.len()
            invariant
                n <= v.len(),
                v == self@.entries,
                ascending(r@),
                forall|x: i64| #[trigger]
                    r@.contains(x) <==> exists|i: int|
                        0 <= i < n && (#[trigger] v[i]).0 == x && row_affected(v, before@, source_id, i),
            decreases v.len() - n,
        {
            let id: i64 = self.entries.key_at(n);
            let x = self.entries.value_at(n);
            let provided: bool = match &x.base_oid {
                Some(o) => x.ref_delta && self.claimed_by(source_id, o.as_str()),
                None => false,
            };
            let ghost was = r@;
            if !has_id(before, id) || provided {
                assert(row_affected(v, before@, source_id, n as int));
                let new: bool = insert_id(&mut r, id);
            }
            proof {
                assert forall|x: i64| #[trigger] r@.contains(x) <==> exists|i: int|
                    0 <= i < n + 1 && (#[trigger] v[i]).0 == x && row_affected(v, before@, source_id, i) by {
                    if was.contains(x) {
                        let i = choose|i: int|
                            0 <= i < n && (#[trigger] v[i]).0 == x && row_affected(v, before@, source_id, i);
                        assert(0 <= i < n + 1 && v[i].0 == x);
                    }
                    if r@.contains(x) && !was.contains(x) {
                        assert(v[n as int].0 == x);
                    }
                    if exists|i: int|
                        0 <= i < n + 1 && (#[trigger] v[i]).0 == x && row_affected(v, before@, source_id, i) {
                        let i = choose|i: int|
                            0 <= i < n + 1 && (#[trigger] v[i]).0 == x && row_affected(v, before@, source_id, i);
                        if i < n {
                            assert(was.contains(x));
                        }
                    }
                }
            }
            n += 1;
        }
        r
    }

    /// The entries that stand on a source, in ascending order.
    pub fn dependent_ids(&self, source_id: i64) -> (r: Vec<i64>)
        ensures
            ascending(r@),
            forall|x: i64| #[trigger] r@.contains(x) <==> depends(self@.entries, source_id, x),
    {
        let mut seeds: Vec<i64> = Vec::new();
        let mut edges: Vec<(i64, i64)> = Vec::new();
        let mut n: usize = 0;
        while n < self.entries.len()
            invariant
                n <= self@.entries.len(),
                seeds@ == of_source(self@.entries, source_id, n as nat),
                edges@ == base_edges(self@.entries, n as nat),
            decreases self@.entries.len() - n,
        {
            let id: i64 = self.entries.key_at(n);
            let x = self.entries.value_at(n);
            if x.source_id == source_id {
                seeds.push(id);
            }
            if let Some(b) = x.base_entry_id {
                edges.push((id, b));
            }
            n += 1;
        }
        close_ids(&edges, &seeds)
    }

    /// What is shown of the entries of a list; those that are not there are passed over.
    pub fn dependency_rows(&self, ids: &Vec<i64>) -> (out: Vec<DependencyInfo>)
        ensures
            views(out@) == all_shown(self@, ids@, ids@.len()),
    {
        let mut out: Vec<DependencyInfo> = Vec::new();
        let mut n: usize = 0;
        assert(views(out@) =~= all_shown(self@, ids@, 0));
        while n < ids.len()
            invariant
                n <= ids@.len(),
                views(out@) == all_shown(self@, ids@, n as nat),
            decreases ids@.len() - n,
        {
            let id: i64 = ids[n];
            if let Some(e) = self.entries.get(id) {
                if let Some(name) = self.sources.get(e.source_id) {
                    let status = match self.statuses.get(id) {
                        Some(t) => t.clone(),
                        None => "unresolved".to_owned(),
                    };
                    let ghost before = out@;
                    let d = DependencyInfo {
                        entry_id: id,
                        source_id: e.source_id,
                        source_name: name.clone(),
                        offset: e.offset,
                        kind: e.kind.clone(),
                        status,
                    };
                    out.push(d);
                    assert(views(out@) =~= views(before).push(d@));
                }
            }
            n += 1;
        }
        out
    }

    /// The entries that currently depend, directly or transitively, on entries of this source. Shown
    /// before a delete. The base of an entry is the same in every branch.
    pub fn dependents_of_source(&self, source_id: i64) -> (out: Vec<DependencyInfo>)
        ensures
            exists|ids: Seq<i64>|
                ascending(ids) && (forall|x: i64| #[trigger]
                    ids.contains(x) <==> depends(self@.entries, source_id, x)) && views(out@)
                    == #[trigger] all_shown(self@, ids, ids.len()),
    {
        let ids = self.dependent_ids(source_id);
        self.dependency_rows(&ids)
    }

    /// The entries that wait for a larger budget.
    pub fn paused_entries(&self) -> (r: Vec<i64>)
        ensures
            ascending(r@),
            forall|x: i64| #[trigger]
                r@.contains(x) <==> exists|i: int|
                    0 <= i < self@.statuses.len() && #[trigger] self@.statuses[i] == (x, "paused"@),
    {
        let mut r: Vec<i64> = Vec::new();
        let ghost v = self@.statuses;
        let mut n: usize = 0;
        while n < self.statuses.len()
            invariant
                n <= v.len(),
                v == self@.statuses,
                ascending(r@),
                forall|x: i64| #[trigger]
                    r@.contains(x) <==> exists|i: int| 0 <= i < n && #[trigger] v[i] == (x, "paused"@),
            decreases v.len() - n,
        {
            let id: i64 = self.statuses.key_at(n);
            let ghost was = r@;
            let paused: bool = same_text(self.statuses.value_at(n).as_str(), "paused");
            if paused {
                assert(v[n as int] == (id, "paused"@));
                let new: bool = insert_id(&mut r, id);
            }
            proof {
                assert forall|x: i64| #[trigger] r@.contains(x) <==> exists|i: int|
                    0 <= i < n + 1 && #[trigger] v[i] == (x, "paused"@) by {
                    if was.contains(x) {
                        let i = choose|i: int| 0 <= i < n && #[trigger] v[i] == (x, "paused"@);
                        assert(0 <= i < n + 1 && v[i] == (x, "paused"@));
                    }
                    if r@.contains(x) && !was.contains(x) {
                        assert(v[n as int] == (x, "paused"@));
                    }
                    if exists|i: int| 0 <= i < n + 1 && #[trigger] v[i] == (x, "paused"@) {
                        let i = choose|i: int| 0 <= i < n + 1 && #[trigger] v[i] == (x, "paused"@);
                        if i < n {
                            assert(was.contains(x));
                        }
                    }
                }
            }
            n += 1;
        }
        r
    }
}

/// The statuses among the first `n` whose entries are there.
pub open spec fn statuses_of(v: Seq<(i64, Seq<char>)>, entries: Seq<(i64, EntryModel)>, n: nat) -> Seq<
    (i64, Seq<char>),
>
    decreases n,
{
    if n == 0 {
        Seq::empty()
    } else {
        let w = statuses_of(v, entries, (n - 1) as nat);
        if has_key(entries, v[n - 1].0) {
            w.push(v[n - 1])
        } else {
            w
        }
    }
}

/// The state without a source, its entries, and the statuses of entries that are gone.
pub open spec fn deleted(s: StateModel, source_id: i64) -> StateModel {
    let entries = without_source(s.entries, source_id, s.entries.len());
    StateModel {
        sources: del(s.sources, source_id),
        entries,
        statuses: statuses_of(s.statuses, entries, s.statuses.len()),
        branches: Seq::new(
            s.branches.len(),
            |i: int|
                (
                    s.branches[i].0,
                    BranchModel {
                        pins: s.branches[i].1.pins,
                        statuses: statuses_of(
                            s.branches[i].1.statuses,
                            entries,
                            s.branches[i].1.statuses.len(),
                        ),
                    },
                ),
        ),
    }
}

/// The branch that a pin begins from.
pub open spec fn branch_start(s: StateModel, name: Seq<char>) -> BranchModel {
    let b = match get(s.branches, name) {
        Some(b) => b,
        None => BranchModel { pins: Seq::empty(), statuses: Seq::empty() },
    };
    BranchModel {
        statuses: if b.statuses.len() == 0 {
            s.statuses
        } else {
            b.statuses
        },
        ..b
    }
}

/// The state with an id pinned to an entry in a branch.
pub open spec fn pinned(s: StateModel, name: Seq<char>, oid: Seq<char>, entry_id: i64) -> StateModel {
    let b = branch_start(s, name);
    StateModel {
        branches: put(s.branches, name, BranchModel { pins: put(b.pins, oid, entry_id), ..b }),
        ..s
    }
}

fn keep_statuses(v: &IdMap<String>, entries: &IdMap<EntryInfo>) -> (r: IdMap<String>)
    ensures
        r@ == statuses_of(v@, entries@, v@.len()),
{
    let mut r: IdMap<String> = IdMap::new();
    let mut n: usize = 0;
    while n < v.len()
        invariant
            n <= v@.len(),
            r@ == statuses_of(v@, entries@, n as nat),
        decreases v@.len() - n,
    {
        let id: i64 = v.key_at(n);
        if entries.contains(id) {
            r.append(id, v.value_at(n).clone());
        }
        n += 1;
    }
    r
}

fn copy_statuses(v: &IdMap<String>) -> (r: IdMap<String>)
    ensures
        r@ == v@,
{
    let mut r: IdMap<String> = IdMap::new();
    let mut n: usize = 0;
    while n < v.len()
        invariant
            n <= v@.len(),
            r@ == v@.take(n as int),
        decreases v@.len() - n,
    {
        r.append(v.key_at(n), v.value_at(n).clone());
        n += 1;
        assert(r@ =~= v@.take(n as int));
    }
    assert(r@ =~= v@);
    r
}

fn copy_pins(v: &TextMap<i64>) -> (r: TextMap<i64>)
    ensures
        r@ == v@,
{
    let mut r: TextMap<i64> = TextMap::new();
    let mut n: usize = 0;
    while n < v.len()
        invariant
            n <= v@.len(),
            r@ == v@.take(n as int),
        decreases v@.len() - n,
    {
        r.append(v.key_at(n).clone(), *v.value_at(n));
        n += 1;
        assert(r@ =~= v@.take(n as int));
    }
    assert(r@ =~= v@);
    r
}

impl AppState {
    /// Deletes a source with its entries. Returns the entries that stood on it, to be
    /// reconstructed again.
    pub fn delete_source(&mut self, source_id: i64) -> (r: Result<Vec<i64>, String>)
        ensures
            match r {
                Ok(ids) => {
                    &&& has_key(old(self)@.sources, source_id)
                    &&& final(self)@ == deleted(old(self)@, source_id)
                    &&& ascending(ids@)
                    &&& forall|x: i64| #[trigger]
                        ids@.contains(x) <==> depends(old(self)@.entries, source_id, x) && shown(
                            old(self)@,
                            x,
                        ) is Some
                },
                Err(m) => !has_key(old(self)@.sources, source_id) && m@ == "Query returned no rows"@
                    && final(self)@ == old(self)@,
            },
    {
        if !self.sources.contains(source_id) {
            return Err("Query returned no rows".to_owned());
        }
        let all = self.dependent_ids(source_id);
        let mut ids: Vec<i64> = Vec::new();
        let ghost start = self@;
        let mut k: usize = 0;
        while k < all.len()
            invariant
                k <= all@.len(),
                ascending(ids@),
                self@ == start,
                forall|x: i64| #[trigger]
                    ids@.contains(x) <==> all@.take(k as int).contains(x) && shown(start, x) is Some,
            decreases all@.len() - k,
        {
            let id: i64 = all[k];
            let ghost was = ids@;
            let there: bool = match self.entries.get(id) {
                Some(e) => self.sources.contains(e.source_id),
                None => false,
            };
            assert(there == shown(start, id) is Some);
            if there {
                let new: bool = insert_id(&mut ids, id);
            }
            proof {
                let t = all@.take(k as int);
                let u = all@.take(k + 1);
                assert(u =~= t.push(id));
                assert forall|x: i64| #[trigger] ids@.contains(x) <==> u.contains(x) && shown(start, x) is Some by {
                    assert(u[k as int] == id);
                    if t.contains(x) {
                        let j = choose|j: int| 0 <= j < t.len() && t[j] == x;
                        assert(u[j] == x);
                    }
                    if u.contains(x) && x != id {
                        let j = choose|j: int| 0 <= j < u.len() && u[j] == x;
                        assert(t[j] == x);
                    }
                    assert(was.contains(x) <==> t.contains(x) && shown(start, x) is Some);
                }
            }
            k += 1;
        }
        assert(all@.take(k as int) =~= all@);
        let mut entries: IdMap<EntryInfo> = IdMap::new();
        let mut n: usize = 0;
        while n < self.entries.len()
            invariant
                n <= self@.entries.len(),
                self@ == start,
                entries@ == without_source(start.entries, source_id, n as nat),
            decreases self@.entries.len() - n,
        {
            let x = self.entries.value_at(n);
            if x.source_id != source_id {
                entries.append(self.entries.key_at(n), copy_entry(x));
            }
            n += 1;
        }
        let mut branches: TextMap<Branch> = TextMap::new();
        let ghost goal = deleted(start, source_id).branches;
        let mut m: usize = 0;
        while m < self.branches.len()
            invariant
                m <= self@.branches.len(),
                self@ == start,
                entries@ == without_source(start.entries, source_id, start.entries.len()),
                goal == deleted(start, source_id).branches,
                branches@ == goal.take(m as int),
            decreases self@.branches.len() - m,
        {
            let b = self.branches.value_at(m);
            let row = Branch { pins: copy_pins(&b.pins), statuses: keep_statuses(&b.statuses, &entries) };
            assert((start.branches[m as int].0, row.deep_view()) == goal[m as int]);
            branches.append(self.branches.key_at(m).clone(), row);
            m += 1;
            assert(branches@ =~= goal.take(m as int));
        }
        assert(branches@ =~= goal);
        self.statuses = keep_statuses(&self.statuses, &entries);
        self.branches = branches;
        self.entries = entries;
        self.sources.remove(source_id);
        Ok(ids)
    }

    /// Fixes the provider of an id to an entry in a branch, which begins with the statuses of the
    /// default branch. Returns the entries to be reconstructed in it: the provider and those
    /// whose base has the id.
    pub fn pin_branch(&mut self, branch: &str, oid: &str, entry_id: i64) -> (r: Vec<i64>)
        ensures
            final(self)@ == pinned(old(self)@, branch@, oid@, entry_id),
            ascending(r@),
            forall|x: i64| #[trigger]
                r@.contains(x) <==> x == entry_id || exists|i: int|
                    0 <= i < old(self)@.entries.len() && (#[trigger] old(self)@.entries[i]).0 == x
                        && old(self)@.entries[i].1.base_oid == Some(oid@),
    {
        let b = match self.branches.get(branch) {
            Some(b) => Branch { pins: copy_pins(&b.pins), statuses: copy_statuses(&b.statuses) },
            None => Branch { pins: TextMap::new(), statuses: IdMap::new() },
        };
        let Branch { pins, statuses } = b;
        let mut all = pins;
        all.insert(oid.to_owned(), entry_id);
        let base = if statuses.len() == 0 {
            copy_statuses(&self.statuses)
        } else {
            statuses
        };
        let row = Branch { pins: all, statuses: base };
        self.branches.insert(branch.to_owned(), row);
        let mut r: Vec<i64> = Vec::new();
        let new: bool = insert_id(&mut r, entry_id);
        let ghost v = self@.entries;
        let mut n: usize = 0;
        while n < self.entries.len()
            invariant
                n <= v.len(),
                v == self@.entries,
                self@ == pinned(old(self)@, branch@, oid@, entry_id),
                ascending(r@),
                forall|x: i64| #[trigger]
                    r@.contains(x) <==> x == entry_id || exists|i: int|
                        0 <= i < n && (#[trigger] v[i]).0 == x && v[i].1.base_oid == Some(oid@),
            decreases v.len() - n,
        {
            let id: i64 = self.entries.key_at(n);
            let same: bool = match &self.entries.value_at(n).base_oid {
                Some(o) => same_text(o.as_str(), oid),
                None => false,
            };
            let ghost was = r@;
            if same {
                assert(v[n as int].1.base_oid == Some(oid@));
                let new: bool = insert_id(&mut r, id);
            }
            proof {
                assert forall|x: i64| #[trigger] r@.contains(x) <==> x == entry_id || exists|i: int|
                    0 <= i < n + 1 && (#[trigger] v[i]).0 == x && v[i].1.base_oid == Some(oid@) by {
                    if was.contains(x) && x != entry_id {
                        let i = choose|i: int|
                            0 <= i < n && (#[trigger] v[i]).0 == x && v[i].1.base_oid == Some(oid@);
                        assert(0 <= i < n + 1 && v[i].0 == x);
                    }
                    if r@.contains(x) && !was.contains(x) {
                        assert(v[n as int].0 == x);
                    }
                    if exists|i: int|
                        0 <= i < n + 1 && (#[trigger] v[i]).0 == x && v[i].1.base_oid == Some(oid@) {
                        let i = choose|i: int|
                            0 <= i < n + 1 && (#[trigger] v[i]).0 == x && v[i].1.base_oid == Some(oid@);
                        if i < n {
                            assert(was.contains(x));
                        }
                    }
                }
            }
            n += 1;
        }
        r
    }

    /// The names of the branches, in the order in which they began.
    pub fn branch_names(&self) -> (r: Vec<String>)
        ensures
            texts(r@) == Seq::new(self@.branches.len(), |i: int| self@.branches[i].0),
    {
        let mut r: Vec<String> = Vec::new();
        let ghost goal = Seq::new(self@.branches.len(), |i: int| self@.branches[i].0);
        let mut n: usize = 0;
        while n < self.branches.len()
            invariant
                n <= self@.branches.len(),
                goal == Seq::new(self@.branches.len(), |i: int| self@.branches[i].0),
                texts(r@) == goal.take(n as int),
            decreases self@.branches.len() - n,
        {
            push_part(&mut r, self.branches.key_at(n).clone());
            n += 1;
            assert(texts(r@) =~= goal.take(n as int));
        }
        assert(goal.take(n as int) =~= goal);
        r
    }
}

/// Deleting a source leaves none of its entries, and takes no other.
pub proof fn deleting_takes_only_the_source(s: StateModel, source_id: i64, n: nat)
    requires
        n <= s.entries.len(),
    ensures
        forall|i: int|
            0 <= i < without_source(s.entries, source_id, n).len() ==> (#[trigger] without_source(
                s.entries,
                source_id,
                n,
            )[i]).1.source_id != source_id,
        forall|j: int|
            0 <= j < n && (#[trigger] s.entries[j]).1.source_id != source_id ==> without_source(
                s.entries,
                source_id,
                n,
            ).contains(s.entries[j]),
    decreases n,
{
    if n > 0 {
        deleting_takes_only_the_source(s, source_id, (n - 1) as nat);
        let w = without_source(s.entries, source_id, (n - 1) as nat);
        let x = s.entries[n - 1];
        let u = without_source(s.entries, source_id, n);
        assert forall|j: int| 0 <= j < n && (#[trigger] s.entries[j]).1.source_id != source_id implies u.contains(
            s.entries[j],
        ) by {
            if j < n - 1 {
                assert(w.contains(s.entries[j]));
                let k = choose|k: int| 0 <= k < w.len() && w[k] == s.entries[j];
                assert(u[k] == s.entries[j]);
            } else {
                assert(u[w.len() as int] == x);
            }
        }
    }
}

/// The status rows `kept` are those of `v` whose entries are among `entries`.
pub open spec fn keeps_statuses(
    v: Seq<(i64, Seq<char>)>,
    kept: Seq<(i64, Seq<char>)>,
    entries: Seq<(i64, EntryModel)>,
) -> bool {
    &&& forall|i: int| 0 <= i < kept.len() ==> v.contains(#[trigger] kept[i]) && has_key(entries, kept[i].0)
    &&& forall|i: int| 0 <= i < v.len() && has_key(entries, (#[trigger] v[i]).0) ==> kept.contains(v[i])
}

proof fn lemma_statuses(v: Seq<(i64, Seq<char>)>, entries: Seq<(i64, EntryModel)>, n: nat)
    requires
        n <= v.len(),
    ensures
        forall|i: int|
            0 <= i < statuses_of(v, entries, n).len() ==> v.contains(#[trigger] statuses_of(v, entries, n)[i]) && has_key(
                entries,
                statuses_of(v, entries, n)[i].0,
            ),
        forall|i: int|
            0 <= i < n && has_key(entries, (#[trigger] v[i]).0) ==> statuses_of(v, entries, n).contains(v[i]),
    decreases n,
{
    if n > 0 {
        lemma_statuses(v, entries, (n - 1) as nat);
        let w = statuses_of(v, entries, (n - 1) as nat);
        let u = statuses_of(v, entries, n);
        assert forall|i: int| 0 <= i < u.len() implies v.contains(#[trigger] u[i]) && has_key(entries, u[i].0) by {
            if i < w.len() {
                assert(u[i] == w[i]);
            } else {
                assert(v[n - 1] == u[i]);
            }
        }
        assert forall|i: int| 0 <= i < n && has_key(entries, (#[trigger] v[i]).0) implies u.contains(v[i]) by {
            if i < n - 1 {
                assert(w.contains(v[i]));
                let k = choose|k: int| 0 <= k < w.len() && w[k] == v[i];
                assert(u[k] == v[i]);
            } else {
                assert(u[w.len() as int] == v[i]);
            }
        }
    }
}

/// Deleting a source takes the statuses of its entries, in the default branch and in every other,
/// and nothing else: the other entries, their statuses and all pins stay.
pub proof fn deleting_keeps_what_is_not_of_the_source(s: StateModel, source_id: i64, i: int)
    ensures
        ({
            let d = deleted(s, source_id);
            &&& forall|j: int| 0 <= j < d.entries.len() ==> (#[trigger] d.entries[j]).1.source_id != source_id
            &&& forall|j: int|
                0 <= j < s.entries.len() && (#[trigger] s.entries[j]).1.source_id != source_id ==> d.entries.contains(
                    s.entries[j],
                )
            &&& keeps_statuses(s.statuses, d.statuses, d.entries)
            &&& d.branches.len() == s.branches.len()
            &&& 0 <= i < s.branches.len() ==> d.branches[i].0 == s.branches[i].0 && d.branches[i].1.pins
                == s.branches[i].1.pins && keeps_statuses(s.branches[i].1.statuses, d.branches[i].1.statuses, d.entries)
        }),
{
    let d = deleted(s, source_id);
    deleting_takes_only_the_source(s, source_id, s.entries.len());
    lemma_statuses(s.statuses, d.entries, s.statuses.len());
    if 0 <= i < s.branches.len() {
        lemma_statuses(s.branches[i].1.statuses, d.entries, s.branches[i].1.statuses.len());
    }
}

/// A pin changes the provider of one id in one branch: the branch has it under the id, and every
/// other pin, branch, entry and status stays. A branch that has no statuses begins with those of the
/// default one.
pub proof fn a_pin_changes_one_provider(
    s: StateModel,
    name: Seq<char>,
    oid: Seq<char>,
    entry_id: i64,
    other: Seq<char>,
    id: Seq<char>,
)
    ensures
        ({
            let p = pinned(s, name, oid, entry_id);
            let b = get(p.branches, name)->0;
            &&& p.entries == s.entries && p.sources == s.sources && p.statuses == s.statuses
            &&& other != name ==> get(p.branches, other) == get(s.branches, other)
            &&& get(p.branches, name) is Some
            &&& get(b.pins, oid) == Some(entry_id)
            &&& id != oid && get(s.branches, name) is Some ==> get(b.pins, id) == get((get(s.branches, name)->0).pins, id)
            &&& id != oid && get(s.branches, name) is None ==> get(b.pins, id) is None
            &&& get(s.branches, name) is Some && (get(s.branches, name)->0).statuses.len() > 0 ==> b.statuses == (get(
                s.branches,
                name,
            )->0).statuses
            &&& get(s.branches, name) is None || (get(s.branches, name)->0).statuses.len() == 0 ==> b.statuses
                == s.statuses
        }),
{
    let b = branch_start(s, name);
    let row = BranchModel { pins: put(b.pins, oid, entry_id), ..b };
    get_of_put(s.branches, name, row, other);
    get_of_put(b.pins, oid, entry_id, id);
    lemma_row(Seq::<(Seq<char>, i64)>::empty(), id);
}

/// After an import every new entry is tried, and every earlier delta whose base an entry of the
/// new source claims to be; an earlier entry is left alone where no entry of the source does.
pub proof fn an_import_affects_what_it_may_provide(
    v: Seq<(i64, EntryModel)>,
    before: Seq<i64>,
    source_id: i64,
    i: int,
    j: int,
)
    requires
        0 <= i < v.len(),
        0 <= j < v.len(),
    ensures
        !before.contains(v[i].0) ==> row_affected(v, before, source_id, i),
        v[i].1.ref_delta && v[i].1.base_oid is Some && v[j].1.source_id == source_id && v[j].1.claimed_oid
            == v[i].1.base_oid ==> row_affected(v, before, source_id, i),
        before.contains(v[i].0) && (forall|k: int|
            0 <= k < v.len() && (#[trigger] v[k]).1.source_id == source_id ==> v[k].1.claimed_oid != v[i].1.base_oid)
            ==> !row_affected(v, before, source_id, i),
        before.contains(v[i].0) && (!v[i].1.ref_delta || v[i].1.base_oid is None) ==> !row_affected(
            v,
            before,
            source_id,
            i,
        ),
{
    if v[i].1.ref_delta && v[i].1.base_oid is Some && v[j].1.source_id == source_id && v[j].1.claimed_oid
        == v[i].1.base_oid {
        assert(claims(v, source_id, v[i].1.base_oid->0));
    }
}

proof fn lemma_last(s: Seq<char>, c: char, n: nat, k: int)
    requires
        0 <= k < n <= s.len(),
        s[k] == c,
        forall|i: int| k < i < n ==> #[trigger] s[i] != c,
    ensures
        last_at(s, c, n) == Some(k as nat),
    decreases n,
{
    if k < n - 1 {
        assert(s[n - 1] != c);
        lemma_last(s, c, (n - 1) as nat, k);
    }
}

proof fn lemma_digits(s: Seq<char>, n: nat)
    requires
        n <= s.len(),
        forall|i: int| 0 <= i < s.len() ==> is_hex_char(#[trigger] s[i]),
    ensures
        digits_of(s, n) == s.take(n as int),
    decreases n,
{
    if n > 0 {
        lemma_digits(s, (n - 1) as nat);
        assert(is_hex_char(s[n - 1]));
    }
    assert(digits_of(s, n) =~= s.take(n as int));
}

/// A path of a loose object whose last two parts are the hexadecimal digits of an id, as an object
/// store has it, spells that id.
pub proof fn a_fanned_out_path_spells_its_id(front: Seq<char>, a: Seq<char>, b: Seq<char>)
    requires
        a.len() == 2,
        b.len() == 38,
        forall|i: int| 0 <= i < a.len() ==> is_hex_char(#[trigger] a[i]),
        forall|i: int| 0 <= i < b.len() ==> is_hex_char(#[trigger] b[i]),
    ensures
        loose_id(front + "/"@ + a + "/"@ + b) == Some(a + b),
{
    reveal_strlit("/");
    reveal_strlit(".zlib");
    reveal_strlit(".loose");
    let name = front + "/"@ + a + "/"@ + b;
    let k = front.len() + 3;
    assert(name[k as int] == '/');
    assert forall|i: int| k < i < name.len() implies #[trigger] name[i] != '/' by {
        assert(name[i] == b[i - k - 1]);
    }
    lemma_last(name, '/', name.len(), k as int);
    assert(last_part(name) =~= b);
    let p = front + "/"@ + a;
    assert(first_part(name)->0 =~= p);
    assert(p[front.len() as int] == '/');
    assert forall|i: int| front.len() < i < p.len() implies #[trigger] p[i] != '/' by {
        assert(p[i] == a[i - front.len() - 1]);
    }
    lemma_last(p, '/', p.len(), front.len() as int);
    assert(last_part(p) =~= a);
    assert(!".zlib"@.is_suffix_of(b)) by {
        if ".zlib"@.is_suffix_of(b) {
            assert(b[b.len() - 5] == ".zlib"@[0]);
            assert(is_hex_char(b[b.len() - 5]));
        }
    }
    assert(!".loose"@.is_suffix_of(b)) by {
        if ".loose"@.is_suffix_of(b) {
            assert(b[b.len() - 6] == ".loose"@[0]);
            assert(is_hex_char(b[b.len() - 6]));
        }
    }
    lemma_digits(a, a.len());
    lemma_digits(b, b.len());
    assert(a.take(a.len() as int) =~= a);
    assert(b.take(b.len() as int) =~= b);
}

/// A pack or an index is told by the end of its name or by its first bytes, a pack before an index;
/// what is neither is a loose object where it begins as a zlib stream does.
pub proof fn files_are_told_by_name_or_first_bytes(name: Seq<char>, bytes: Seq<u8>)
    ensures
        lower_ends_with(name, ".pack"@) ==> kind_of(name, bytes) == FileKind::Pack,
        bytes.len() >= 4 && bytes[0] == 0x50 && bytes[1] == 0x41 && bytes[2] == 0x43 && bytes[3] == 0x4b ==> kind_of(
            name,
            bytes,
        ) == FileKind::Pack,
        kind_of(name, bytes) == FileKind::Pack ==> lower_ends_with(name, ".pack"@) || (bytes.len() >= 4 && bytes[0]
            == 0x50 && bytes[1] == 0x41 && bytes[2] == 0x43 && bytes[3] == 0x4b),
        kind_of(name, bytes) != FileKind::Pack ==> (kind_of(name, bytes) == FileKind::Idx <==> lower_ends_with(
            name,
            ".idx"@,
        ) || (bytes.len() >= 4 && bytes[0] == 0xff && bytes[1] == 0x74 && bytes[2] == 0x4f && bytes[3] == 0x63)),
        kind_of(name, bytes) == FileKind::Loose ==> bytes.len() > 0 && bytes[0] == 0x78,
        kind_of(name, bytes) == FileKind::Unknown ==> bytes.len() == 0 || bytes[0] != 0x78,
{
    let pack = seq![80u8, 65, 67, 75];
    let idx = seq![255u8, 116, 79, 99];
    assert(pack.len() == 4 && idx.len() == 4);
    if bytes.len() >= 4 {
        let head = bytes.subrange(0, 4);
        assert(head.len() == 4);
        if bytes[0] == 0x50 && bytes[1] == 0x41 && bytes[2] == 0x43 && bytes[3] == 0x4b {
            assert(head =~= pack);
        }
        if bytes[0] == 0xff && bytes[1] == 0x74 && bytes[2] == 0x4f && bytes[3] == 0x63 {
            assert(head =~= idx);
        }
    }
    if pack.is_prefix_of(bytes) {
        assert(bytes.subrange(0, 4)[0] == 80 && bytes.subrange(0, 4)[1] == 65 && bytes.subrange(0, 4)[2] == 67
            && bytes.subrange(0, 4)[3] == 75);
    }
    if idx.is_prefix_of(bytes) {
        assert(bytes.subrange(0, 4)[0] == 255 && bytes.subrange(0, 4)[1] == 116 && bytes.subrange(0, 4)[2] == 79
            && bytes.subrange(0, 4)[3] == 99);
    }
}

/// An entry was built on another.
pub open spec fn was_built_on(v: Seq<(i64, EntryModel)>, a: i64, b: i64) -> bool {
    exists|j: int| 0 <= j < v.len() && (#[trigger] v[j]).0 == a && v[j].1.base_entry_id == Some(b)
}

/// Each entry of `c` was built on the next one.
pub open spec fn is_descent(v: Seq<(i64, EntryModel)>, c: Seq<i64>) -> bool {
    forall|k: int| 0 <= k < c.len() - 1 ==> was_built_on(v, #[trigger] c[k], c[k + 1])
}

/// An entry of the source has a number.
pub open spec fn is_own(v: Seq<(i64, EntryModel)>, source_id: i64, x: i64) -> bool {
    exists|j: int| 0 <= j < v.len() && (#[trigger] v[j]).0 == x && v[j].1.source_id == source_id
}

proof fn lemma_of_source(v: Seq<(i64, EntryModel)>, source_id: i64, n: nat, x: i64)
    requires
        n <= v.len(),
    ensures
        of_source(v, source_id, n).contains(x) <==> exists|j: int|
            0 <= j < n && (#[trigger] v[j]).0 == x && v[j].1.source_id == source_id,
    decreases n,
{
    if n > 0 {
        lemma_of_source(v, source_id, (n - 1) as nat, x);
        let w = of_source(v, source_id, (n - 1) as nat);
        let u = of_source(v, source_id, n);
        if w.contains(x) {
            let k = choose|k: int| 0 <= k < w.len() && w[k] == x;
            assert(u[k] == x);
            let j = choose|j: int| 0 <= j < n - 1 && (#[trigger] v[j]).0 == x && v[j].1.source_id == source_id;
            assert(0 <= j < n && v[j].0 == x);
        }
        if v[n - 1].1.source_id == source_id && v[n - 1].0 == x {
            assert(u[w.len() as int] == x);
        }
        if u.contains(x) && !w.contains(x) {
            let k = choose|k: int| 0 <= k < u.len() && u[k] == x;
            if k < w.len() {
                assert(w[k] == x);
            }
            assert(v[n - 1].0 == x);
        }
    }
}

proof fn lemma_base_edges(v: Seq<(i64, EntryModel)>, n: nat, a: i64, b: i64)
    requires
        n <= v.len(),
    ensures
        base_edges(v, n).contains((a, b)) <==> exists|j: int|
            0 <= j < n && (#[trigger] v[j]).0 == a && v[j].1.base_entry_id == Some(b),
    decreases n,
{
    if n > 0 {
        lemma_base_edges(v, (n - 1) as nat, a, b);
        let w = base_edges(v, (n - 1) as nat);
        let u = base_edges(v, n);
        if w.contains((a, b)) {
            let k = choose|k: int| 0 <= k < w.len() && w[k] == (a, b);
            assert(u[k] == (a, b));
            let j = choose|j: int| 0 <= j < n - 1 && (#[trigger] v[j]).0 == a && v[j].1.base_entry_id == Some(b);
            assert(0 <= j < n && v[j].0 == a);
        }
        if v[n - 1].0 == a && v[n - 1].1.base_entry_id == Some(b) {
            assert(u[w.len() as int] == (a, b));
        }
        if u.contains((a, b)) && !w.contains((a, b)) {
            let k = choose|k: int| 0 <= k < u.len() && u[k] == (a, b);
            if k < w.len() {
                assert(w[k] == (a, b));
            }
            assert(v[n - 1].0 == a);
        }
    }
}

proof fn lemma_descends(v: Seq<(i64, EntryModel)>, source_id: i64, c: Seq<i64>, s: Set<i64>)
    requires
        c.len() > 0,
        is_descent(v, c),
        is_own(v, source_id, c.last()),
        of_source(v, source_id, v.len()).to_set().subset_of(s),
        closed_under(base_edges(v, v.len()), s),
    ensures
        s.contains(c[0]),
    decreases c.len(),
{
    if c.len() == 1 {
        lemma_of_source(v, source_id, v.len(), c[0]);
        assert(of_source(v, source_id, v.len()).to_set().contains(c[0]));
    } else {
        let t = c.skip(1);
        assert forall|k: int| 0 <= k < t.len() - 1 implies was_built_on(v, #[trigger] t[k], t[k + 1]) by {
            assert(was_built_on(v, c[k + 1], c[k + 2]));
        }
        assert(t.last() == c.last());
        lemma_descends(v, source_id, t, s);
        assert(was_built_on(v, c[0], c[1]));
        lemma_base_edges(v, v.len(), c[0], c[1]);
        let e = base_edges(v, v.len());
        assert(e.contains((c[0], c[1])));
        let k = choose|k: int| 0 <= k < e.len() && e[k] == (c[0], c[1]);
        assert(e[k].1 == t[0]);
        assert(s.contains(e[k].1));
        assert(s.contains(e[k].0));
    }
}

/// An entry stands on a source exactly when it, or one that it was built on directly or through
/// others, is an entry of the source.
pub proof fn entries_stand_on_what_they_were_built_on(v: Seq<(i64, EntryModel)>, source_id: i64, x: i64)
    ensures
        depends(v, source_id, x) <==> exists|c: Seq<i64>|
            c.len() > 0 && c[0] == x && #[trigger] is_descent(v, c) && is_own(v, source_id, c.last()),
{
    let seeds = of_source(v, source_id, v.len()).to_set();
    let edges = base_edges(v, v.len());
    let reach = Set::new(
        |y: i64|
            exists|c: Seq<i64>|
                c.len() > 0 && c[0] == y && #[trigger] is_descent(v, c) && is_own(v, source_id, c.last()),
    );
    if depends(v, source_id, x) {
        assert forall|y: i64| seeds.contains(y) implies reach.contains(y) by {
            lemma_of_source(v, source_id, v.len(), y);
            let c = seq![y];
            assert(is_descent(v, c));
            assert(c.last() == y);
        }
        assert forall|k: int| 0 <= k < edges.len() && reach.contains((#[trigger] edges[k]).1) implies reach.contains(
            edges[k].0,
        ) by {
            let c = choose|c: Seq<i64>|
                c.len() > 0 && c[0] == edges[k].1 && #[trigger] is_descent(v, c) && is_own(v, source_id, c.last());
            let d = seq![edges[k].0] + c;
            assert(edges.contains((edges[k].0, edges[k].1)));
            lemma_base_edges(v, v.len(), edges[k].0, edges[k].1);
            assert(was_built_on(v, edges[k].0, edges[k].1));
            assert forall|m: int| 0 <= m < d.len() - 1 implies was_built_on(v, #[trigger] d[m], d[m + 1]) by {
                if m > 0 {
                    assert(was_built_on(v, c[m - 1], c[m]));
                    assert(d[m] == c[m - 1] && d[m + 1] == c[m]);
                } else {
                    assert(d[1] == c[0]);
                }
            }
            assert(is_descent(v, d));
            assert(d[0] == edges[k].0);
            assert(d.last() == c.last());
        }
        assert(closed_under(edges, reach));
        assert(reach.contains(x));
    }
    if exists|c: Seq<i64>|
        c.len() > 0 && c[0] == x && #[trigger] is_descent(v, c) && is_own(v, source_id, c.last()) {
        let c = choose|c: Seq<i64>|
            c.len() > 0 && c[0] == x && #[trigger] is_descent(v, c) && is_own(v, source_id, c.last());
        assert forall|s: Set<i64>| seeds.subset_of(s) && #[trigger] closed_under(edges, s) implies s.contains(x) by {
            lemma_descends(v, source_id, c, s);
        }
    }
}

/// The name under which a file is kept begins with its directory, holds the name that it came with, with
/// only letters, digits, dots, dashes and underscores, and then the digest of its bytes.
pub proof fn kept_names_are_plain(original: Seq<char>, bytes: Seq<u8>, i: int)
    requires
        0 <= i < original.len(),
    ensures
        ({
            let k = kept_name(original, bytes);
            let c = original[i];
            let plain = '0' <= c <= '9' || 'a' <= c <= 'z' || 'A' <= c <= 'Z' || c == '.' || c == '_' || c == '-';
            &&& k.subrange(0, 4) == "raw/"@
            &&& plain ==> k[4 + i] == c
            &&& !plain ==> k[4 + i] == '_'
            &&& k[4 + original.len() as int] == '.'
            &&& kind_of(original, bytes) == FileKind::Pack ==> k == "raw/"@ + safe_name(original) + "."@ + hex(
                sha256_of(bytes),
            ) + ".pack"@
            &&& kind_of(original, bytes) == FileKind::Idx ==> k == "raw/"@ + safe_name(original) + "."@ + hex(
                sha256_of(bytes),
            ) + ".idx"@
        }),
{
    reveal_strlit("raw/");
    reveal_strlit(".");
    let k = kept_name(original, bytes);
    assert(k.subrange(0, 4) =~= "raw/"@);
}

/// An entry is shown exactly when it and its source are there, with what is stored of both; one that was
/// never tried is shown as unresolved.
pub proof fn entries_are_shown_as_stored(s: StateModel, id: i64)
    ensures
        shown(s, id) is Some <==> has_key(s.entries, id) && has_key(s.sources, (get(s.entries, id)->0).source_id),
        shown(s, id) is Some ==> {
            let d = shown(s, id)->0;
            let e = get(s.entries, id)->0;
            &&& d.entry_id == id && d.source_id == e.source_id && d.offset == e.offset && d.kind == e.kind
            &&& Some(d.source_name) == get(s.sources, e.source_id)
            &&& has_key(s.statuses, id) ==> Some(d.status) == get(s.statuses, id)
            &&& !has_key(s.statuses, id) ==> d.status == "unresolved"@
        },
{
}

} // verus!
