//! The chain of deltas between an entry and its whole base.
use vstd::prelude::*;
use vstd::string::StringExecFns;
use vstd::utf8::encode_utf8;
use crate::analyze::graph::{find_id, place};
use crate::entry::rows::{
    copy_edge, item_models, new_failure, plain_failure, ChainItem, EdgeModel, EdgeRow, EntryModel, EntryRow,
    FailModel, Failure, ItemModel, Rows, RowsModel,
};
use crate::gitobj::ObjType;
use crate::model::assoc::{contains_id, get, has_key, lemma_keys_fit, lemma_row, lemma_row_is, put, reversed};
use crate::model::sort::{bytes_less, less};
use crate::model::text::{dec, push_dec, same_text};

verus! {

/// One entry of a chain.
pub open spec fn item_of(w: RowsModel, id: i64) -> ItemModel {
    let e = get(w.entries, id)->0;
    let r = get(w.resolutions, id);
    ItemModel {
        entry_id: id,
        source_id: e.source_id,
        offset: e.offset,
        obj_type: e.obj_type,
        status: match r {
            Some(x) => x.status,
            None => ""@,
        },
        oid: match r {
            Some(x) => match x.oid {
                Some(o) => o,
                None => ""@,
            },
            None => ""@,
        },
        edge: get(w.edges, id),
    }
}

/// The entries that follow `cur` along the recorded edges.
pub open spec fn view_from(w: RowsModel, cur: i64, visited: Seq<i64>) -> Seq<ItemModel>
    decreases w.entries.len() + 1 - visited.len(),
{
    if visited.contains(cur) || !has_key(w.entries, cur) || visited.len() > w.entries.len() {
        Seq::empty()
    } else {
        seq![item_of(w, cur)] + match get(w.edges, cur) {
            Some(e) => match e.base_entry_id {
                Some(b) => view_from(w, b, visited.push(cur)),
                None => Seq::empty(),
            },
            None => Seq::empty(),
        }
    }
}

/// The recorded chain of an entry.
pub open spec fn chain_view(w: RowsModel, id: i64) -> Seq<ItemModel> {
    view_from(w, id, Seq::empty())
}

/// An entry was reconstructed as the object `oid`.
pub open spec fn is_candidate(w: RowsModel, id: i64, oid: Seq<char>) -> bool {
    &&& has_key(w.entries, id)
    &&& get(w.resolutions, id) matches Some(r) && r.status == "ok"@ && r.oid == Some(oid)
}

/// The digest of a source.
pub open spec fn digest_of(w: RowsModel, source: i64) -> Seq<char> {
    match get(w.sources, source) {
        Some(s) => s.digest,
        None => ""@,
    }
}

/// Entry `a` is preferred to entry `b`: by source digest, then offset, then id.
pub open spec fn precedes(w: RowsModel, a: i64, b: i64) -> bool {
    let x = get(w.entries, a)->0;
    let y = get(w.entries, b)->0;
    let dx = digest_of(w, x.source_id);
    let dy = digest_of(w, y.source_id);
    if dx != dy {
        bytes_less(encode_utf8(dx), encode_utf8(dy))
    } else if x.offset != y.offset {
        x.offset < y.offset
    } else {
        a < b
    }
}

/// The preferred entry for `oid` among the first `n`.
pub open spec fn first_candidate(w: RowsModel, oid: Seq<char>, n: nat) -> Option<i64>
    decreases n,
{
    if n == 0 {
        None
    } else {
        let id = w.entries[n - 1].0;
        match first_candidate(w, oid, (n - 1) as nat) {
            None => if is_candidate(w, id, oid) {
                Some(id)
            } else {
                None
            },
            Some(b) => if is_candidate(w, id, oid) && precedes(w, id, b) {
                Some(id)
            } else {
                Some(b)
            },
        }
    }
}

/// The entry that provides `oid`: the pinned one if it does, else the preferred one; negative
/// when there is none.
pub open spec fn provider(w: RowsModel, oid: Seq<char>) -> i64 {
    let first = match first_candidate(w, oid, w.entries.len()) {
        Some(b) => b,
        None => -1i64,
    };
    match get(w.pins, oid) {
        Some(p) => if is_candidate(w, p, oid) {
            p
        } else {
            first
        },
        None => first,
    }
}

/// The first entry at an offset of a source.
pub open spec fn entry_at(entries: Seq<(i64, EntryModel)>, source: i64, offset: u64) -> Option<i64>
    decreases entries.len(),
{
    if entries.len() == 0 {
        None
    } else if entries[0].1.source_id == source && entries[0].1.offset == offset {
        Some(entries[0].0)
    } else {
        entry_at(entries.skip(1), source, offset)
    }
}

/// The rows with the edge of an entry recorded.
pub open spec fn with_edge(w: RowsModel, id: i64, base: Option<i64>, kind: Seq<char>, base_ref: Seq<char>) -> RowsModel {
    RowsModel {
        edges: put(w.edges, id, EdgeModel { base_entry_id: base, base_kind: kind, base_ref }),
        ..w
    }
}

/// The type of an entry; a blob when its name stands for none.
pub open spec fn entry_type(e: EntryModel) -> ObjType {
    match ObjType::of_text(e.obj_type) {
        Some(t) => t,
        None => ObjType::Blob,
    }
}

/// The chain from `cur` to a whole object, behind `links`; the base comes first.
pub open spec fn chain_from(w: RowsModel, target: i64, cur: i64, seen: Seq<i64>, links: Seq<i64>) -> (
    RowsModel,
    Result<Seq<i64>, FailModel>,
)
    decreases w.entries.len() + 1 - seen.len(),
{
    let e = get(w.entries, cur)->0;
    let t = entry_type(e);
    if !t.delta() {
        (w, Ok(links.push(cur).reverse()))
    } else if seen.contains(cur) {
        (
            w,
            Err(
                FailModel {
                    cycle: Some(seen.skip(place(seen, cur) as int).push(cur)),
                    ..plain_failure("cycle"@, Some("delta chain forms a cycle"@))
                },
            ),
        )
    } else if seen.len() > w.entries.len() {
        (w, Err(plain_failure("cycle"@, Some("delta chain forms a cycle"@))))
    } else if t == ObjType::OfsDelta {
        let dist = match e.ofs_distance {
            Some(d) => d,
            None => 0,
        };
        if dist > e.offset {
            (
                with_edge(w, cur, None, "ofs"@, dec(dist as nat)),
                Err(
                    plain_failure(
                        "ofs_out_of_bounds"@,
                        Some(
                            "ofs distance "@ + dec(dist as nat) + " exceeds entry offset "@ + dec(
                                e.offset as nat,
                            ),
                        ),
                    ),
                ),
            )
        } else {
            let base_offset = (e.offset - dist) as u64;
            let v = with_edge(w, cur, None, "ofs"@, dec(base_offset as nat));
            match entry_at(w.entries, e.source_id, base_offset) {
                Some(b) => chain_from(v, target, b, seen.push(cur), links.push(cur)),
                None => (
                    v,
                    Err(
                        FailModel {
                            base_kind: Some("ofs"@),
                            base_ref: Some(dec(base_offset as nat)),
                            chain: Some(chain_view(v, target)),
                            ..plain_failure("missing_base"@, None)
                        },
                    ),
                ),
            }
        }
    } else {
        let oid = match e.ref_base {
            Some(o) => o,
            None => ""@,
        };
        let v = with_edge(w, cur, None, "ref"@, oid);
        let p = provider(w, oid);
        if p < 0 {
            (
                v,
                Err(
                    FailModel {
                        base_kind: Some("ref"@),
                        missing_oid: Some(oid),
                        chain: Some(chain_view(v, target)),
                        ..plain_failure("missing_base"@, None)
                    },
                ),
            )
        } else {
            chain_from(
                with_edge(w, cur, Some(p), "ref"@, oid),
                target,
                p,
                seen.push(cur),
                links.push(cur),
            )
        }
    }
}

impl Rows {
    fn chain_item(&self, id: i64, e: &EntryRow) -> (i: ChainItem)
        requires
            get(self@.entries, id) == Some(e.deep_view()),
        ensures
            i@ == item_of(self@, id),
    {
        let (status, oid) = match self.resolutions.get(id) {
            Some(r) => (
                r.status.clone(),
                match &r.oid {
                    Some(o) => o.clone(),
                    None => "".to_owned(),
                },
            ),
            None => ("".to_owned(), "".to_owned()),
        };
        ChainItem {
            entry_id: id,
            source_id: e.source_id,
            offset: e.offset,
            obj_type: e.obj_type.clone(),
            status,
            oid,
            edge: match self.edges.get(id) {
                Some(x) => Some(copy_edge(x)),
                None => None,
            },
        }
    }

    /// The recorded chain of an entry.
    pub fn chain_view(&self, target: i64) -> (v: Vec<ChainItem>)
        ensures
            item_models(v@) == chain_view(self@, target),
    {
        let mut out: Vec<ChainItem> = Vec::new();
        let mut visited: Vec<i64> = Vec::new();
        let mut cur: i64 = target;
        let ghost all = chain_view(self@, target);
        assert(visited@ =~= Seq::empty());
        assert(item_models(out@) + view_from(self@, cur, visited@) =~= all);
        loop
            invariant
                visited@.len() <= self@.entries.len() + 1,
                all == chain_view(self@, target),
                item_models(out@) + view_from(self@, cur, visited@) == all,
            decreases self@.entries.len() + 1 - visited@.len(),
        {
            let n: usize = self.entries.len();
            if contains_id(&visited, cur) || visited.len() > n {
                assert(item_models(out@) =~= all);
                return out;
            }
            let e = match self.entries.get(cur) {
                Some(e) => e,
                None => {
                    assert(item_models(out@) =~= all);
                    return out;
                },
            };
            let item = self.chain_item(cur, e);
            let next: Option<i64> = match &item.edge {
                Some(x) => x.base_entry_id,
                None => None,
            };
            let ghost before = item_models(out@);
            let ghost seen = visited@;
            out.push(item);
            visited.push(cur);
            assert(item_models(out@) =~= before.push(item@));
            match next {
                Some(b) => {
                    proof {
                        assert(before + (seq![item@] + view_from(self@, b, seen.push(cur))) =~= before.push(
                            item@,
                        ) + view_from(self@, b, seen.push(cur)));
                    }
                    cur = b;
                },
                None => {
                    assert(item_models(out@) =~= all);
                    return out;
                },
            }
        }
    }

    fn candidate(&self, id: i64, oid: &str) -> (r: bool)
        ensures
            r == is_candidate(self@, id, oid@),
    {
        if !self.entries.contains(id) {
            return false;
        }
        match self.resolutions.get(id) {
            Some(r) => same_text(r.status.as_str(), "ok") && match &r.oid {
                Some(o) => same_text(o.as_str(), oid),
                None => false,
            },
            None => false,
        }
    }

    fn digest(&self, source: i64) -> (s: String)
        ensures
            s@ == digest_of(self@, source),
    {
        match self.sources.get(source) {
            Some(s) => s.digest.clone(),
            None => "".to_owned(),
        }
    }

    fn preferred(&self, a: i64, b: i64) -> (r: bool)
        requires
            has_key(self@.entries, a),
            has_key(self@.entries, b),
        ensures
            r == precedes(self@, a, b),
    {
        match (self.entries.get(a), self.entries.get(b)) {
            (Some(x), Some(y)) => {
                let dx = self.digest(x.source_id);
                let dy = self.digest(y.source_id);
                if !same_text(dx.as_str(), dy.as_str()) {
                    less(dx.as_str().as_bytes(), dy.as_str().as_bytes())
                } else if x.offset != y.offset {
                    x.offset < y.offset
                } else {
                    a < b
                }
            },
            _ => false,
        }
    }

    fn find_pin(&self, oid: &str) -> (r: Option<i64>)
        ensures
            r == get(self@.pins, oid@),
    {
        let ghost m = self@.pins;
        let mut i: usize = 0;
        while i < self.pins.len() && !same_text(self.pins[i].0.as_str(), oid)
            invariant
                i <= self.pins@.len(),
                m == self@.pins,
                forall|j: int| 0 <= j < i ==> (#[trigger] m[j]).0 != oid@,
            decreases self.pins@.len() - i,
        {
            i += 1;
        }
        proof {
            lemma_row_is(m, oid@, i as nat);
        }
        if i < self.pins.len() {
            Some(self.pins[i].1)
        } else {
            None
        }
    }

    /// The entry that provides `oid`, in deterministic order: a pin, then source digest, entry
    /// offset and entry id.
    pub fn pick_provider(&self, oid: &str) -> (p: i64)
        ensures
            p == provider(self@, oid@),
            p >= 0 ==> has_key(self@.entries, p),
    {
        if let Some(p) = self.find_pin(oid) {
            if self.candidate(p, oid) {
                return p;
            }
        }
        let mut found: Option<i64> = None;
        let mut n: usize = 0;
        while n < self.entries.len()
            invariant
                n <= self@.entries.len(),
                found == first_candidate(self@, oid@, n as nat),
                found matches Some(b) ==> has_key(self@.entries, b),
            decreases self@.entries.len() - n,
        {
            let id: i64 = self.entries.key_at(n);
            if self.candidate(id, oid) {
                let replace: bool = match found {
                    Some(b) => self.preferred(id, b),
                    None => true,
                };
                if replace {
                    found = Some(id);
                }
            }
            n += 1;
        }
        match found {
            Some(b) => b,
            None => -1,
        }
    }

    fn find_by_offset(&self, source: i64, offset: u64) -> (r: Option<i64>)
        ensures
            r == entry_at(self@.entries, source, offset),
            r matches Some(b) ==> has_key(self@.entries, b),
    {
        let ghost es = self@.entries;
        let mut i: usize = 0;
        assert(es.skip(0) =~= es);
        while i < self.entries.len()
            invariant
                i <= es.len(),
                es == self.entries@,
                entry_at(es, source, offset) == entry_at(es.skip(i as int), source, offset),
            decreases es.len() - i,
        {
            let e = self.entries.value_at(i);
            if e.source_id == source && e.offset == offset {
                let k: i64 = self.entries.key_at(i);
                proof {
                    lemma_row(es, k);
                    if crate::model::assoc::row_of(es, k) > i {
                        assert(es[i as int].0 != k);
                    }
                }
                return Some(k);
            }
            assert(es.skip(i as int).skip(1) =~= es.skip(i + 1));
            i += 1;
        }
        None
    }

    fn record_edge(&mut self, id: i64, base: Option<i64>, kind: &str, base_ref: String)
        ensures
            final(self)@ == with_edge(old(self)@, id, base, kind@, base_ref@),
    {
        self.edges.insert(
            id,
            EdgeRow { base_entry_id: base, base_kind: kind.to_owned(), base_ref },
        );
    }

    /// Walks the delta links from `target` up to a non-delta base, and records each edge.
    pub fn build_chain(&mut self, target: i64) -> (r: Result<Vec<i64>, Failure>)
        requires
            has_key(old(self)@.entries, target),
        ensures
            ({
                let c = chain_from(old(self)@, target, target, Seq::empty(), Seq::empty());
                &&& final(self)@ == c.0
                &&& final(self)@.entries == old(self)@.entries
                &&& match r {
                    Ok(v) => c.1 == Ok::<Seq<i64>, FailModel>(v@) && v@.len() > 0 && (forall|i: int|
                        0 <= i < v@.len() ==> has_key(old(self)@.entries, #[trigger] v@[i])),
                    Err(f) => c.1 == Err::<Seq<i64>, FailModel>(f@),
                }
            }),
    {
        let ghost start = chain_from(self@, target, target, Seq::empty(), Seq::empty());
        let mut seen: Vec<i64> = Vec::new();
        let mut cur: i64 = target;
        assert(seen@ =~= Seq::empty());
        loop
            invariant
                self@.entries == old(self)@.entries,
                has_key(self@.entries, cur),
                start == chain_from(old(self)@, target, target, Seq::empty(), Seq::empty()),
                start == chain_from(self@, target, cur, seen@, seen@),
                seen@.no_duplicates(),
                forall|i: int| 0 <= i < seen@.len() ==> has_key(self@.entries, #[trigger] seen@[i]),
            decreases self@.entries.len() + 1 - seen@.len(),
        {
            proof {
                lemma_keys_fit(seen@, self@.entries);
            }
            let e = match self.entries.get(cur) {
                Some(e) => e,
                None => return Ok(seen),
            };
            let t = match ObjType::from_name(e.obj_type.as_str()) {
                Some(t) => t,
                None => ObjType::Blob,
            };
            if !t.is_delta() {
                seen.push(cur);
                let links = reversed(&seen);
                return Ok(links);
            }
            if contains_id(&seen, cur) {
                let at: usize = find_id(&seen, cur);
                let mut cycle: Vec<i64> = Vec::new();
                let mut k: usize = at;
                let ghost all = seen@;
                assert(cycle@ =~= all.subrange(at as int, k as int));
                while k < seen.len()
                    invariant
                        at <= k <= seen@.len(),
                        all == seen@,
                        cycle@ == all.subrange(at as int, k as int),
                    decreases seen@.len() - k,
                {
                    cycle.push(seen[k]);
                    k += 1;
                    assert(cycle@ =~= all.subrange(at as int, k as int));
                }
                assert(cycle@ =~= all.skip(at as int));
                cycle.push(cur);
                let mut f = new_failure("cycle", Some("delta chain forms a cycle".to_owned()));
                f.cycle = Some(cycle);
                return Err(f);
            }
            let ghost before = seen@;
            if matches!(t, ObjType::OfsDelta) {
                let dist: u64 = match e.ofs_distance {
                    Some(d) => d,
                    None => 0,
                };
                let offset: u64 = e.offset;
                let source: i64 = e.source_id;
                if dist > offset {
                    let mut m = "ofs distance ".to_owned();
                    push_dec(&mut m, dist);
                    m.append(" exceeds entry offset ");
                    push_dec(&mut m, offset);
                    let mut d = String::new();
                    push_dec(&mut d, dist);
                    assert(d@ =~= dec(dist as nat));
                    self.record_edge(cur, None, "ofs", d);
                    return Err(new_failure("ofs_out_of_bounds", Some(m)));
                }
                let base_offset: u64 = offset - dist;
                let mut d = String::new();
                push_dec(&mut d, base_offset);
                assert(d@ =~= dec(base_offset as nat));
                let base = self.find_by_offset(source, base_offset);
                self.record_edge(cur, None, "ofs", d.clone());
                match base {
                    Some(b) => {
                        seen.push(cur);
                        assert(seen@ =~= before.push(cur));
                        cur = b;
                    },
                    None => {
                        let mut f = new_failure("missing_base", None);
                        f.base_kind = Some("ofs".to_owned());
                        f.base_ref = Some(d);
                        f.chain = Some(self.chain_view(target));
                        return Err(f);
                    },
                }
            } else {
                let oid = match &e.ref_base {
                    Some(o) => o.clone(),
                    None => "".to_owned(),
                };
                let p: i64 = self.pick_provider(oid.as_str());
                if p < 0 {
                    self.record_edge(cur, None, "ref", oid.clone());
                    let mut f = new_failure("missing_base", None);
                    f.base_kind = Some("ref".to_owned());
                    f.missing_oid = Some(oid);
                    f.chain = Some(self.chain_view(target));
                    return Err(f);
                }
                self.record_edge(cur, Some(p), "ref", oid);
                seen.push(cur);
                assert(seen@ =~= before.push(cur));
                cur = p;
            }
        }
    }
}

/// An item of a chain says what is stored of its entry.
pub open spec fn shows_entry(i: ItemModel, w: RowsModel) -> bool {
    &&& get(w.entries, i.entry_id) matches Some(e) && i.source_id == e.source_id && i.offset == e.offset && i.obj_type
        == e.obj_type
    &&& i.edge == get(w.edges, i.entry_id)
    &&& get(w.resolutions, i.entry_id) is Some ==> i.status == (get(w.resolutions, i.entry_id)->0).status
    &&& get(w.resolutions, i.entry_id) is Some && (get(w.resolutions, i.entry_id)->0).oid is Some ==> i.oid == (get(
        w.resolutions,
        i.entry_id,
    )->0).oid->0
}

/// The recorded chain starts at its entry and follows the recorded edges from each entry to its base,
/// until there is none or an entry comes again. Each item says what is stored.
pub proof fn a_recorded_chain_follows_the_edges(w: RowsModel, cur: i64, visited: Seq<i64>)
    ensures
        ({
            let c = view_from(w, cur, visited);
            &&& has_key(w.entries, cur) && !visited.contains(cur) && visited.len() <= w.entries.len() ==> c.len() > 0
            &&& c.len() > 0 ==> c[0].entry_id == cur
            &&& forall|i: int| 0 <= i < c.len() ==> shows_entry(#[trigger] c[i], w)
            &&& forall|i: int| 0 <= i < c.len() ==> !visited.contains((#[trigger] c[i]).entry_id)
            &&& forall|i: int, j: int|
                0 <= i < j < c.len() ==> (#[trigger] c[i]).entry_id != (#[trigger] c[j]).entry_id
            &&& forall|i: int, j: int|
                0 <= i && j == i + 1 && j < c.len() ==> ((#[trigger] c[i]).edge matches Some(e) && e.base_entry_id == Some(
                    (#[trigger] c[j]).entry_id,
                ))
        }),
    decreases w.entries.len() + 1 - visited.len(),
{
    let c = view_from(w, cur, visited);
    if !(visited.contains(cur) || !has_key(w.entries, cur) || visited.len() > w.entries.len()) {
        let next = match get(w.edges, cur) {
            Some(e) => e.base_entry_id,
            None => None,
        };
        let more = visited.push(cur);
        assert(shows_entry(item_of(w, cur), w));
        if let Some(b) = next {
            a_recorded_chain_follows_the_edges(w, b, more);
            let d = view_from(w, b, more);
            assert(c =~= seq![item_of(w, cur)] + d);
            assert(more[visited.len() as int] == cur);
            assert forall|i: int| 0 <= i < c.len() implies shows_entry(#[trigger] c[i], w) by {
                if i > 0 {
                    assert(c[i] == d[i - 1]);
                }
            }
            assert forall|i: int| 0 <= i < c.len() implies !visited.contains((#[trigger] c[i]).entry_id) by {
                if i > 0 {
                    assert(c[i] == d[i - 1]);
                    if visited.contains(c[i].entry_id) {
                        let q = choose|q: int| 0 <= q < visited.len() && visited[q] == c[i].entry_id;
                        assert(more[q] == c[i].entry_id);
                    }
                }
            }
            assert forall|i: int, j: int| 0 <= i < j < c.len() implies (#[trigger] c[i]).entry_id != (
            #[trigger] c[j]).entry_id by {
                assert(c[j] == d[j - 1]);
                if i > 0 {
                    assert(c[i] == d[i - 1]);
                } else {
                    assert(!more.contains(d[j - 1].entry_id));
                }
            }
            assert forall|i: int, j: int| 0 <= i && j == i + 1 && j < c.len() implies ((#[trigger] c[i]).edge matches Some(
                e,
            ) && e.base_entry_id == Some((#[trigger] c[j]).entry_id)) by {
                assert(c[j] == d[j - 1]);
                if i > 0 {
                    assert(c[i] == d[i - 1]);
                }
            }
        } else {
            assert(c =~= seq![item_of(w, cur)]);
        }
    }
}

} // verus!
