//! What surrounds a run: analysis after an import, pins, and the deletion of a source that
//! nothing stands on.
use vstd::prelude::*;
use vstd::string::StringExecFns;
use vstd::utf8::encode_utf8;
use crate::analyze::blocking::oids_can_be_cut;
use crate::analyze::engine::{fresh_run, raised, under, AccModel, Budget, Env, NodeState, RunSummary};
use crate::analyze::graph::{graph_of, node_models, CandidateNode, FileRead};
use crate::analyze::report::{
    analyze_branch, count_state, raising_the_budget_keeps_a_run, roots_of, run_over, status_text, summarize,
};
use crate::app::FileKind;
use crate::kernel::engine::candidates::contains_text_in;
use crate::model::assoc::{del, get, has_key, put, IdMap, TextMap};
use crate::model::order::views;
use crate::model::sort::{bytes_less, sort_texts};
use crate::model::text::{dec, join, joined, push_dec, push_part, same_text, texts};

verus! {

/// What was imported.
#[derive(Debug)]
pub struct ImportResult {
    pub kind: String,
    pub source_id: i64,
}

/// What an import and the run after it gave.
#[derive(Debug)]
pub struct AnalysisOutcome {
    pub import: ImportResult,
    pub report: RunSummary,
    pub budget_total_used: u64,
}

/// An object that a branch reconstructed, and the pack that its bytes come from.
#[derive(Debug)]
pub struct ResolvedRow {
    pub oid: String,
    pub branch_id: i64,
    pub status: String,
    pub pack_source: Option<i64>,
}

/// The model of a reconstructed object.
pub ghost struct ResolvedModel {
    pub oid: Seq<char>,
    pub branch_id: i64,
    pub status: Seq<char>,
    pub pack_source: Option<i64>,
}

impl View for ResolvedRow {
    type V = ResolvedModel;

    open spec fn view(&self) -> ResolvedModel {
        ResolvedModel {
            oid: self.oid@,
            branch_id: self.branch_id,
            status: self.status@,
            pack_source: self.pack_source,
        }
    }
}

/// The base of one step of a reconstruction.
#[derive(Debug)]
pub struct StepBase {
    pub oid: String,
    pub branch_id: i64,
    pub base_oid: String,
}

/// The model of the base of a step.
pub ghost struct StepModel {
    pub oid: Seq<char>,
    pub branch_id: i64,
    pub base_oid: Seq<char>,
}

impl View for StepBase {
    type V = StepModel;

    open spec fn view(&self) -> StepModel {
        StepModel { oid: self.oid@, branch_id: self.branch_id, base_oid: self.base_oid@ }
    }
}

/// A loose object under the id of its content.
#[derive(Debug)]
pub struct LooseObject {
    pub source_id: i64,
    pub computed_oid: String,
}

/// The model of a loose object.
pub ghost struct LooseModel {
    pub source_id: i64,
    pub computed_oid: Seq<char>,
}

impl View for LooseObject {
    type V = LooseModel;

    open spec fn view(&self) -> LooseModel {
        LooseModel { source_id: self.source_id, computed_oid: self.computed_oid@ }
    }
}

/// The sources with their kinds, and what was reconstructed from them.
pub struct Store {
    pub sources: IdMap<String>,
    pub resolutions: Vec<ResolvedRow>,
    pub steps: Vec<StepBase>,
    pub loose: Vec<LooseObject>,
    /// The pins of each branch: the candidate that provides an id.
    pub pins: TextMap<TextMap<i64>>,
    /// The bytes that all runs have expanded.
    pub total_expanded_used: u64,
}

/// The model of a store.
pub ghost struct StoreModel {
    pub sources: Seq<(i64, Seq<char>)>,
    pub resolutions: Seq<ResolvedModel>,
    pub steps: Seq<StepModel>,
    pub loose: Seq<LooseModel>,
    pub pins: Seq<(Seq<char>, Seq<(Seq<char>, i64)>)>,
    pub total_expanded_used: u64,
}

impl View for Store {
    type V = StoreModel;

    open spec fn view(&self) -> StoreModel {
        StoreModel {
            sources: self.sources@,
            resolutions: views(self.resolutions@),
            steps: views(self.steps@),
            loose: views(self.loose@),
            pins: self.pins@,
            total_expanded_used: self.total_expanded_used,
        }
    }
}

/// A loose object of a source has an id.
pub open spec fn loose_with(v: Seq<LooseModel>, source_id: i64, oid: Seq<char>) -> bool {
    exists|k: int| 0 <= k < v.len() && (#[trigger] v[k]).source_id == source_id && v[k].computed_oid == oid
}

/// Some step of a reconstruction stands on a loose object of a source.
pub open spec fn steps_on(s: StoreModel, source_id: i64, oid: Seq<char>, branch: i64) -> bool {
    exists|j: int|
        0 <= j < s.steps.len() && (#[trigger] s.steps[j]).oid == oid && s.steps[j].branch_id == branch
            && loose_with(s.loose, source_id, s.steps[j].base_oid)
}

/// Row `i` was reconstructed from bytes of a source.
pub open spec fn row_depends(s: StoreModel, source_id: i64, i: int) -> bool {
    let r = s.resolutions[i];
    r.status == "resolved"@ && match get(s.sources, source_id) {
        Some(kind) => if kind == "pack"@ {
            r.pack_source == Some(source_id)
        } else if kind == "loose"@ {
            steps_on(s, source_id, r.oid, r.branch_id)
        } else {
            false
        },
        None => false,
    }
}

/// The object `oid` was reconstructed from bytes of a source.
pub open spec fn object_depends(s: StoreModel, source_id: i64, oid: Seq<char>) -> bool {
    exists|i: int|
        0 <= i < s.resolutions.len() && (#[trigger] s.resolutions[i]).oid == oid && row_depends(s, source_id, i)
}

/// A list of texts in the order of their bytes.
pub open spec fn in_order(v: Seq<Seq<char>>) -> bool {
    forall|i: int, j: int|
        0 <= i < j < v.len() ==> !bytes_less(encode_utf8(#[trigger] v[j]), encode_utf8(#[trigger] v[i]))
}

/// The complaint about a source on which objects still stand.
pub open spec fn still_needed(v: Seq<Seq<char>>) -> Seq<char> {
    dec(v.len()) + " object(s) still depend on this source: "@ + joined(v, ", "@)
}

/// The pins of a branch.
pub open spec fn pins_of(s: StoreModel, branch: Seq<char>) -> Seq<(Seq<char>, i64)> {
    match get(s.pins, branch) {
        Some(p) => p,
        None => Seq::empty(),
    }
}

/// How a run over a branch ends.
pub open spec fn branch_run(
    rows: Seq<CandidateNode>,
    pins: Seq<(Seq<char>, i64)>,
    files: TextMap<FileRead>,
    budget: Budget,
) -> AccModel {
    let g = graph_of(node_models(rows), pins);
    run_over(Env { graph: g, files: files@, budget }, fresh_run(), roots_of(g))
}

/// The summary of a run.
pub open spec fn is_report(s: RunSummary, run_id: i64, a: AccModel) -> bool {
    &&& s.run_id == run_id
    &&& s.status@ == status_text(a)
    &&& s.resolved == a.resolved.len()
    &&& s.blocked == count_state(a.state, NodeState::Failed)
    &&& s.paused == count_state(a.state, NodeState::Paused)
    &&& s.depth_used == a.depth_used
    &&& s.bytes_used == a.bytes_used
    &&& s.messages@.len() == 0
}

/// What was expanded after a run that expanded `n` more bytes.
pub open spec fn expanded(s: StoreModel, n: u64) -> StoreModel {
    StoreModel {
        total_expanded_used: if s.total_expanded_used + n > u64::MAX {
            u64::MAX
        } else {
            (s.total_expanded_used + n) as u64
        },
        ..s
    }
}

impl Store {
    fn copy_pins(&self, branch: &str) -> (r: TextMap<i64>)
        ensures
            r@ == pins_of(self@, branch@),
    {
        let mut r: TextMap<i64> = TextMap::new();
        match self.pins.get(branch) {
            None => {},
            Some(p) => {
                let mut n: usize = 0;
                while n < p.len()
                    invariant
                        n <= p@.len(),
                        r@ == p@.take(n as int),
                    decreases p@.len() - n,
                {
                    r.append(p.key_at(n).clone(), *p.value_at(n));
                    n += 1;
                    assert(r@ =~= p@.take(n as int));
                }
                assert(r@ =~= p@);
            },
        }
        r
    }

    fn is_loose_with(&self, source_id: i64, oid: &str) -> (r: bool)
        ensures
            r == loose_with(self@.loose, source_id, oid@),
    {
        let mut k: usize = 0;
        while k < self.loose.len()
            invariant
                k <= self.loose@.len(),
                forall|j: int|
                    0 <= j < k ==> !((#[trigger] self@.loose[j]).source_id == source_id
                        && self@.loose[j].computed_oid == oid@),
            decreases self.loose@.len() - k,
        {
            let x = &self.loose[k];
            assert(self@.loose[k as int] == x@);
            if x.source_id == source_id && same_text(x.computed_oid.as_str(), oid) {
                return true;
            }
            k += 1;
        }
        false
    }

    fn has_steps_on(&self, source_id: i64, oid: &str, branch: i64) -> (r: bool)
        ensures
            r == steps_on(self@, source_id, oid@, branch),
    {
        let mut j: usize = 0;
        while j < self.steps.len()
            invariant
                j <= self.steps@.len(),
                forall|i: int|
                    0 <= i < j ==> !((#[trigger] self@.steps[i]).oid == oid@ && self@.steps[i].branch_id == branch
                        && loose_with(self@.loose, source_id, self@.steps[i].base_oid)),
            decreases self.steps@.len() - j,
        {
            let x = &self.steps[j];
            assert(self@.steps[j as int] == x@);
            if same_text(x.oid.as_str(), oid) && x.branch_id == branch && self.is_loose_with(
                source_id,
                x.base_oid.as_str(),
            ) {
                return true;
            }
            j += 1;
        }
        false
    }

}

/// Runs the analysis of a branch and books what it expanded.
pub fn reanalyze_branch(
    store: &mut Store,
    rows: &[CandidateNode],
    files: &TextMap<FileRead>,
    budget: Budget,
    run_id: i64,
    branch: &str,
) -> (r: RunSummary)
    requires
        oids_can_be_cut(graph_of(node_models(rows@), pins_of(old(store)@, branch@))),
    ensures
        is_report(r, run_id, branch_run(rows@, pins_of(old(store)@, branch@), *files, budget)),
        final(store)@ == expanded(old(store)@, r.bytes_used),
{
    let none: TextMap<i64> = TextMap::new();
    let pins = match store.pins.get(branch) {
        Some(p) => p,
        None => &none,
    };
    let run = analyze_branch(rows, pins, files, budget, None);
    assert(texts(run.messages@).len() == run.messages@.len());
    let report = summarize(run_id, run);
    store.total_expanded_used = store.total_expanded_used.saturating_add(report.bytes_used);
    report
}

/// A retry after the budget was raised leaves every object that was reconstructed with identical
/// content: it is reconstructed again, under the same id, in the same way.
pub proof fn a_retry_keeps_what_was_reconstructed(
    rows: Seq<CandidateNode>,
    pins: Seq<(Seq<char>, i64)>,
    files: TextMap<FileRead>,
    low: Budget,
    high: Budget,
    id: i64,
)
    requires
        raised(low, high),
        has_key(branch_run(rows, pins, files, low).resolved, id),
    ensures
        get(branch_run(rows, pins, files, high).resolved, id) == get(
            branch_run(rows, pins, files, low).resolved,
            id,
        ),
{
    let g = graph_of(node_models(rows), pins);
    let env = Env { graph: g, files: files@, budget: low };
    assert(under(env, high) == Env { graph: g, files: files@, budget: high });
    raising_the_budget_keeps_a_run(env, high, fresh_run(), roots_of(g));
}

/// Retries the reconstruction, typically after the budget was raised or a base was added.
pub fn retry(
    store: &mut Store,
    rows: &[CandidateNode],
    files: &TextMap<FileRead>,
    budget: Budget,
    run_id: i64,
) -> (r: RunSummary)
    requires
        oids_can_be_cut(graph_of(node_models(rows@), pins_of(old(store)@, "default"@))),
    ensures
        is_report(r, run_id, branch_run(rows@, pins_of(old(store)@, "default"@), *files, budget)),
        final(store)@ == expanded(old(store)@, r.bytes_used),
{
    reanalyze_branch(store, rows, files, budget, run_id, "default")
}

/// Analyzes what is stored after the import of a file. The candidate rows are those that are
/// rebuilt from all sources, so the order of import does not matter. Only the default branch
/// is reconstructed.
pub fn analyze_after_import(
    store: &mut Store,
    kind: FileKind,
    source_id: i64,
    rows: &[CandidateNode],
    files: &TextMap<FileRead>,
    budget: Budget,
    run_id: i64,
) -> (r: AnalysisOutcome)
    requires
        oids_can_be_cut(graph_of(node_models(rows@), pins_of(old(store)@, "default"@))),
    ensures
        r.import.kind@ == kind.text(),
        r.import.source_id == source_id,
        is_report(r.report, run_id, branch_run(rows@, pins_of(old(store)@, "default"@), *files, budget)),
        final(store)@ == expanded(old(store)@, r.report.bytes_used),
        r.budget_total_used == final(store).total_expanded_used,
{
    let report = reanalyze_branch(store, rows, files, budget, run_id, "default");
    AnalysisOutcome {
        import: ImportResult { kind: kind.name().to_owned(), source_id },
        report,
        budget_total_used: store.total_expanded_used,
    }
}

/// Fixes the candidate that provides an id in a branch.
pub fn pin_candidate(store: &mut Store, branch: &str, oid: &str, candidate_id: i64)
    ensures
        final(store)@ == (StoreModel {
            pins: put(old(store)@.pins, branch@, put(pins_of(old(store)@, branch@), oid@, candidate_id)),
            ..old(store)@
        }),
{
    let mut pins: TextMap<i64> = store.copy_pins(branch);
    pins.insert(oid.to_owned(), candidate_id);
    store.pins.insert(branch.to_owned(), pins);
}

/// Takes the pin of an id away.
pub fn unpin(store: &mut Store, branch: &str, oid: &str)
    ensures
        final(store)@ == (StoreModel {
            pins: put(old(store)@.pins, branch@, del(pins_of(old(store)@, branch@), oid@)),
            ..old(store)@
        }),
{
    let mut pins: TextMap<i64> = store.copy_pins(branch);
    pins.remove(oid);
    store.pins.insert(branch.to_owned(), pins);
}

/// The objects that were reconstructed from bytes of a source, in order.
pub fn dependents_preview(store: &Store, source_id: i64) -> (out: Vec<String>)
    ensures
        texts(out@).no_duplicates(),
        in_order(texts(out@)),
        forall|x: Seq<char>| #[trigger]
            texts(out@).contains(x) <==> object_depends(store@, source_id, x),
        get(store@.sources, source_id) == Some("loose"@) ==> forall|i: int, j: int, k: int|
            0 <= i < store@.resolutions.len() && 0 <= j < store@.steps.len() && 0 <= k < store@.loose.len()
                && (#[trigger] store@.resolutions[i]).status == "resolved"@ && (#[trigger] store@.steps[j]).oid
                == store@.resolutions[i].oid && store@.steps[j].branch_id == store@.resolutions[i].branch_id && (
            #[trigger] store@.loose[k]).source_id == source_id && store@.loose[k].computed_oid
                == store@.steps[j].base_oid ==> texts(out@).contains(store@.resolutions[i].oid),
        get(store@.sources, source_id) == Some("pack"@) ==> forall|i: int|
            0 <= i < store@.resolutions.len() && (#[trigger] store@.resolutions[i]).status == "resolved"@
                && store@.resolutions[i].pack_source == Some(source_id) ==> texts(out@).contains(
                store@.resolutions[i].oid,
            ),
{
    let (pack, loose) = match store.sources.get(source_id) {
        Some(k) => (same_text(k.as_str(), "pack"), same_text(k.as_str(), "loose")),
        None => (false, false),
    };
    let ghost s = store@;
    let mut found: Vec<String> = Vec::new();
    let mut n: usize = 0;
    while n < store.resolutions.len()
        invariant
            n <= store.resolutions@.len(),
            s == store@,
            pack == (get(s.sources, source_id) == Some("pack"@)),
            loose == (get(s.sources, source_id) == Some("loose"@)),
            texts(found@).no_duplicates(),
            forall|x: Seq<char>| #[trigger]
                texts(found@).contains(x) <==> exists|i: int|
                    0 <= i < n && (#[trigger] s.resolutions[i]).oid == x && row_depends(s, source_id, i),
        decreases store.resolutions@.len() - n,
    {
        let r = &store.resolutions[n];
        assert(s.resolutions[n as int] == r@);
        let from_pack: bool = match r.pack_source {
            Some(p) => p == source_id,
            None => false,
        };
        let needed: bool = same_text(r.status.as_str(), "resolved") && ((pack && from_pack) || (!pack
            && loose && store.has_steps_on(source_id, r.oid.as_str(), r.branch_id)));
        assert(needed == row_depends(s, source_id, n as int));
        let ghost was = texts(found@);
        if needed && !contains_text_in(&found, r.oid.as_str()) {
            push_part(&mut found, r.oid.clone());
            proof {
                assert(texts(found@) =~= was.push(r.oid@));
                assert(texts(found@)[was.len() as int] == r.oid@);
            }
        }
        proof {
            let now = texts(found@);
            assert forall|x: Seq<char>| #[trigger] now.contains(x) <==> exists|i: int|
                0 <= i < n + 1 && (#[trigger] s.resolutions[i]).oid == x && row_depends(s, source_id, i) by {
                if was.contains(x) {
                    let k = choose|k: int| 0 <= k < was.len() && was[k] == x;
                    assert(now[k] == x);
                    let i = choose|i: int|
                        0 <= i < n && (#[trigger] s.resolutions[i]).oid == x && row_depends(
                            s,
                            source_id,
                            i,
                        );
                    assert(0 <= i < n + 1 && s.resolutions[i].oid == x);
                }
                if now.contains(x) && !was.contains(x) {
                    let k = choose|k: int| 0 <= k < now.len() && now[k] == x;
                    if k < was.len() {
                        assert(was[k] == x);
                    }
                    assert(s.resolutions[n as int].oid == x);
                }
                if exists|i: int|
                    0 <= i < n + 1 && (#[trigger] s.resolutions[i]).oid == x && row_depends(s, source_id, i) {
                    let i = choose|i: int|
                        0 <= i < n + 1 && (#[trigger] s.resolutions[i]).oid == x && row_depends(
                            s,
                            source_id,
                            i,
                        );
                    if i < n {
                        assert(was.contains(x));
                    }
                }
            }
        }
        n += 1;
    }
    let out = sort_texts(&found);
    proof {
        assert forall|i: int| 0 <= i < s.resolutions.len() implies object_depends(
            s,
            source_id,
            (#[trigger] s.resolutions[i]).oid,
        ) || !row_depends(s, source_id, i) by {}
        assert forall|i: int| 0 <= i < s.resolutions.len() implies (texts(out@).contains(
            (#[trigger] s.resolutions[i]).oid,
        ) <==> object_depends(s, source_id, s.resolutions[i].oid)) by {}
        assert forall|i: int, j: int, k: int|
            0 <= i < s.resolutions.len() && 0 <= j < s.steps.len() && 0 <= k < s.loose.len()
                && (#[trigger] s.resolutions[i]).status == "resolved"@ && (#[trigger] s.steps[j]).oid
                == s.resolutions[i].oid && s.steps[j].branch_id == s.resolutions[i].branch_id && (
            #[trigger] s.loose[k]).source_id == source_id && s.loose[k].computed_oid == s.steps[j].base_oid
                && get(s.sources, source_id) == Some("loose"@) implies texts(out@).contains(
            s.resolutions[i].oid,
        ) by {
            objects_stand_on_the_bytes_they_came_from(s, source_id, s.resolutions[i].oid);
        }
        assert forall|i: int|
            0 <= i < s.resolutions.len() && (#[trigger] s.resolutions[i]).status == "resolved"@
                && s.resolutions[i].pack_source == Some(source_id) && get(s.sources, source_id) == Some(
                "pack"@,
            ) implies texts(out@).contains(s.resolutions[i].oid) by {
            objects_stand_on_the_bytes_they_came_from(s, source_id, s.resolutions[i].oid);
        }
    }
    out
}

/// Deletes a source, which is possible only when no object that was reconstructed still
/// stands on its bytes.
pub fn delete_dependents(store: &mut Store, source_id: i64) -> (r: Result<usize, String>)
    ensures
        match r {
            Ok(n) => {
                &&& n == 0
                &&& forall|x: Seq<char>| !object_depends(old(store)@, source_id, x)
                &&& has_key(old(store)@.sources, source_id)
                &&& final(store)@ == (StoreModel {
                    sources: del(old(store)@.sources, source_id),
                    ..old(store)@
                })
            },
            Err(m) => {
                &&& final(store)@ == old(store)@
                &&& if exists|x: Seq<char>| object_depends(old(store)@, source_id, x) {
                    exists|v: Seq<Seq<char>>|
                        v.no_duplicates() && in_order(v) && (forall|x: Seq<char>| #[trigger]
                            v.contains(x) <==> object_depends(old(store)@, source_id, x)) && m@
                            == #[trigger] still_needed(v)
                } else {
                    !has_key(old(store)@.sources, source_id) && m@ == "source not found"@
                }
            },
        },
{
    let blockers = dependents_preview(store, source_id);
    let ghost v = texts(blockers@);
    if blockers.len() > 0 {
        assert(v.contains(v[0]));
        let mut m = String::new();
        assert(blockers@.len() == blockers.len());
        push_dec(&mut m, blockers.len() as u64);
        m.append(" object(s) still depend on this source: ");
        let names = join(&blockers, ", ");
        m.append(names.as_str());
        assert(m@ =~= still_needed(v));
        return Err(m);
    }
    proof {
        assert forall|x: Seq<char>| !object_depends(store@, source_id, x) by {
            assert(!v.contains(x));
        }
    }
    if !store.sources.contains(source_id) {
        return Err("source not found".to_owned());
    }
    store.sources.remove(source_id);
    Ok(0)
}

/// An object stands on a pack when one of its resolved rows takes its bytes from it. It stands on
/// a loose source when a step of one of its resolved rows, in the branch of that row, starts from
/// an object whose computed id a loose object of the source has. It stands on nothing else.
pub proof fn objects_stand_on_the_bytes_they_came_from(s: StoreModel, source_id: i64, oid: Seq<char>)
    ensures
        get(s.sources, source_id) == Some("pack"@) ==> (object_depends(s, source_id, oid) <==> exists|i: int|
            0 <= i < s.resolutions.len() && (#[trigger] s.resolutions[i]).oid == oid && s.resolutions[i].status
                == "resolved"@ && s.resolutions[i].pack_source == Some(source_id)),
        get(s.sources, source_id) == Some("loose"@) ==> (object_depends(s, source_id, oid) <==> exists|
            i: int,
            j: int,
            k: int,
        |
            0 <= i < s.resolutions.len() && 0 <= j < s.steps.len() && 0 <= k < s.loose.len()
                && (#[trigger] s.resolutions[i]).oid == oid && s.resolutions[i].status == "resolved"@
                && (#[trigger] s.steps[j]).oid == oid && s.steps[j].branch_id == s.resolutions[i].branch_id
                && (#[trigger] s.loose[k]).source_id == source_id && s.loose[k].computed_oid
                == s.steps[j].base_oid),
        get(s.sources, source_id) != Some("pack"@) && get(s.sources, source_id) != Some("loose"@)
            ==> !object_depends(s, source_id, oid),
{
    reveal_strlit("pack");
    reveal_strlit("loose");
    assert("pack"@.len() == 4 && "loose"@.len() == 5);
    if get(s.sources, source_id) == Some("loose"@) {
        if object_depends(s, source_id, oid) {
            let i = choose|i: int|
                0 <= i < s.resolutions.len() && (#[trigger] s.resolutions[i]).oid == oid && row_depends(
                    s,
                    source_id,
                    i,
                );
            let b = s.resolutions[i].branch_id;
            let j = choose|j: int|
                0 <= j < s.steps.len() && (#[trigger] s.steps[j]).oid == oid && s.steps[j].branch_id == b
                    && loose_with(s.loose, source_id, s.steps[j].base_oid);
            let base = s.steps[j].base_oid;
            let k = choose|k: int|
                0 <= k < s.loose.len() && (#[trigger] s.loose[k]).source_id == source_id
                    && s.loose[k].computed_oid == base;
            assert(s.resolutions[i].oid == oid && s.steps[j].oid == oid && s.loose[k].source_id == source_id);
        }
        if exists|i: int, j: int, k: int|
            0 <= i < s.resolutions.len() && 0 <= j < s.steps.len() && 0 <= k < s.loose.len()
                && (#[trigger] s.resolutions[i]).oid == oid && s.resolutions[i].status == "resolved"@
                && (#[trigger] s.steps[j]).oid == oid && s.steps[j].branch_id == s.resolutions[i].branch_id
                && (#[trigger] s.loose[k]).source_id == source_id && s.loose[k].computed_oid
                == s.steps[j].base_oid {
            let (i, j, k) = choose|i: int, j: int, k: int|
                0 <= i < s.resolutions.len() && 0 <= j < s.steps.len() && 0 <= k < s.loose.len()
                    && (#[trigger] s.resolutions[i]).oid == oid && s.resolutions[i].status == "resolved"@
                    && (#[trigger] s.steps[j]).oid == oid && s.steps[j].branch_id
                    == s.resolutions[i].branch_id && (#[trigger] s.loose[k]).source_id == source_id
                    && s.loose[k].computed_oid == s.steps[j].base_oid;
            assert(loose_with(s.loose, source_id, s.steps[j].base_oid));
            assert(steps_on(s, source_id, oid, s.resolutions[i].branch_id));
            assert(row_depends(s, source_id, i));
        }
    } else if get(s.sources, source_id) == Some("pack"@) {
        if object_depends(s, source_id, oid) {
            let i = choose|i: int|
                0 <= i < s.resolutions.len() && (#[trigger] s.resolutions[i]).oid == oid && row_depends(
                    s,
                    source_id,
                    i,
                );
            assert(s.resolutions[i].oid == oid);
        }
        if exists|i: int|
            0 <= i < s.resolutions.len() && (#[trigger] s.resolutions[i]).oid == oid && s.resolutions[i].status
                == "resolved"@ && s.resolutions[i].pack_source == Some(source_id) {
            let i = choose|i: int|
                0 <= i < s.resolutions.len() && (#[trigger] s.resolutions[i]).oid == oid
                    && s.resolutions[i].status == "resolved"@ && s.resolutions[i].pack_source == Some(source_id);
            assert(row_depends(s, source_id, i));
        }
    }
}

} // verus!
