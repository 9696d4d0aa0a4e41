//! Ascending lists of numbers, as sets, and what is reached along edges.
use vstd::prelude::*;

verus! {

/// A list without repetition, in ascending order.
pub open spec fn ascending(v: Seq<i64>) -> bool {
    forall|i: int, j: int| 0 <= i < j < v.len() ==> v[i] < v[j]
}

/// Two ascending lists with the same numbers are the same.
pub proof fn ascending_lists_are_sets(a: Seq<i64>, b: Seq<i64>)
    requires
        ascending(a),
        ascending(b),
        forall|x: i64| #[trigger] a.contains(x) <==> b.contains(x),
    ensures
        a == b,
    decreases a.len(),
{
    if a.len() == 0 {
        if b.len() > 0 {
            assert(b.contains(b[0]));
            assert(a.contains(b[0]));
        }
        assert(a =~= b);
    } else {
        assert(a.contains(a.last()));
        assert(b.contains(a.last()));
        assert(b.contains(b.last()));
        assert(a.contains(b.last()));
        assert(a.last() == b.last());
        let c = a.drop_last();
        let d = b.drop_last();
        assert forall|x: i64| #[trigger] c.contains(x) <==> d.contains(x) by {
            if c.contains(x) {
                let i = choose|i: int| 0 <= i < c.len() && c[i] == x;
                assert(a[i] == x);
                assert(a.contains(x));
                let j = choose|j: int| 0 <= j < b.len() && b[j] == x;
                assert(j != b.len() - 1);
                assert(d[j] == x);
            }
            if d.contains(x) {
                let i = choose|i: int| 0 <= i < d.len() && d[i] == x;
                assert(b[i] == x);
                assert(b.contains(x));
                assert(a.contains(x));
                let j = choose|j: int| 0 <= j < a.len() && a[j] == x;
                assert(j != a.len() - 1);
                assert(c[j] == x);
            }
        }
        ascending_lists_are_sets(c, d);
        assert(a =~= c.push(a.last()));
        assert(b =~= d.push(b.last()));
    }
}

/// Whether an ascending list holds `x`.
pub fn has_id(v: &Vec<i64>, x: i64) -> (r: bool)
    ensures
        r == v@.contains(x),
{
    let mut i: usize = 0;
    while i < v.len()
        invariant
            i <= v@.len(),
            forall|j: int| 0 <= j < i ==> v@[j] != x,
        decreases v@.len() - i,
    {
        if v[i] == x {
            return true;
        }
        i += 1;
    }
    false
}

/// An ascending list with `x` put into it.
pub open spec fn id_into(v: Seq<i64>, x: i64) -> Seq<i64>
    decreases v.len(),
{
    if v.len() == 0 {
        seq![x]
    } else if x < v[0] {
        seq![x] + v
    } else if x == v[0] {
        v
    } else {
        seq![v[0]] + id_into(v.skip(1), x)
    }
}

pub proof fn lemma_id_into(v: Seq<i64>, x: i64)
    requires
        ascending(v),
    ensures
        ascending(id_into(v, x)),
        forall|y: i64| #[trigger] id_into(v, x).contains(y) <==> v.contains(y) || y == x,
    decreases v.len(),
{
    let w = id_into(v, x);
    if v.len() == 0 {
        assert(w[0] == x);
    } else if x < v[0] {
        assert forall|y: i64| #[trigger] w.contains(y) <==> v.contains(y) || y == x by {
            if v.contains(y) {
                let j = choose|j: int| 0 <= j < v.len() && v[j] == y;
                assert(w[j + 1] == y);
            }
            assert(w[0] == x);
            if w.contains(y) && y != x {
                let j = choose|j: int| 0 <= j < w.len() && w[j] == y;
                assert(v[j - 1] == y);
            }
        }
    } else if x == v[0] {
    } else {
        let t = v.skip(1);
        lemma_id_into(t, x);
        let u = id_into(t, x);
        assert forall|i: int, j: int| 0 <= i < j < w.len() implies w[i] < w[j] by {
            assert(w[j] == u[j - 1]);
            if i == 0 {
                assert(u.contains(u[j - 1]));
                if t.contains(w[j]) {
                    let k = choose|k: int| 0 <= k < t.len() && t[k] == w[j];
                    assert(v[k + 1] == w[j]);
                }
            } else {
                assert(w[i] == u[i - 1]);
            }
        }
        assert forall|y: i64| #[trigger] w.contains(y) <==> v.contains(y) || y == x by {
            assert(u.contains(y) <==> t.contains(y) || y == x);
            assert(w[0] == v[0]);
            if w.contains(y) && y != v[0] {
                let k = choose|k: int| 0 <= k < w.len() && w[k] == y;
                assert(u[k - 1] == y);
            }
            if u.contains(y) {
                let k = choose|k: int| 0 <= k < u.len() && u[k] == y;
                assert(w[k + 1] == y);
            }
            if t.contains(y) {
                let k = choose|k: int| 0 <= k < t.len() && t[k] == y;
                assert(v[k + 1] == y);
            }
            if v.contains(y) && y != v[0] {
                let k = choose|k: int| 0 <= k < v.len() && v[k] == y;
                assert(t[k - 1] == y);
            }
        }
    }
}

/// Puts `x` into an ascending list. Returns whether it was not there.
pub fn insert_id(v: &mut Vec<i64>, x: i64) -> (new: bool)
    requires
        ascending(old(v)@),
    ensures
        ascending(final(v)@),
        forall|y: i64| #[trigger] final(v)@.contains(y) <==> old(v)@.contains(y) || y == x,
        new == !old(v)@.contains(x),
        !new ==> final(v)@ == old(v)@,
        final(v)@ == id_into(old(v)@, x),
{
    let mut i: usize = 0;
    while i < v.len() && v[i] < x
        invariant
            i <= v@.len(),
            v@ == old(v)@,
            forall|j: int| 0 <= j < i ==> v@[j] < x,
        decreases v@.len() - i,
    {
        i += 1;
    }
    if i < v.len() && v[i] == x {
        assert(v@[i as int] == x);
        proof {
            lemma_id_into(v@, x);
            ascending_lists_are_sets(v@, id_into(v@, x));
        }
        return false;
    }
    let ghost before = v@;
    v.insert(i, x);
    proof {
        assert(v@ == before.insert(i as int, x));
        assert(!before.contains(x)) by {
            if before.contains(x) {
                let j = choose|j: int| 0 <= j < before.len() && before[j] == x;
                assert(j > i ==> before[i as int] < before[j]);
            }
        }
        assert forall|y: i64| #[trigger] v@.contains(y) <==> before.contains(y) || y == x by {
            if before.contains(y) {
                let j = choose|j: int| 0 <= j < before.len() && before[j] == y;
                assert(v@[if j < i {
                    j
                } else {
                    j + 1
                }] == y);
            }
            if v@.contains(y) && y != x {
                let j = choose|j: int| 0 <= j < v@.len() && v@[j] == y;
                assert(before[if j < i {
                    j
                } else {
                    j - 1
                }] == y);
            }
            if y == x {
                assert(v@[i as int] == x);
            }
        }
        lemma_id_into(before, x);
        ascending_lists_are_sets(v@, id_into(before, x));
    }
    true
}

/// Whatever stands on a member of `s` is a member of it.
pub open spec fn closed_under(edges: Seq<(i64, i64)>, s: Set<i64>) -> bool {
    forall|i: int| 0 <= i < edges.len() && s.contains((#[trigger] edges[i]).1) ==> s.contains(edges[i].0)
}

/// `x` is one of `seeds` or stands on one of them, directly or not: it is in every set around
/// them that is closed under the edges from what stands to what it stands on.
pub open spec fn stands_on(edges: Seq<(i64, i64)>, seeds: Set<i64>, x: i64) -> bool {
    forall|s: Set<i64>| seeds.subset_of(s) && #[trigger] closed_under(edges, s) ==> s.contains(x)
}

/// How many of the first `n` edges lead from outside `v`.
spec fn outside(edges: Seq<(i64, i64)>, v: Seq<i64>, n: nat) -> nat
    decreases n,
{
    if n == 0 {
        0
    } else {
        outside(edges, v, (n - 1) as nat) + if v.contains(edges[n - 1].0) {
            0nat
        } else {
            1
        }
    }
}

proof fn lemma_outside(edges: Seq<(i64, i64)>, a: Seq<i64>, b: Seq<i64>, i: int, n: nat)
    requires
        n <= edges.len(),
        0 <= i < edges.len(),
        !a.contains(edges[i].0),
        b.contains(edges[i].0),
        forall|x: i64| a.contains(x) ==> #[trigger] b.contains(x),
    ensures
        outside(edges, b, n) <= outside(edges, a, n),
        i < n ==> outside(edges, b, n) < outside(edges, a, n),
    decreases n,
{
    if n > 0 {
        lemma_outside(edges, a, b, i, (n - 1) as nat);
    }
}

/// All that stands on `seeds`, in ascending order.
pub fn close_ids(edges: &Vec<(i64, i64)>, seeds: &Vec<i64>) -> (acc: Vec<i64>)
    ensures
        ascending(acc@),
        forall|x: i64| #[trigger] acc@.contains(x) <==> stands_on(edges@, seeds@.to_set(), x),
{
    let ghost from = seeds@.to_set();
    let mut acc: Vec<i64> = Vec::new();
    let mut k: usize = 0;
    while k < seeds.len()
        invariant
            k <= seeds@.len(),
            ascending(acc@),
            forall|x: i64| #[trigger] acc@.contains(x) <==> seeds@.take(k as int).contains(x),
        decreases seeds@.len() - k,
    {
        let ghost before = acc@;
        let new: bool = insert_id(&mut acc, seeds[k]);
        proof {
            assert(seeds@.take(k + 1) =~= seeds@.take(k as int).push(seeds@[k as int]));
            assert forall|x: i64| #[trigger] acc@.contains(x) <==> seeds@.take(k + 1).contains(x) by {
                assert(acc@.contains(x) <==> before.contains(x) || x == seeds@[k as int]);
                let t = seeds@.take(k as int);
                let u = seeds@.take(k + 1);
                if t.contains(x) {
                    let j = choose|j: int| 0 <= j < t.len() && t[j] == x;
                    assert(u[j] == x);
                }
                if u.contains(x) && x != seeds@[k as int] {
                    let j = choose|j: int| 0 <= j < u.len() && u[j] == x;
                    assert(t[j] == x);
                }
                assert(u[k as int] == seeds@[k as int]);
            }
        }
        k += 1;
    }
    proof {
        assert(seeds@.take(k as int) =~= seeds@);
        assert forall|x: i64| #[trigger] acc@.contains(x) implies stands_on(edges@, from, x) by {
            assert(from.contains(x));
        }
    }
    let mut changed: bool = true;
    while changed
        invariant
            ascending(acc@),
            from == seeds@.to_set(),
            forall|x: i64| from.contains(x) ==> #[trigger] acc@.contains(x),
            forall|x: i64| #[trigger] acc@.contains(x) ==> stands_on(edges@, from, x),
            !changed ==> forall|i: int|
                0 <= i < edges@.len() && acc@.contains((#[trigger] edges@[i]).1) ==> acc@.contains(edges@[i].0),
        decreases outside(edges@, acc@, edges@.len()), if changed {
            1int
        } else {
            0int
        },
    {
        changed = false;
        let ghost was = acc@;
        let mut i: usize = 0;
        while i < edges.len()
            invariant
                i <= edges@.len(),
                ascending(acc@),
                from == seeds@.to_set(),
                forall|x: i64| from.contains(x) ==> #[trigger] acc@.contains(x),
                forall|x: i64| #[trigger] acc@.contains(x) ==> stands_on(edges@, from, x),
                !changed ==> acc@ == was,
                changed ==> outside(edges@, acc@, edges@.len()) < outside(edges@, was, edges@.len()),
                !changed ==> forall|j: int|
                    0 <= j < i && acc@.contains((#[trigger] edges@[j]).1) ==> acc@.contains(edges@[j].0),
            decreases edges@.len() - i,
        {
            let (child, base) = edges[i];
            if has_id(&acc, base) {
                let ghost before = acc@;
                let new: bool = insert_id(&mut acc, child);
                proof {
                    if new {
                        assert(acc@.contains(child));
                        lemma_outside(edges@, before, acc@, i as int, edges@.len());
                        assert(stands_on(edges@, from, child)) by {
                            assert forall|s: Set<i64>|
                                from.subset_of(s) && #[trigger] closed_under(edges@, s) implies s.contains(
                                child,
                            ) by {
                                assert(stands_on(edges@, from, base));
                                assert(s.contains(base));
                                assert(edges@[i as int].1 == base);
                            }
                        }
                    }
                }
                if new {
                    changed = true;
                }
            }
            i += 1;
        }
    }
    proof {
        let s = acc@.to_set();
        assert(closed_under(edges@, s)) by {
            assert forall|i: int| 0 <= i < edges@.len() && s.contains((#[trigger] edges@[i]).1) implies s.contains(
                edges@[i].0,
            ) by {
                assert(acc@.contains(edges@[i].1));
            }
        }
        assert(from.subset_of(s));
        assert forall|x: i64| stands_on(edges@, from, x) implies #[trigger] acc@.contains(x) by {
            assert(s.contains(x));
        }
    }
    acc
}

} // verus!
