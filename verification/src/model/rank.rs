//! Sorting by a rank of four numbers.
use vstd::prelude::*;
use vstd::relations::{sorted_by, total_ordering};
use vstd::seq_lib::{group_to_multiset_ensures, lemma_sorted_unique, to_multiset_build, to_multiset_insert};

verus! {

/// `a` does not come after `b`: the first number in which they differ decides.
pub open spec fn rank_leq(a: (i64, i64, i64, i64), b: (i64, i64, i64, i64)) -> bool {
    if a.0 != b.0 {
        a.0 < b.0
    } else if a.1 != b.1 {
        a.1 < b.1
    } else if a.2 != b.2 {
        a.2 < b.2
    } else {
        a.3 <= b.3
    }
}

/// The order of ranks.
pub open spec fn by_rank() -> spec_fn((i64, i64, i64, i64), (i64, i64, i64, i64)) -> bool {
    |a: (i64, i64, i64, i64), b: (i64, i64, i64, i64)| rank_leq(a, b)
}

/// The ranks from the lowest to the highest.
pub open spec fn ranked(s: Seq<(i64, i64, i64, i64)>) -> Seq<(i64, i64, i64, i64)> {
    s.sort_by(by_rank())
}

proof fn lemma_ranks_ordered()
    ensures
        total_ordering(by_rank()),
{
}

/// What is in order and holds the same ranks is what sorting gives.
pub proof fn lemma_ranked_is(s: Seq<(i64, i64, i64, i64)>, o: Seq<(i64, i64, i64, i64)>)
    requires
        sorted_by(o, by_rank()),
        o.to_multiset() == s.to_multiset(),
    ensures
        ranked(s) == o,
{
    lemma_ranks_ordered();
    s.lemma_sort_by_ensures(by_rank());
    lemma_sorted_unique(ranked(s), o, by_rank());
}

/// Sorting does not depend on the order in which the ranks are given.
pub proof fn ranking_ignores_the_order_given(s: Seq<(i64, i64, i64, i64)>, t: Seq<(i64, i64, i64, i64)>)
    requires
        s.to_multiset() == t.to_multiset(),
    ensures
        ranked(s) == ranked(t),
{
    lemma_ranks_ordered();
    t.lemma_sort_by_ensures(by_rank());
    lemma_ranked_is(s, ranked(t));
}

/// Sorting keeps the number of ranks, and every rank.
pub proof fn lemma_ranked_members(s: Seq<(i64, i64, i64, i64)>, x: (i64, i64, i64, i64))
    ensures
        ranked(s).len() == s.len(),
        ranked(s).contains(x) <==> s.contains(x),
{
    broadcast use group_to_multiset_ensures;

    lemma_ranks_ordered();
    s.lemma_sort_by_ensures(by_rank());
    assert(s.to_multiset().len() == s.len());
    assert(ranked(s).to_multiset().len() == ranked(s).len());
    assert(s.contains(x) <==> s.to_multiset().count(x) > 0);
    assert(ranked(s).contains(x) <==> ranked(s).to_multiset().count(x) > 0);
}

/// Sorting brings the ranks into order.
pub proof fn lemma_ranked_sorted(s: Seq<(i64, i64, i64, i64)>, i: int, j: int)
    requires
        0 <= i < j < ranked(s).len(),
    ensures
        rank_leq(ranked(s)[i], ranked(s)[j]),
{
    lemma_ranks_ordered();
    s.lemma_sort_by_ensures(by_rank());
    assert(by_rank()(ranked(s)[i], ranked(s)[j]));
}

fn leq(a: &(i64, i64, i64, i64), b: &(i64, i64, i64, i64)) -> (r: bool)
    ensures
        r == rank_leq(*a, *b),
{
    if a.0 != b.0 {
        a.0 < b.0
    } else if a.1 != b.1 {
        a.1 < b.1
    } else if a.2 != b.2 {
        a.2 < b.2
    } else {
        a.3 <= b.3
    }
}

/// Sorts the ranks.
pub fn rank(v: &Vec<(i64, i64, i64, i64)>) -> (o: Vec<(i64, i64, i64, i64)>)
    ensures
        o@ == ranked(v@),
{
    let mut o: Vec<(i64, i64, i64, i64)> = Vec::new();
    let mut n: usize = 0;
    assert(v@.take(0) =~= o@);
    while n < v.len()
        invariant
            n <= v@.len(),
            o@.len() == n,
            sorted_by(o@, by_rank()),
            o@.to_multiset() == v@.take(n as int).to_multiset(),
        decreases v@.len() - n,
    {
        let x: (i64, i64, i64, i64) = v[n];
        let mut p: usize = n;
        while p > 0 && !leq(&o[p - 1], &x)
            invariant
                p <= n,
                o@.len() == n,
                sorted_by(o@, by_rank()),
                forall|i: int| p <= i < n ==> rank_leq(x, #[trigger] o@[i]),
            decreases p,
        {
            p -= 1;
        }
        let ghost before = o@;
        o.insert(p, x);
        proof {
            assert(v@.take(n + 1) =~= v@.take(n as int).push(x));
            assert(o@ =~= before.insert(p as int, x));
            to_multiset_insert(before, p as int, x);
            to_multiset_build(v@.take(n as int), x);
            assert forall|i: int, j: int| 0 <= i < j < o@.len() implies by_rank()(
                #[trigger] o@[i],
                #[trigger] o@[j],
            ) by {
                if i < p {
                    assert(o@[i] == before[i]);
                    if p > 0 {
                        assert(rank_leq(before[p - 1], x));
                        assert(i < p - 1 ==> by_rank()(before[i], before[p - 1]));
                    }
                }
                if j < p {
                    assert(o@[j] == before[j]);
                    assert(by_rank()(before[i], before[j]));
                } else if j > p {
                    assert(o@[j] == before[j - 1]);
                    if i < p {
                        assert(i < j - 1 ==> by_rank()(before[i], before[j - 1]));
                    } else if i > p {
                        assert(o@[i] == before[i - 1]);
                        assert(by_rank()(before[i - 1], before[j - 1]));
                    }
                }
            }
        }
        n += 1;
    }
    proof {
        assert(v@.take(n as int) =~= v@);
        lemma_ranked_is(v@, o@);
    }
    o
}

} // verus!
