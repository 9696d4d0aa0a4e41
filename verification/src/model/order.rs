//! Stable sorting of records by an order of their models.
use vstd::prelude::*;

verus! {

/// Records with an order.
pub trait Ordered: View + Sized {
    /// A record comes before another.
    spec fn before(a: Self::V, b: Self::V) -> bool;

    /// Whether this record comes before another.
    fn is_before(&self, other: &Self) -> (r: bool)
        ensures
            r == Self::before(self@, other@),
    ;
}

/// The models of a list of records.
pub open spec fn views<T: View>(v: Seq<T>) -> Seq<T::V> {
    v.map_values(|x: T| x@)
}

/// A list with one more record, behind the last one that it does not come before.
pub open spec fn inserted<T: Ordered>(v: Seq<T::V>, x: T::V) -> Seq<T::V>
    decreases v.len(),
{
    if v.len() == 0 || !T::before(x, v.last()) {
        v.push(x)
    } else {
        inserted::<T>(v.drop_last(), x).push(v.last())
    }
}

/// Inserts a record into a list.
pub fn insert_ordered<T: Ordered>(v: &mut Vec<T>, x: T)
    ensures
        views(final(v)@) == inserted::<T>(views(old(v)@), x@),
{
    let ghost start = views(v@);
    let ghost pre = v@;
    let mut p: usize = v.len();
    proof {
        assert(start.take(p as int) =~= start);
        assert(inserted::<T>(start, x@) + start.skip(p as int) =~= inserted::<T>(start, x@));
    }
    while p > 0 && x.is_before(&v[p - 1])
        invariant
            p <= v@.len(),
            pre == v@,
            start == views(v@),
            inserted::<T>(start, x@) == inserted::<T>(start.take(p as int), x@) + start.skip(p as int),
        decreases p,
    {
        proof {
            let t = start.take(p as int);
            assert(t.last() == v@[p - 1]@);
            assert(t.drop_last() =~= start.take(p - 1));
            assert(inserted::<T>(t, x@) + start.skip(p as int) =~= inserted::<T>(start.take(p - 1), x@)
                + start.skip(p - 1));
        }
        p -= 1;
    }
    proof {
        let t = start.take(p as int);
        if p > 0 {
            assert(t.last() == v@[p - 1]@);
        }
        assert(inserted::<T>(t, x@) =~= t.push(x@));
    }
    v.insert(p, x);
    assert(views(v@) =~= start.take(p as int).push(x@) + start.skip(p as int));
}

/// Inserting a record keeps the others.
pub proof fn inserting_keeps_records<T: Ordered>(v: Seq<T::V>, x: T::V)
    ensures
        inserted::<T>(v, x).to_multiset() == v.to_multiset().insert(x),
        inserted::<T>(v, x).len() == v.len() + 1,
    decreases v.len(),
{
    if v.len() == 0 || !T::before(x, v.last()) {
        vstd::seq_lib::to_multiset_build(v, x);
    } else {
        let t = v.drop_last();
        inserting_keeps_records::<T>(t, x);
        vstd::seq_lib::to_multiset_build(inserted::<T>(t, x), v.last());
        vstd::seq_lib::to_multiset_build(t, v.last());
        assert(t.push(v.last()) =~= v);
        assert(t.to_multiset().insert(x).insert(v.last()) =~= t.to_multiset().insert(v.last()).insert(x));
    }
}

/// A list with one more record holds that record and what it held.
pub proof fn lemma_inserted_holds<T: Ordered>(v: Seq<T::V>, x: T::V, y: T::V)
    ensures
        inserted::<T>(v, x).contains(y) <==> v.contains(y) || y == x,
        inserted::<T>(v, x).len() == v.len() + 1,
    decreases v.len(),
{
    let w = inserted::<T>(v, x);
    if v.len() == 0 || !T::before(x, v.last()) {
        if v.contains(y) {
            let i = choose|i: int| 0 <= i < v.len() && v[i] == y;
            assert(w[i] == y);
        }
        assert(w[v.len() as int] == x);
    } else {
        let t = v.drop_last();
        lemma_inserted_holds::<T>(t, x, y);
        let u = inserted::<T>(t, x);
        assert(w[u.len() as int] == v.last());
        if u.contains(y) {
            let i = choose|i: int| 0 <= i < u.len() && u[i] == y;
            assert(w[i] == y);
        }
        if t.contains(y) {
            let i = choose|i: int| 0 <= i < t.len() && t[i] == y;
            assert(v[i] == y);
        }
        if w.contains(y) {
            let i = choose|i: int| 0 <= i < w.len() && w[i] == y;
            if i < u.len() {
                assert(u[i] == y);
            } else {
                assert(v[v.len() - 1] == y);
            }
        }
        if v.contains(y) {
            let i = choose|i: int| 0 <= i < v.len() && v[i] == y;
            if i < t.len() {
                assert(t[i] == y);
            }
        }
    }
}

/// An order in which two records that do not precede each other stand at one place.
pub open spec fn is_weak_order<T: Ordered>() -> bool {
    &&& forall|a: T::V, b: T::V| #[trigger] T::before(a, b) ==> !T::before(b, a)
    &&& forall|a: T::V, b: T::V, c: T::V|
        !(#[trigger] T::before(b, a)) && !(#[trigger] T::before(c, b)) ==> !T::before(c, a)
}

/// No record stands behind one that it comes before.
pub open spec fn in_order<T: Ordered>(v: Seq<T::V>) -> bool {
    forall|i: int, j: int| 0 <= i < j < v.len() ==> !T::before(#[trigger] v[j], #[trigger] v[i])
}

/// A list in order stays so.
pub proof fn lemma_inserted_in_order<T: Ordered>(v: Seq<T::V>, x: T::V)
    requires
        is_weak_order::<T>(),
        in_order::<T>(v),
    ensures
        in_order::<T>(inserted::<T>(v, x)),
    decreases v.len(),
{
    let w = inserted::<T>(v, x);
    if v.len() == 0 || !T::before(x, v.last()) {
        assert forall|i: int, j: int| 0 <= i < j < w.len() implies !T::before(#[trigger] w[j], #[trigger] w[i]) by {
            if j == v.len() && i < v.len() - 1 {
                assert(!T::before(v[v.len() - 1], v[i]));
                assert(!T::before(x, v.last()));
            }
        }
    } else {
        let t = v.drop_last();
        lemma_inserted_in_order::<T>(t, x);
        let u = inserted::<T>(t, x);
        assert forall|i: int, j: int| 0 <= i < j < w.len() implies !T::before(#[trigger] w[j], #[trigger] w[i]) by {
            if j < u.len() {
                assert(!T::before(u[j], u[i]));
            } else {
                assert(u.contains(u[i]));
                lemma_inserted_holds::<T>(t, x, u[i]);
                if u[i] != x {
                    let k = choose|k: int| 0 <= k < t.len() && t[k] == u[i];
                    assert(!T::before(v[v.len() - 1], v[k]));
                } else {
                    assert(T::before(x, v.last()));
                }
            }
        }
    }
}

} // verus!
