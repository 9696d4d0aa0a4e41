//! Association lists: tables keyed by text or by number, in the order of first insertion.
use vstd::prelude::*;
use crate::model::text::same_text;

verus! {

/// The position of the first row with key `k`, or the number of rows.
pub open spec fn row_of<K, V>(s: Seq<(K, V)>, k: K) -> nat
    decreases s.len(),
{
    if s.len() == 0 || s[0].0 == k {
        0
    } else {
        1 + row_of(s.skip(1), k)
    }
}

/// There is a row with key `k`.
pub open spec fn has_key<K, V>(s: Seq<(K, V)>, k: K) -> bool {
    row_of(s, k) < s.len()
}

/// The value of the first row with key `k`.
pub open spec fn get<K, V>(s: Seq<(K, V)>, k: K) -> Option<V> {
    if has_key(s, k) {
        Some(s[row_of(s, k) as int].1)
    } else {
        None
    }
}

/// The table with the value of `k` replaced, or with a new last row.
pub open spec fn put<K, V>(s: Seq<(K, V)>, k: K, v: V) -> Seq<(K, V)> {
    if has_key(s, k) {
        s.update(row_of(s, k) as int, (k, v))
    } else {
        s.push((k, v))
    }
}

/// The table without its first row with key `k`.
pub open spec fn del<K, V>(s: Seq<(K, V)>, k: K) -> Seq<(K, V)> {
    if has_key(s, k) {
        s.remove(row_of(s, k) as int)
    } else {
        s
    }
}

/// No two rows have the same key.
pub open spec fn keyed<K, V>(s: Seq<(K, V)>) -> bool {
    forall|i: int, j: int| 0 <= i < j < s.len() ==> s[i].0 != s[j].0
}

pub proof fn lemma_row_is<K, V>(s: Seq<(K, V)>, k: K, n: nat)
    requires
        n <= s.len(),
        forall|i: int| 0 <= i < n ==> (#[trigger] s[i]).0 != k,
        n == s.len() || s[n as int].0 == k,
    ensures
        row_of(s, k) == n,
    decreases s.len(),
{
    if n > 0 {
        let t = s.skip(1);
        assert(s[0].0 != k);
        assert forall|i: int| 0 <= i < n - 1 implies (#[trigger] t[i]).0 != k by {
            assert(t[i] == s[i + 1]);
        }
        lemma_row_is(t, k, (n - 1) as nat);
    }
}

pub proof fn lemma_row<K, V>(s: Seq<(K, V)>, k: K)
    ensures
        row_of(s, k) <= s.len(),
        forall|i: int| 0 <= i < row_of(s, k) ==> (#[trigger] s[i]).0 != k,
        row_of(s, k) < s.len() ==> s[row_of(s, k) as int].0 == k,
    decreases s.len(),
{
    if s.len() > 0 && s[0].0 != k {
        let t = s.skip(1);
        lemma_row(t, k);
        assert forall|i: int| 0 <= i < row_of(s, k) implies (#[trigger] s[i]).0 != k by {
            if i > 0 {
                assert(t[i - 1] == s[i]);
            }
        }
        if row_of(s, k) < s.len() {
            assert(t[row_of(t, k) as int] == s[row_of(t, k) as int + 1]);
        }
    }
}

/// After `put`, the key has the new value and every other key has the value it had.
pub proof fn get_of_put<K, V>(s: Seq<(K, V)>, k: K, v: V, other: K)
    ensures
        get(put(s, k, v), k) == Some(v),
        other != k ==> get(put(s, k, v), other) == get(s, other),
{
    lemma_row(s, k);
    lemma_row(s, other);
    let t = put(s, k, v);
    lemma_row_is(t, k, row_of(s, k));
    if other != k {
        if row_of(s, other) < s.len() {
            lemma_row_is(t, other, row_of(s, other));
        } else {
            lemma_row_is(t, other, t.len());
        }
    }
}

/// A table whose keys differ keeps that under `put`.
pub proof fn put_keeps_keyed<K, V>(s: Seq<(K, V)>, k: K, v: V)
    requires
        keyed(s),
    ensures
        keyed(put(s, k, v)),
{
    lemma_row(s, k);
}

/// Replacing the value of a key keeps the keys.
pub proof fn lemma_put_existing<K, V>(s: Seq<(K, V)>, k: K, v: V)
    requires
        has_key(s, k),
    ensures
        put(s, k, v).len() == s.len(),
        forall|i: int| 0 <= i < s.len() ==> (#[trigger] put(s, k, v)[i]).0 == s[i].0,
{
    lemma_row(s, k);
}

/// The key of a row is a key.
pub proof fn lemma_row_key<K, V>(s: Seq<(K, V)>, i: int)
    requires
        0 <= i < s.len(),
    ensures
        has_key(s, s[i].0),
{
    lemma_row(s, s[i].0);
}

pub proof fn lemma_keys_fit<V>(a: Seq<i64>, s: Seq<(i64, V)>)
    requires
        a.no_duplicates(),
        forall|i: int| 0 <= i < a.len() ==> has_key(s, #[trigger] a[i]),
    ensures
        a.len() <= s.len(),
{
    let keys = s.map_values(|r: (i64, V)| r.0);
    a.unique_seq_to_set();
    keys.lemma_cardinality_of_set();
    assert(a.to_set().subset_of(keys.to_set())) by {
        assert forall|x: i64| a.to_set().contains(x) implies keys.to_set().contains(x) by {
            let i = choose|i: int| 0 <= i < a.len() && a[i] == x;
            lemma_row(s, a[i]);
            assert(keys[row_of(s, x) as int] == x);
        }
    }
    vstd::set_lib::lemma_len_subset(a.to_set(), keys.to_set());
}

/// The table without the rows whose keys are in `gone`.
pub open spec fn dropped<V>(s: Seq<(i64, V)>, gone: Seq<i64>) -> Seq<(i64, V)>
    decreases s.len(),
{
    if s.len() == 0 {
        Seq::empty()
    } else if gone.contains(s.last().0) {
        dropped(s.drop_last(), gone)
    } else {
        dropped(s.drop_last(), gone).push(s.last())
    }
}

/// A table keyed by text.
pub struct TextMap<V> {
    items: Vec<(String, V)>,
}

impl<V: DeepView> View for TextMap<V> {
    type V = Seq<(Seq<char>, V::V)>;

    closed spec fn view(&self) -> Seq<(Seq<char>, V::V)> {
        Seq::new(self.items@.len(), |i: int| (self.items@[i].0@, self.items@[i].1.deep_view()))
    }
}

impl<V: DeepView> DeepView for TextMap<V> {
    type V = Seq<(Seq<char>, V::V)>;

    open spec fn deep_view(&self) -> Seq<(Seq<char>, V::V)> {
        self@
    }
}

impl<V: DeepView> TextMap<V> {
    pub fn new() -> (m: Self)
        ensures
            m@ == Seq::<(Seq<char>, V::V)>::empty(),
    {
        let m = TextMap { items: Vec::new() };
        assert(m@ =~= Seq::<(Seq<char>, V::V)>::empty());
        m
    }

    pub fn len(&self) -> (n: usize)
        ensures
            n == self@.len(),
    {
        self.items.len()
    }

    /// The key of row `i`.
    pub fn key_at(&self, i: usize) -> (k: &String)
        requires
            i < self@.len(),
        ensures
            k@ == self@[i as int].0,
    {
        &self.items[i].0
    }

    /// The value of row `i`.
    pub fn value_at(&self, i: usize) -> (v: &V)
        requires
            i < self@.len(),
        ensures
            v.deep_view() == self@[i as int].1,
    {
        &self.items[i].1
    }

    fn find(&self, k: &str) -> (i: usize)
        ensures
            i == row_of(self@, k@),
            i <= self@.len(),
    {
        let mut i: usize = 0;
        while i < self.items.len() && !same_text(self.items[i].0.as_str(), k)
            invariant
                i <= self@.len(),
                self@.len() == self.items@.len(),
                forall|j: int| 0 <= j < i ==> (#[trigger] self@[j]).0 != k@,
            decreases self@.len() - i,
        {
            i += 1;
        }
        proof {
            lemma_row_is(self@, k@, i as nat);
        }
        i
    }

    pub fn contains(&self, k: &str) -> (r: bool)
        ensures
            r == has_key(self@, k@),
    {
        self.find(k) < self.items.len()
    }

    pub fn get(&self, k: &str) -> (r: Option<&V>)
        ensures
            match r {
                Some(v) => get(self@, k@) == Some(v.deep_view()),
                None => get(self@, k@) is None,
            },
    {
        let i: usize = self.find(k);
        if i < self.items.len() {
            Some(&self.items[i].1)
        } else {
            None
        }
    }

    pub fn insert(&mut self, k: String, v: V)
        ensures
            final(self)@ == put(old(self)@, k@, v.deep_view()),
    {
        let i: usize = self.find(k.as_str());
        let ghost before = self@;
        let ghost items = self.items@;
        if i < self.items.len() {
            let ghost row = (k, v);
            self.items.set(i, (k, v));
        } else {
            self.items.push((k, v));
        }
        proof {
            assert(self@ =~= put(before, k@, v.deep_view()));
        }
    }

    /// Adds a row at the end.
    pub fn append(&mut self, k: String, v: V)
        ensures
            final(self)@ == old(self)@.push((k@, v.deep_view())),
    {
        let ghost before = self@;
        self.items.push((k, v));
        assert(self@ =~= before.push((k@, v.deep_view())));
    }

    pub fn remove(&mut self, k: &str)
        ensures
            final(self)@ == del(old(self)@, k@),
    {
        let i: usize = self.find(k);
        let ghost before = self@;
        if i < self.items.len() {
            let gone = self.items.remove(i);
        }
        proof {
            assert(self@ =~= del(before, k@));
        }
    }
}

/// A table keyed by number.
pub struct IdMap<V> {
    items: Vec<(i64, V)>,
}

impl<V: DeepView> View for IdMap<V> {
    type V = Seq<(i64, V::V)>;

    closed spec fn view(&self) -> Seq<(i64, V::V)> {
        Seq::new(self.items@.len(), |i: int| (self.items@[i].0, self.items@[i].1.deep_view()))
    }
}

impl<V: DeepView> IdMap<V> {
    pub fn new() -> (m: Self)
        ensures
            m@ == Seq::<(i64, V::V)>::empty(),
    {
        let m = IdMap { items: Vec::new() };
        assert(m@ =~= Seq::<(i64, V::V)>::empty());
        m
    }

    pub fn len(&self) -> (n: usize)
        ensures
            n == self@.len(),
    {
        self.items.len()
    }

    /// The key of row `i`.
    pub fn key_at(&self, i: usize) -> (k: i64)
        requires
            i < self@.len(),
        ensures
            k == self@[i as int].0,
    {
        self.items[i].0
    }

    /// The value of row `i`.
    pub fn value_at(&self, i: usize) -> (v: &V)
        requires
            i < self@.len(),
        ensures
            v.deep_view() == self@[i as int].1,
    {
        &self.items[i].1
    }

    /// Replaces the value of row `i`.
    pub fn set_at(&mut self, i: usize, v: V)
        requires
            i < old(self)@.len(),
        ensures
            final(self)@ == old(self)@.update(i as int, (old(self)@[i as int].0, v.deep_view())),
    {
        let ghost before = self@;
        let k: i64 = self.items[i].0;
        self.items.set(i, (k, v));
        assert(self@ =~= before.update(i as int, (k, v.deep_view())));
    }

    /// Removes row `i`.
    pub fn remove_at(&mut self, i: usize)
        requires
            i < old(self)@.len(),
        ensures
            final(self)@ == old(self)@.remove(i as int),
    {
        let ghost before = self@;
        let _gone = self.items.remove(i);
        assert(self@ =~= before.remove(i as int));
    }

    fn find(&self, k: i64) -> (i: usize)
        ensures
            i == row_of(self@, k),
            i <= self@.len(),
    {
        let mut i: usize = 0;
        while i < self.items.len() && self.items[i].0 != k
            invariant
                i <= self@.len(),
                self@.len() == self.items@.len(),
                forall|j: int| 0 <= j < i ==> (#[trigger] self@[j]).0 != k,
            decreases self@.len() - i,
        {
            i += 1;
        }
        proof {
            lemma_row_is(self@, k, i as nat);
        }
        i
    }

    pub fn contains(&self, k: i64) -> (r: bool)
        ensures
            r == has_key(self@, k),
    {
        self.find(k) < self.items.len()
    }

    pub fn get(&self, k: i64) -> (r: Option<&V>)
        ensures
            match r {
                Some(v) => get(self@, k) == Some(v.deep_view()),
                None => get(self@, k) is None,
            },
    {
        let i: usize = self.find(k);
        if i < self.items.len() {
            Some(&self.items[i].1)
        } else {
            None
        }
    }

    pub fn insert(&mut self, k: i64, v: V)
        ensures
            final(self)@ == put(old(self)@, k, v.deep_view()),
    {
        let i: usize = self.find(k);
        let ghost before = self@;
        if i < self.items.len() {
            self.items.set(i, (k, v));
        } else {
            self.items.push((k, v));
        }
        proof {
            assert(self@ =~= put(before, k, v.deep_view()));
        }
    }

    /// Adds a row at the end.
    pub fn append(&mut self, k: i64, v: V)
        ensures
            final(self)@ == old(self)@.push((k, v.deep_view())),
    {
        let ghost before = self@;
        self.items.push((k, v));
        assert(self@ =~= before.push((k, v.deep_view())));
    }

    pub fn remove(&mut self, k: i64)
        ensures
            final(self)@ == del(old(self)@, k),
    {
        let i: usize = self.find(k);
        let ghost before = self@;
        if i < self.items.len() {
            let gone = self.items.remove(i);
        }
        proof {
            assert(self@ =~= del(before, k));
        }
    }

    /// Removes the rows whose keys are in `gone`.
    pub fn drop_keys(&mut self, gone: &Vec<i64>)
        ensures
            final(self)@ == dropped(old(self)@, gone@),
    {
        let ghost start = self@;
        let ghost mut k: int = 0;
        let mut i: usize = 0;
        proof {
            assert(start.take(0) =~= Seq::empty());
            assert(dropped(start.take(0), gone@) + start.skip(0) =~= start);
        }
        while i < self.items.len()
            invariant
                0 <= k <= start.len(),
                i == dropped(start.take(k), gone@).len(),
                i <= self.items@.len(),
                self@ == dropped(start.take(k), gone@) + start.skip(k),
                self@.len() == self.items@.len(),
                self@.len() - i == start.len() - k,
            decreases self.items@.len() - i,
        {
            let ghost before = self@;
            let ghost items = self.items@;
            proof {
                assert(start.take(k + 1).drop_last() =~= start.take(k));
                assert(start.take(k + 1).last() == start[k]);
                assert(before[i as int] == start[k]);
            }
            if contains_id(gone, self.items[i].0) {
                let out = self.items.remove(i);
                proof {
                    assert(self@ =~= before.remove(i as int));
                    assert(self@ =~= dropped(start.take(k + 1), gone@) + start.skip(k + 1));
                }
            } else {
                i += 1;
                proof {
                    assert(self@ =~= dropped(start.take(k + 1), gone@) + start.skip(k + 1));
                }
            }
            proof {
                k = k + 1;
            }
        }
        proof {
            assert(start.take(k) =~= start);
            assert(self@ =~= dropped(start, gone@));
        }
    }
}

/// Whether a number is in a list.
pub fn contains_id(v: &Vec<i64>, id: i64) -> (r: bool)
    ensures
        r == v@.contains(id),
{
    let mut i: usize = 0;
    while i < v.len()
        invariant
            i <= v@.len(),
            forall|j: int| 0 <= j < i ==> v@[j] != id,
        decreases v@.len() - i,
    {
        if v[i] == id {
            assert(v@[i as int] == id);
            return true;
        }
        i += 1;
    }
    false
}

/// The list from its end to its start.
pub fn reversed(v: &Vec<i64>) -> (r: Vec<i64>)
    ensures
        r@ == v@.reverse(),
{
    let mut r: Vec<i64> = Vec::new();
    let mut i: usize = v.len();
    while i > 0
        invariant
            i <= v@.len(),
            r@ == v@.reverse().take(v@.len() - i),
        decreases i,
    {
        i -= 1;
        r.push(v[i]);
        assert(r@ =~= v@.reverse().take(v@.len() - i));
    }
    assert(r@ =~= v@.reverse());
    r
}

} // verus!
