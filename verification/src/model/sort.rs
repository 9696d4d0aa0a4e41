//! Lexicographic order of byte sequences and stable sorting by it.
use vstd::prelude::*;
use vstd::utf8::encode_utf8;
use crate::model::text::texts;

verus! {

/// `a` comes before `b` in lexicographic order.
pub open spec fn bytes_less(a: Seq<u8>, b: Seq<u8>) -> bool
    decreases a.len(),
{
    if b.len() == 0 {
        false
    } else if a.len() == 0 {
        true
    } else if a[0] != b[0] {
        a[0] < b[0]
    } else {
        bytes_less(a.skip(1), b.skip(1))
    }
}

/// Of two different sequences exactly one comes first.
pub proof fn order_is_total(a: Seq<u8>, b: Seq<u8>)
    ensures
        !(bytes_less(a, b) && bytes_less(b, a)),
        bytes_less(a, b) || bytes_less(b, a) <==> a != b,
    decreases a.len(),
{
    if a.len() > 0 && b.len() > 0 && a[0] == b[0] {
        order_is_total(a.skip(1), b.skip(1));
        if a.skip(1) == b.skip(1) {
            assert(a =~= seq![a[0]] + a.skip(1));
            assert(b =~= seq![b[0]] + b.skip(1));
        }
    } else if a.len() == 0 && b.len() == 0 {
        assert(a =~= b);
    }
}

/// The order is transitive.
pub proof fn order_is_transitive(a: Seq<u8>, b: Seq<u8>, c: Seq<u8>)
    requires
        bytes_less(a, b),
        bytes_less(b, c),
    ensures
        bytes_less(a, c),
    decreases a.len(),
{
    if a.len() > 0 && b.len() > 0 && c.len() > 0 && a[0] == b[0] && b[0] == c[0] {
        order_is_transitive(a.skip(1), b.skip(1), c.skip(1));
    }
}

/// Heads of one length decide, and the tails where the heads are equal.
pub proof fn lemma_less_concat(a: Seq<u8>, b: Seq<u8>, c: Seq<u8>, d: Seq<u8>)
    requires
        a.len() == b.len(),
    ensures
        bytes_less(a + c, b + d) <==> bytes_less(a, b) || (a == b && bytes_less(c, d)),
    decreases a.len(),
{
    if a.len() == 0 {
        assert(a + c =~= c);
        assert(b + d =~= d);
        assert(a =~= b);
    } else {
        lemma_less_concat(a.skip(1), b.skip(1), c, d);
        assert((a + c).skip(1) =~= a.skip(1) + c);
        assert((b + d).skip(1) =~= b.skip(1) + d);
        assert(a =~= seq![a[0]] + a.skip(1));
        assert(b =~= seq![b[0]] + b.skip(1));
        if a[0] == b[0] && a.skip(1) == b.skip(1) {
            assert(a == b);
        }
        if a == b {
            order_is_total(a, b);
        }
    }
}

/// Whether `a` comes before `b`.
pub fn less(a: &[u8], b: &[u8]) -> (r: bool)
    ensures
        r == bytes_less(a@, b@),
{
    let mut i: usize = 0;
    assert(a@.skip(0) =~= a@);
    assert(b@.skip(0) =~= b@);
    while i < a.len() && i < b.len() && a[i] == b[i]
        invariant
            i <= a@.len(),
            i <= b@.len(),
            bytes_less(a@, b@) == bytes_less(a@.skip(i as int), b@.skip(i as int)),
        decreases a@.len() - i,
    {
        assert(a@.skip(i as int).skip(1) =~= a@.skip(i + 1));
        assert(b@.skip(i as int).skip(1) =~= b@.skip(i + 1));
        i += 1;
    }
    if i >= b.len() {
        false
    } else if i >= a.len() {
        true
    } else {
        a[i] < b[i]
    }
}

/// `o` with `x` put behind every number whose key does not come after the key of `x`.
pub open spec fn placed(o: Seq<int>, keys: Seq<Seq<u8>>, x: int) -> Seq<int>
    decreases o.len(),
{
    if o.len() == 0 {
        seq![x]
    } else if !bytes_less(keys[x], keys[o.last()]) {
        o.push(x)
    } else {
        placed(o.drop_last(), keys, x).push(o.last())
    }
}

/// The first `n` numbers in the order of their keys; equal keys keep their order.
pub open spec fn order(keys: Seq<Seq<u8>>, n: nat) -> Seq<int>
    decreases n,
{
    if n == 0 {
        Seq::empty()
    } else {
        placed(order(keys, (n - 1) as nat), keys, n - 1)
    }
}

/// `o` lists the numbers below `n`, each once, by key and then by number.
pub open spec fn is_order(o: Seq<int>, keys: Seq<Seq<u8>>, n: nat) -> bool {
    &&& o.len() == n
    &&& forall|i: int| 0 <= i < n ==> 0 <= #[trigger] o[i] < n
    &&& forall|i: int, j: int|
        0 <= i < j < n ==> bytes_less(keys[#[trigger] o[i]], keys[#[trigger] o[j]]) || (keys[o[i]]
            == keys[o[j]] && o[i] < o[j])
}

proof fn lemma_placed(o: Seq<int>, keys: Seq<Seq<u8>>, x: int)
    requires
        forall|i: int| 0 <= i < o.len() ==> 0 <= #[trigger] o[i] < x,
        forall|i: int, j: int|
            0 <= i < j < o.len() ==> bytes_less(keys[#[trigger] o[i]], keys[#[trigger] o[j]]) || (keys[o[i]]
                == keys[o[j]] && o[i] < o[j]),
    ensures
        placed(o, keys, x).len() == o.len() + 1,
        forall|i: int| 0 <= i <= o.len() ==> (#[trigger] placed(o, keys, x)[i] == x || (exists|k: int|
            0 <= k < o.len() && placed(o, keys, x)[i] == o[k])),
        forall|i: int, j: int|
            0 <= i < j <= o.len() ==> bytes_less(
                keys[#[trigger] placed(o, keys, x)[i]],
                keys[#[trigger] placed(o, keys, x)[j]],
            ) || (keys[placed(o, keys, x)[i]] == keys[placed(o, keys, x)[j]] && placed(o, keys, x)[i]
                < placed(o, keys, x)[j]),
    decreases o.len(),
{
    let p = placed(o, keys, x);
    if o.len() == 0 {
    } else if !bytes_less(keys[x], keys[o.last()]) {
        assert forall|i: int, j: int| 0 <= i < j <= o.len() implies bytes_less(
            keys[#[trigger] p[i]],
            keys[#[trigger] p[j]],
        ) || (keys[p[i]] == keys[p[j]] && p[i] < p[j]) by {
            if j == o.len() {
                order_is_total(keys[x], keys[o.last()]);
                if i < o.len() - 1 {
                    assert(bytes_less(keys[o[i]], keys[o[o.len() - 1]]) || keys[o[i]] == keys[o[o.len()
                        - 1]]);
                    if bytes_less(keys[o[i]], keys[o.last()]) && bytes_less(keys[o.last()], keys[x]) {
                        order_is_transitive(keys[o[i]], keys[o.last()], keys[x]);
                    }
                }
                assert(0 <= o[i] < x);
            } else {
                assert(p[i] == o[i] && p[j] == o[j]);
            }
        }
        assert forall|i: int| 0 <= i <= o.len() implies (#[trigger] p[i] == x || (exists|k: int|
            0 <= k < o.len() && p[i] == o[k])) by {
            if i < o.len() {
                assert(p[i] == o[i]);
            }
        }
    } else {
        let t = o.drop_last();
        assert forall|i: int, j: int| 0 <= i < j < t.len() implies bytes_less(
            keys[#[trigger] t[i]],
            keys[#[trigger] t[j]],
        ) || (keys[t[i]] == keys[t[j]] && t[i] < t[j]) by {
            assert(t[i] == o[i] && t[j] == o[j]);
        }
        assert forall|i: int| 0 <= i < t.len() implies 0 <= #[trigger] t[i] < x by {
            assert(t[i] == o[i]);
        }
        lemma_placed(t, keys, x);
        let q = placed(t, keys, x);
        assert(p =~= q.push(o.last()));
        assert forall|i: int, j: int| 0 <= i < j <= o.len() implies bytes_less(
            keys[#[trigger] p[i]],
            keys[#[trigger] p[j]],
        ) || (keys[p[i]] == keys[p[j]] && p[i] < p[j]) by {
            if j < o.len() {
                assert(p[i] == q[i] && p[j] == q[j]);
            } else {
                assert(p[i] == q[i]);
                if q[i] != x {
                    let k = choose|k: int| 0 <= k < t.len() && q[i] == t[k];
                    assert(t[k] == o[k]);
                    assert(o[o.len() - 1] == p[j]);
                }
            }
        }
        assert forall|i: int| 0 <= i <= o.len() implies (#[trigger] p[i] == x || (exists|k: int|
            0 <= k < o.len() && p[i] == o[k])) by {
            if i < o.len() {
                assert(p[i] == q[i]);
                if q[i] != x {
                    let k = choose|k: int| 0 <= k < t.len() && q[i] == t[k];
                    assert(t[k] == o[k]);
                }
            } else {
                assert(p[i] == o[o.len() - 1]);
            }
        }
    }
}

/// Sorting lists every number once, in the order of the keys, and keeps equal keys in order.
pub proof fn order_is_sorted(keys: Seq<Seq<u8>>, n: nat)
    ensures
        is_order(order(keys, n), keys, n),
    decreases n,
{
    if n > 0 {
        order_is_sorted(keys, (n - 1) as nat);
        let o = order(keys, (n - 1) as nat);
        lemma_placed(o, keys, n - 1);
        let p = order(keys, n);
        assert forall|i: int| 0 <= i < n implies 0 <= #[trigger] p[i] < n by {
            if p[i] != n - 1 {
                let k = choose|k: int| 0 <= k < o.len() && p[i] == o[k];
                assert(0 <= o[k] < n - 1);
            }
        }
    }
}

/// The numbers of a list of positions.
pub open spec fn ints(v: Seq<usize>) -> Seq<int> {
    v.map_values(|i: usize| i as int)
}

/// The keys that 20-byte ids are sorted by.
pub open spec fn id_keys(ids: Seq<[u8; 20]>) -> Seq<Seq<u8>> {
    ids.map_values(|id: [u8; 20]| id@)
}

/// The keys that texts are sorted by.
pub open spec fn text_keys(v: Seq<String>) -> Seq<Seq<u8>> {
    v.map_values(|s: String| encode_utf8(s@))
}

proof fn lemma_insert(o: Seq<int>, keys: Seq<Seq<u8>>, x: int, p: int)
    requires
        0 <= p <= o.len(),
        forall|i: int| p <= i < o.len() ==> bytes_less(keys[x], keys[#[trigger] o[i]]),
        p > 0 ==> !bytes_less(keys[x], keys[o[p - 1]]),
    ensures
        placed(o, keys, x) == o.insert(p, x),
    decreases o.len(),
{
    if o.len() == 0 {
        assert(o.insert(p, x) =~= seq![x]);
    } else if p == o.len() {
        assert(o.insert(p, x) =~= o.push(x));
    } else {
        assert(bytes_less(keys[x], keys[o[o.len() - 1]]));
        let t = o.drop_last();
        assert forall|i: int| p <= i < t.len() implies bytes_less(keys[x], keys[#[trigger] t[i]]) by {
            assert(t[i] == o[i]);
        }
        lemma_insert(t, keys, x, p);
        assert(o.insert(p, x) =~= t.insert(p, x).push(o.last()));
    }
}

/// The positions of the ids in the order of the ids.
pub fn order_ids(ids: &Vec<[u8; 20]>) -> (o: Vec<usize>)
    ensures
        ints(o@) == order(id_keys(ids@), ids@.len()),
        is_order(ints(o@), id_keys(ids@), ids@.len()),
{
    let ghost keys = id_keys(ids@);
    let mut o: Vec<usize> = Vec::new();
    let mut n: usize = 0;
    assert(ints(o@) =~= order(keys, 0));
    while n < ids.len()
        invariant
            n <= ids@.len(),
            keys == id_keys(ids@),
            ints(o@) == order(keys, n as nat),
            o@.len() == n,
            forall|i: int| 0 <= i < n ==> (#[trigger] o@[i]) < n,
        decreases ids@.len() - n,
    {
        let mut p: usize = n;
        while p > 0 && less(ids[n].as_slice(), ids[o[p - 1]].as_slice())
            invariant
                p <= n,
                n < ids@.len(),
                keys == id_keys(ids@),
                o@.len() == n,
                forall|i: int| 0 <= i < n ==> (#[trigger] o@[i]) < n,
                forall|i: int| p <= i < n ==> bytes_less(keys[n as int], keys[#[trigger] ints(o@)[i]]),
            decreases p,
        {
            p -= 1;
        }
        let ghost before = o@;
        proof {
            lemma_insert(ints(o@), keys, n as int, p as int);
        }
        o.insert(p, n);
        proof {
            assert(ints(o@) =~= ints(before).insert(p as int, n as int));
            order_is_sorted(keys, (n + 1) as nat);
            assert forall|i: int| 0 <= i < n + 1 implies (#[trigger] o@[i]) < n + 1 by {
                assert(ints(o@)[i] == o@[i] as int);
            }
        }
        n += 1;
    }
    proof {
        order_is_sorted(keys, ids@.len());
    }
    o
}

/// The positions of the texts in the order of their UTF-8 bytes.
pub fn order_texts(v: &Vec<String>) -> (o: Vec<usize>)
    ensures
        ints(o@) == order(text_keys(v@), v@.len()),
        is_order(ints(o@), text_keys(v@), v@.len()),
{
    let ghost keys = text_keys(v@);
    let mut o: Vec<usize> = Vec::new();
    let mut n: usize = 0;
    assert(ints(o@) =~= order(keys, 0));
    while n < v.len()
        invariant
            n <= v@.len(),
            keys == text_keys(v@),
            ints(o@) == order(keys, n as nat),
            o@.len() == n,
            forall|i: int| 0 <= i < n ==> (#[trigger] o@[i]) < n,
        decreases v@.len() - n,
    {
        let mut p: usize = n;
        while p > 0 && less(v[n].as_str().as_bytes(), v[o[p - 1]].as_str().as_bytes())
            invariant
                p <= n,
                n < v@.len(),
                keys == text_keys(v@),
                o@.len() == n,
                forall|i: int| 0 <= i < n ==> (#[trigger] o@[i]) < n,
                forall|i: int| p <= i < n ==> bytes_less(keys[n as int], keys[#[trigger] ints(o@)[i]]),
            decreases p,
        {
            p -= 1;
        }
        let ghost before = o@;
        proof {
            lemma_insert(ints(o@), keys, n as int, p as int);
        }
        o.insert(p, n);
        proof {
            assert(ints(o@) =~= ints(before).insert(p as int, n as int));
            order_is_sorted(keys, (n + 1) as nat);
            assert forall|i: int| 0 <= i < n + 1 implies (#[trigger] o@[i]) < n + 1 by {
                assert(ints(o@)[i] == o@[i] as int);
            }
        }
        n += 1;
    }
    proof {
        order_is_sorted(keys, v@.len());
    }
    o
}

/// The keys that texts are sorted by.
pub open spec fn char_keys(v: Seq<Seq<char>>) -> Seq<Seq<u8>> {
    v.map_values(|s: Seq<char>| encode_utf8(s))
}

/// The texts in the order of their UTF-8 bytes.
pub open spec fn sorted_texts(v: Seq<Seq<char>>) -> Seq<Seq<char>> {
    order(char_keys(v), v.len()).map_values(|i: int| v[i])
}

/// Sorts texts by their UTF-8 bytes.
pub fn sort_texts(v: &Vec<String>) -> (r: Vec<String>)
    ensures
        texts(r@) == sorted_texts(texts(v@)),
        r@.len() == v@.len(),
        forall|i: int| 0 <= i < r@.len() ==> texts(v@).contains(#[trigger] texts(r@)[i]),
        forall|i: int, j: int|
            0 <= i < j < r@.len() ==> !bytes_less(
                encode_utf8(#[trigger] texts(r@)[j]),
                encode_utf8(#[trigger] texts(r@)[i]),
            ),
        forall|x: Seq<char>| #[trigger] texts(r@).contains(x) <==> texts(v@).contains(x),
        texts(v@).no_duplicates() ==> texts(r@).no_duplicates(),
{
    let ghost t = texts(v@);
    let ghost keys = char_keys(t);
    assert(text_keys(v@) =~= keys);
    let o = order_texts(v);
    let ghost n = v@.len();
    let mut r: Vec<String> = Vec::new();
    let mut i: usize = 0;
    while i < o.len()
        invariant
            i <= o@.len(),
            o@.len() == v@.len(),
            t == texts(v@),
            is_order(ints(o@), keys, v@.len()),
            r@.len() == i,
            forall|k: int| 0 <= k < i ==> (#[trigger] r@[k])@ == t[o@[k] as int],
        decreases o@.len() - i,
    {
        assert(ints(o@)[i as int] == o@[i as int]);
        r.push(v[o[i]].clone());
        i += 1;
    }
    proof {
        let p = ints(o@);
        let out = texts(r@);
        assert forall|k: int| 0 <= k < n implies #[trigger] out[k] == t[p[k]] by {
            assert(r@[k]@ == t[o@[k] as int]);
        }
        assert(out =~= sorted_texts(t));
        assert forall|k: int| 0 <= k < n implies t.contains(#[trigger] out[k]) by {
            assert(0 <= p[k] < n);
        }
        assert forall|a: int, b: int| 0 <= a < b < n implies !bytes_less(
            encode_utf8(#[trigger] out[b]),
            encode_utf8(#[trigger] out[a]),
        ) by {
            order_is_total(keys[p[a]], keys[p[b]]);
            assert(keys[p[a]] == encode_utf8(out[a]));
            assert(keys[p[b]] == encode_utf8(out[b]));
        }
        lemma_order_covers(p, keys, n);
        assert forall|x: Seq<char>| #[trigger] out.contains(x) <==> t.contains(x) by {
            if t.contains(x) {
                let k = choose|k: int| 0 <= k < t.len() && t[k] == x;
                assert(p.contains(k));
                let m = choose|m: int| 0 <= m < p.len() && p[m] == k;
                assert(out[m] == x);
            }
            if out.contains(x) {
                let k = choose|k: int| 0 <= k < out.len() && out[k] == x;
                assert(t.contains(out[k]));
            }
        }
        if t.no_duplicates() {
            assert forall|a: int, b: int| 0 <= a < n && 0 <= b < n && a != b implies out[a] != out[b] by {
                assert(0 <= p[a] < n && 0 <= p[b] < n);
                order_is_total(keys[p[a]], keys[p[b]]);
                if a < b {
                    assert(p[a] != p[b]);
                } else {
                    assert(p[b] != p[a]);
                }
            }
        }
    }
    r
}

proof fn lemma_order_covers(o: Seq<int>, keys: Seq<Seq<u8>>, n: nat)
    requires
        is_order(o, keys, n),
    ensures
        forall|k: int| 0 <= k < n ==> #[trigger] o.contains(k),
{
    assert(o.no_duplicates()) by {
        assert forall|i: int, j: int| 0 <= i < n && 0 <= j < n && i != j implies o[i] != o[j] by {
            if i < j {
                order_is_total(keys[o[i]], keys[o[j]]);
            } else {
                order_is_total(keys[o[j]], keys[o[i]]);
            }
        }
    }
    let all = Seq::new(n, |i: int| i);
    let s = o.to_set();
    let full = all.to_set();
    o.unique_seq_to_set();
    assert(all.no_duplicates());
    all.unique_seq_to_set();
    assert(s.subset_of(full)) by {
        assert forall|x: int| s.contains(x) implies full.contains(x) by {
            let k = choose|k: int| 0 <= k < o.len() && o[k] == x;
            assert(all[x] == x);
        }
    }
    assert forall|k: int| 0 <= k < n implies #[trigger] o.contains(k) by {
        if !s.contains(k) {
            vstd::set_lib::lemma_len_subset(s, full.remove(k));
            assert(all[k] == k);
            assert(full.contains(k));
        }
    }
}

} // verus!
