//! Which nodes offer an object, which node depends on which, and the order of preference.
use vstd::prelude::*;
use vstd::utf8::encode_utf8;
use crate::analyze::graph::text_opt;
use crate::kernel::engine::rows::{Engine, EngineModel, Names, Oids};
use crate::model::assoc::{get, has_key, TextMap};
use crate::model::bytes::same_bytes;
use crate::model::outside::hex_encode;
use crate::model::sort::{bytes_less, less, order_is_total, order_is_transitive};
use crate::model::text::{hex, push_part, same_text, texts};

verus! {

/// Whether a text is in a list.
pub fn contains_text_in(v: &Vec<String>, t: &str) -> (r: bool)
    ensures
        r == texts(v@).contains(t@),
{
    let mut i: usize = 0;
    while i < v.len()
        invariant
            i <= v@.len(),
            forall|j: int| 0 <= j < i ==> texts(v@)[j] != t@,
        decreases v@.len() - i,
    {
        if same_text(v[i].as_str(), t) {
            assert(texts(v@)[i as int] == t@);
            return true;
        }
        i += 1;
    }
    false
}

/// Whether an object id is in a list.
pub fn contains_oid(v: &Oids, oid: &[u8; 20]) -> (r: bool)
    ensures
        r == v.deep_view().contains(oid@),
{
    let mut i: usize = 0;
    while i < v.list.len()
        invariant
            i <= v.list@.len(),
            forall|j: int| 0 <= j < i ==> v.deep_view()[j] != oid@,
        decreases v.list@.len() - i,
    {
        if same_bytes(v.list[i].as_slice(), oid.as_slice()) {
            assert(v.deep_view()[i as int] == oid@);
            return true;
        }
        i += 1;
    }
    false
}

/// A set that holds every node with a base in it. The nodes of `stops` pass nothing on.
pub open spec fn closed_under(edges: Seq<(Seq<char>, Seq<Seq<char>>)>, stops: Set<Seq<char>>, s: Set<Seq<char>>) -> bool {
    forall|i: int, j: int|
        0 <= i < edges.len() && 0 <= j < edges[i].1.len() && s.contains(#[trigger] edges[i].1[j])
            && !stops.contains(edges[i].1[j]) ==> s.contains(edges[i].0)
}

/// The nodes that depend on `seeds`, themselves included: what is in every such set around them.
pub open spec fn dependents(
    edges: Seq<(Seq<char>, Seq<Seq<char>>)>,
    seeds: Set<Seq<char>>,
    stops: Set<Seq<char>>,
) -> Set<Seq<char>> {
    Set::new(
        |x: Seq<char>|
            forall|s: Set<Seq<char>>|
                seeds.subset_of(s) && #[trigger] closed_under(edges, stops, s) ==> s.contains(x),
    )
}

/// Whether a base of an edge row passes its dependents on.
fn row_is_reached(bases: &Names, acc: &Vec<String>, stops: &Vec<String>) -> (r: bool)
    ensures
        r == exists|j: int|
            0 <= j < bases.deep_view().len() && texts(acc@).contains(#[trigger] bases.deep_view()[j])
                && !texts(stops@).contains(bases.deep_view()[j]),
{
    let mut j: usize = 0;
    while j < bases.list.len()
        invariant
            j <= bases.list@.len(),
            forall|k: int|
                0 <= k < j ==> !(texts(acc@).contains(#[trigger] bases.deep_view()[k]) && !texts(
                    stops@,
                ).contains(bases.deep_view()[k])),
        decreases bases.list@.len() - j,
    {
        let b = bases.list[j].as_str();
        assert(bases.deep_view()[j as int] == b@);
        if contains_text_in(acc, b) && !contains_text_in(stops, b) {
            return true;
        }
        j += 1;
    }
    false
}

/// The nodes that depend on `seeds`.
pub fn close_over(edges: &TextMap<Names>, seeds: &Vec<String>, stops: &Vec<String>) -> (acc: Vec<String>)
    ensures
        texts(acc@).to_set() == dependents(edges@, texts(seeds@).to_set(), texts(stops@).to_set()),
        texts(acc@).no_duplicates(),
{
    let ghost e = edges@;
    let ghost from = texts(seeds@).to_set();
    let ghost stop = texts(stops@).to_set();
    let mut acc: Vec<String> = Vec::new();
    let mut k: usize = 0;
    while k < seeds.len()
        invariant
            k <= seeds@.len(),
            texts(acc@).no_duplicates(),
            forall|x: Seq<char>| #[trigger] texts(acc@).contains(x) <==> texts(seeds@).take(k as int).contains(x),
        decreases seeds@.len() - k,
    {
        let ghost a = texts(acc@);
        let ghost now = texts(seeds@).take(k as int);
        let ghost next = texts(seeds@).take(k + 1);
        let ghost name = seeds@[k as int]@;
        proof {
            assert(next =~= now.push(name));
        }
        if !contains_text_in(&acc, seeds[k].as_str()) {
            push_part(&mut acc, seeds[k].clone());
            assert(texts(acc@) == a.push(name));
        }
        proof {
            lemma_contains_push(now, name);
            lemma_contains_push(a, name);
        }
        k += 1;
    }
    proof {
        assert(texts(seeds@).take(k as int) =~= texts(seeds@));
        assert(texts(acc@).to_set() =~= from) by {
            assert forall|x: Seq<char>| texts(acc@).to_set().contains(x) == from.contains(x) by {
                assert(texts(acc@).contains(x) <==> texts(seeds@).contains(x));
            }
        }
    }
    // A pass can add a node only for a row that was not yet counted, so the passes end.
    let mut marked: Vec<bool> = Vec::new();
    let mut m: usize = 0;
    while m < edges.len()
        invariant
            m == marked@.len(),
            m <= edges@.len(),
            forall|i: int| 0 <= i < m ==> !(#[trigger] marked@[i]),
        decreases edges@.len() - m,
    {
        marked.push(false);
        m += 1;
    }
    let mut left: usize = edges.len();
    proof {
        lemma_all_unmarked(marked@);
    }
    loop
        invariant
            e == edges@,
            from == texts(seeds@).to_set(),
            stop == texts(stops@).to_set(),
            marked@.len() == e.len(),
            left == unmarked(marked@),
            texts(acc@).no_duplicates(),
            from.subset_of(texts(acc@).to_set()),
            forall|s: Set<Seq<char>>|
                from.subset_of(s) && #[trigger] closed_under(e, stop, s) ==> texts(acc@).to_set().subset_of(s),
            forall|i: int| 0 <= i < e.len() && #[trigger] marked@[i] ==> texts(acc@).contains(e[i].0),
        ensures
            closed_under(e, stop, texts(acc@).to_set()),
        decreases left,
    {
        let mut grown: bool = false;
        let mut i: usize = 0;
        let ghost before = left;
        while i < edges.len()
            invariant
                e == edges@,
                from == texts(seeds@).to_set(),
                stop == texts(stops@).to_set(),
                i <= e.len(),
                marked@.len() == e.len(),
                left == unmarked(marked@),
                left <= before,
                grown ==> left < before,
                texts(acc@).no_duplicates(),
                from.subset_of(texts(acc@).to_set()),
                forall|s: Set<Seq<char>>|
                    from.subset_of(s) && #[trigger] closed_under(e, stop, s) ==> texts(acc@).to_set().subset_of(
                        s,
                    ),
                forall|n: int| 0 <= n < e.len() && #[trigger] marked@[n] ==> texts(acc@).contains(e[n].0),
                !grown ==> forall|n: int, j: int|
                    0 <= n < i && 0 <= j < e[n].1.len() && texts(acc@).contains(#[trigger] e[n].1[j])
                        && !texts(stops@).contains(e[n].1[j]) ==> texts(acc@).contains(e[n].0),
            decreases e.len() - i,
        {
            if !marked[i] && row_is_reached(edges.value_at(i), &acc, stops) {
                let name = edges.key_at(i).clone();
                let ghost a = texts(acc@);
                proof {
                    let j = choose|j: int|
                        0 <= j < e[i as int].1.len() && a.contains(#[trigger] e[i as int].1[j]) && !texts(
                            stops@,
                        ).contains(e[i as int].1[j]);
                    assert forall|s: Set<Seq<char>>|
                        from.subset_of(s) && #[trigger] closed_under(e, stop, s) implies a.push(
                        name@,
                    ).to_set().subset_of(s) by {
                        assert(a.to_set().contains(e[i as int].1[j]));
                        assert(s.contains(e[i as int].1[j]));
                        assert(s.contains(name@));
                        assert forall|x: Seq<char>| a.push(name@).to_set().contains(x) implies s.contains(x) by {
                            if x != name@ {
                                let n = choose|n: int| 0 <= n < a.push(name@).len() && a.push(name@)[n] == x;
                                assert(a[n] == x);
                                assert(a.to_set().contains(x));
                            }
                        }
                    }
                    lemma_marking(marked@, i as int);
                }
                let known: bool = contains_text_in(&acc, name.as_str());
                if !known {
                    push_part(&mut acc, name);
                }
                marked.set(i, true);
                left -= 1;
                grown = true;
                proof {
                    let b = texts(acc@);
                    lemma_contains_push(a, name@);
                    assert(b == a || b == a.push(name@));
                    assert(b.contains(name@));
                    assert forall|x: Seq<char>| a.contains(x) implies b.contains(x) by {}
                    assert forall|x: Seq<char>| from.contains(x) implies b.to_set().contains(x) by {
                        assert(a.to_set().contains(x));
                    }
                }
            }
            i += 1;
        }
        if !grown {
            proof {
                let a = texts(acc@).to_set();
                assert forall|n: int, j: int|
                    0 <= n < e.len() && 0 <= j < e[n].1.len() && a.contains(#[trigger] e[n].1[j])
                        && !stop.contains(e[n].1[j]) implies a.contains(e[n].0) by {
                    assert(texts(acc@).contains(e[n].1[j]));
                }
            }
            break;
        }
    }
    proof {
        let a = texts(acc@).to_set();
        let d = dependents(e, from, stop);
        assert forall|x: Seq<char>| a.contains(x) == d.contains(x) by {
            if d.contains(x) {
                assert(from.subset_of(a) && closed_under(e, stop, a));
            }
        }
        assert(a =~= d);
    }
    acc
}

/// What is in a list with one more text.
pub proof fn lemma_contains_push(a: Seq<Seq<char>>, name: Seq<char>)
    ensures
        forall|x: Seq<char>| #[trigger] a.push(name).contains(x) <==> a.contains(x) || x == name,
        a.no_duplicates() && !a.contains(name) ==> a.push(name).no_duplicates(),
{
    let b = a.push(name);
    assert forall|x: Seq<char>| #[trigger] b.contains(x) <==> a.contains(x) || x == name by {
        if a.contains(x) {
            let n = choose|n: int| 0 <= n < a.len() && a[n] == x;
            assert(b[n] == x);
        }
        if x == name {
            assert(b[a.len() as int] == x);
        }
        if b.contains(x) && x != name {
            let n = choose|n: int| 0 <= n < b.len() && b[n] == x;
            assert(a[n] == x);
        }
    }
}

/// The number of rows that are not marked.
spec fn unmarked(v: Seq<bool>) -> nat
    decreases v.len(),
{
    if v.len() == 0 {
        0
    } else {
        unmarked(v.drop_last()) + if v.last() {
            0nat
        } else {
            1nat
        }
    }
}

proof fn lemma_all_unmarked(v: Seq<bool>)
    requires
        forall|i: int| 0 <= i < v.len() ==> !(#[trigger] v[i]),
    ensures
        unmarked(v) == v.len(),
    decreases v.len(),
{
    if v.len() > 0 {
        lemma_all_unmarked(v.drop_last());
    }
}

proof fn lemma_marking(v: Seq<bool>, i: int)
    requires
        0 <= i < v.len(),
        !v[i],
    ensures
        unmarked(v.update(i, true)) + 1 == unmarked(v),
    decreases v.len(),
{
    if i == v.len() - 1 {
        assert(v.update(i, true).drop_last() =~= v.drop_last());
    } else {
        lemma_marking(v.drop_last(), i);
        assert(v.update(i, true).drop_last() =~= v.drop_last().update(i, true));
    }
}

/// The node that an object is pinned to, by a pin of its own or by the active branch.
pub open spec fn pin_of(e: EngineModel, oid: Seq<char>) -> Option<Seq<char>> {
    match get(e.pins, oid) {
        Some(n) => Some(n),
        None => match e.active_branch {
            Some(b) => match get(e.branches, b) {
                Some(m) => get(m, oid),
                None => None,
            },
            None => None,
        },
    }
}

/// A node that offers an object, and how that is known.
pub ghost struct OfferModel {
    pub node: Seq<char>,
    pub origin: Seq<char>,
}

/// A node that offers an object, and how that is known.
pub struct Offer {
    pub node: String,
    pub origin: &'static str,
}

impl View for Offer {
    type V = OfferModel;

    open spec fn view(&self) -> OfferModel {
        OfferModel { node: self.node@, origin: self.origin@ }
    }
}

/// The models of offers.
pub open spec fn offer_models(v: Seq<Offer>) -> Seq<OfferModel> {
    v.map_values(|o: Offer| o@)
}

/// An offset comes before another; none comes first.
pub open spec fn offset_less(a: Option<u64>, b: Option<u64>) -> bool {
    match (a, b) {
        (None, Some(_)) => true,
        (Some(x), Some(y)) => x < y,
        _ => false,
    }
}

/// Node `a` is preferred to node `b`: a pinned node first, then by source name, offset and id.
/// The order in which the sources came does not matter.
pub open spec fn preferred(e: EngineModel, pin: Option<Seq<char>>, a: Seq<char>, b: Seq<char>) -> bool {
    let na = get(e.nodes, a)->0;
    let nb = get(e.nodes, b)->0;
    let sa = encode_utf8(na.source_name);
    let sb = encode_utf8(nb.source_name);
    if (pin == Some(a)) != (pin == Some(b)) {
        pin == Some(a)
    } else if sa != sb {
        bytes_less(sa, sb)
    } else if na.offset != nb.offset {
        offset_less(na.offset, nb.offset)
    } else {
        bytes_less(encode_utf8(na.id), encode_utf8(nb.id))
    }
}

/// The offers with one more, in order.
pub open spec fn with_offer(e: EngineModel, pin: Option<Seq<char>>, v: Seq<OfferModel>, o: OfferModel) -> Seq<OfferModel>
    decreases v.len(),
{
    if v.len() == 0 || !preferred(e, pin, o.node, v.last().node) {
        v.push(o)
    } else {
        with_offer(e, pin, v.drop_last(), o).push(v.last())
    }
}

/// A node is among the offers.
pub open spec fn offered(v: Seq<OfferModel>, node: Seq<char>) -> bool {
    exists|i: int| 0 <= i < v.len() && (#[trigger] v[i]).node == node
}

/// The offers of the first `n` claims.
pub open spec fn claimed_offers(e: EngineModel, pin: Option<Seq<char>>, oid: Seq<u8>, n: nat) -> Seq<OfferModel>
    decreases n,
{
    if n == 0 {
        Seq::empty()
    } else {
        let v = claimed_offers(e, pin, oid, (n - 1) as nat);
        let row = e.claimed[n - 1];
        if row.1.oid == oid && has_key(e.nodes, row.0) {
            with_offer(e, pin, v, OfferModel { node: row.0, origin: "index"@ })
        } else {
            v
        }
    }
}

/// The offers of all claims and of the first `n` rows of recomputed ids.
pub open spec fn found_offers(e: EngineModel, pin: Option<Seq<char>>, oid: Seq<u8>, n: nat) -> Seq<OfferModel>
    decreases n,
{
    if n == 0 {
        claimed_offers(e, pin, oid, e.claimed.len())
    } else {
        let v = found_offers(e, pin, oid, (n - 1) as nat);
        let row = e.found[n - 1];
        if row.1.contains(oid) && has_key(e.nodes, row.0) && !offered(v, row.0) {
            with_offer(e, pin, v, OfferModel { node: row.0, origin: "computed"@ })
        } else {
            v
        }
    }
}

/// The nodes that offer an object, the preferred one first.
pub open spec fn offers(e: EngineModel, oid: Seq<u8>) -> Seq<OfferModel> {
    found_offers(e, pin_of(e, hex(oid)), oid, e.found.len())
}

fn less_offset(a: Option<u64>, b: Option<u64>) -> (r: bool)
    ensures
        r == offset_less(a, b),
{
    match (a, b) {
        (None, Some(_)) => true,
        (Some(x), Some(y)) => x < y,
        _ => false,
    }
}

fn is_pin(pin: &Option<String>, node: &str) -> (r: bool)
    ensures
        r == (text_opt(*pin) == Some(node@)),
{
    match pin {
        Some(p) => same_text(p.as_str(), node),
        None => false,
    }
}

impl Engine {
    pub fn active_pin(&self, oid: &str) -> (r: Option<String>)
        ensures
            text_opt(r) == pin_of(self@, oid@),
    {
        match self.pins.get(oid) {
            Some(n) => Some(n.clone()),
            None => match &self.active_branch {
                Some(b) => match self.branches.get(b.as_str()) {
                    Some(m) => match m.get(oid) {
                        Some(n) => Some(n.clone()),
                        None => None,
                    },
                    None => None,
                },
                None => None,
            },
        }
    }

    fn prefers(&self, pin: &Option<String>, a: &str, b: &str) -> (r: bool)
        requires
            has_key(self@.nodes, a@),
            has_key(self@.nodes, b@),
        ensures
            r == preferred(self@, text_opt(*pin), a@, b@),
    {
        let pa: bool = is_pin(pin, a);
        if pa != is_pin(pin, b) {
            return pa;
        }
        match (self.nodes.get(a), self.nodes.get(b)) {
            (Some(na), Some(nb)) => {
                let sa = na.source_name.as_str().as_bytes();
                let sb = nb.source_name.as_str().as_bytes();
                if !same_bytes(sa, sb) {
                    less(sa, sb)
                } else if na.offset != nb.offset {
                    less_offset(na.offset, nb.offset)
                } else {
                    less(na.id.as_str().as_bytes(), nb.id.as_str().as_bytes())
                }
            },
            _ => false,
        }
    }

    fn place(&self, pin: &Option<String>, v: &mut Vec<Offer>, o: Offer)
        requires
            has_key(self@.nodes, o@.node),
            forall|i: int| 0 <= i < old(v)@.len() ==> has_key(self@.nodes, (#[trigger] old(v)@[i]).node@),
        ensures
            offer_models(final(v)@) == with_offer(self@, text_opt(*pin), offer_models(old(v)@), o@),
            forall|i: int| 0 <= i < final(v)@.len() ==> has_key(self@.nodes, (#[trigger] final(v)@[i]).node@),
    {
        let ghost start = offer_models(v@);
        let ghost pre = v@;
        let mut p: usize = v.len();
        proof {
            assert(start.take(p as int) =~= start);
            assert(start.skip(p as int) =~= Seq::empty());
            let w = with_offer(self@, text_opt(*pin), start, o@);
            assert(w + start.skip(p as int) =~= w);
        }
        while p > 0 && self.prefers(pin, o.node.as_str(), v[p - 1].node.as_str())
            invariant
                p <= v@.len(),
                pre == v@,
                start == offer_models(v@),
                has_key(self@.nodes, o@.node),
                forall|i: int| 0 <= i < v@.len() ==> has_key(self@.nodes, (#[trigger] v@[i]).node@),
                with_offer(self@, text_opt(*pin), start, o@) == with_offer(
                    self@,
                    text_opt(*pin),
                    start.take(p as int),
                    o@,
                ) + start.skip(p as int),
            decreases p,
        {
            proof {
                let t = start.take(p as int);
                assert(t.last() == v@[p - 1]@);
                assert(t.drop_last() =~= start.take(p - 1));
                assert(with_offer(self@, text_opt(*pin), t, o@) + start.skip(p as int) =~= with_offer(
                    self@,
                    text_opt(*pin),
                    start.take(p - 1),
                    o@,
                ) + start.skip(p - 1));
            }
            p -= 1;
        }
        proof {
            let t = start.take(p as int);
            if p > 0 {
                assert(t.last() == v@[p - 1]@);
            }
            assert(with_offer(self@, text_opt(*pin), t, o@) =~= t.push(o@));
        }
        v.insert(p, o);
        proof {
            assert(v@ == pre.insert(p as int, o));
            assert(offer_models(v@) =~= start.take(p as int).push(o@) + start.skip(p as int));
            assert forall|i: int| 0 <= i < v@.len() implies has_key(self@.nodes, (#[trigger] v@[i]).node@) by {
                if i < p {
                    assert(v@[i] == pre[i]);
                } else if i > p {
                    assert(v@[i] == pre[i - 1]);
                }
            }
        }
    }

    /// The nodes that offer an object, the preferred one first.
    pub fn gather_candidates(&self, oid: &[u8; 20]) -> (v: Vec<Offer>)
        ensures
            offer_models(v@) == offers(self@, oid@),
            forall|i: int| 0 <= i < v@.len() ==> has_key(self@.nodes, (#[trigger] v@[i]).node@),
    {
        let pin = self.active_pin(hex_encode(oid.as_slice()).as_str());
        let mut v: Vec<Offer> = Vec::new();
        assert(offer_models(v@) =~= Seq::empty());
        let mut n: usize = 0;
        while n < self.claimed.len()
            invariant
                n <= self@.claimed.len(),
                offer_models(v@) == claimed_offers(self@, text_opt(pin), oid@, n as nat),
                forall|i: int| 0 <= i < v@.len() ==> has_key(self@.nodes, (#[trigger] v@[i]).node@),
            decreases self@.claimed.len() - n,
        {
            let name = self.claimed.key_at(n);
            if same_bytes(self.claimed.value_at(n).oid.as_slice(), oid.as_slice()) && self.nodes.contains(
                name.as_str(),
            ) {
                self.place(&pin, &mut v, Offer { node: name.clone(), origin: "index" });
            }
            n += 1;
        }
        n = 0;
        while n < self.found.len()
            invariant
                n <= self@.found.len(),
                offer_models(v@) == found_offers(self@, text_opt(pin), oid@, n as nat),
                forall|i: int| 0 <= i < v@.len() ==> has_key(self@.nodes, (#[trigger] v@[i]).node@),
            decreases self@.found.len() - n,
        {
            let name = self.found.key_at(n);
            if contains_oid(self.found.value_at(n), oid) && self.nodes.contains(name.as_str()) && !is_offered(
                &v,
                name.as_str(),
            ) {
                self.place(&pin, &mut v, Offer { node: name.clone(), origin: "computed" });
            }
            n += 1;
        }
        v
    }
}

fn is_offered(v: &Vec<Offer>, node: &str) -> (r: bool)
    ensures
        r == offered(offer_models(v@), node@),
{
    let ghost m = offer_models(v@);
    let mut i: usize = 0;
    while i < v.len()
        invariant
            i <= v@.len(),
            m == offer_models(v@),
            forall|j: int| 0 <= j < i ==> (#[trigger] m[j]).node != node@,
        decreases v@.len() - i,
    {
        assert(m[i as int] == v@[i as int]@);
        if same_text(v[i].node.as_str(), node) {
            return true;
        }
        i += 1;
    }
    false
}

/// Preference is a strict order: it has no cycles, and what is not preferred to a middle node
/// is not preferred to what that node is not preferred to.
proof fn lemma_preferred(e: EngineModel, pin: Option<Seq<char>>, a: Seq<char>, b: Seq<char>, c: Seq<char>)
    ensures
        !(preferred(e, pin, a, b) && preferred(e, pin, b, a)),
        !preferred(e, pin, a, b) && !preferred(e, pin, b, c) ==> !preferred(e, pin, a, c),
{
    let na = get(e.nodes, a)->0;
    let nb = get(e.nodes, b)->0;
    let nc = get(e.nodes, c)->0;
    let (sa, sb, sc) = (
        encode_utf8(na.source_name),
        encode_utf8(nb.source_name),
        encode_utf8(nc.source_name),
    );
    let (ia, ib, ic) = (encode_utf8(na.id), encode_utf8(nb.id), encode_utf8(nc.id));
    order_is_total(sa, sb);
    order_is_total(sb, sc);
    order_is_total(sa, sc);
    order_is_total(ia, ib);
    order_is_total(ib, ic);
    order_is_total(ia, ic);
    if bytes_less(sc, sb) && bytes_less(sb, sa) {
        order_is_transitive(sc, sb, sa);
    }
    if bytes_less(ic, ib) && bytes_less(ib, ia) {
        order_is_transitive(ic, ib, ia);
    }
}

/// Nothing is preferred to what stands before it.
pub open spec fn in_order(e: EngineModel, pin: Option<Seq<char>>, v: Seq<OfferModel>) -> bool {
    forall|i: int, j: int|
        0 <= i < j < v.len() ==> !preferred(e, pin, (#[trigger] v[j]).node, (#[trigger] v[i]).node)
}

proof fn lemma_with_offer(e: EngineModel, pin: Option<Seq<char>>, v: Seq<OfferModel>, o: OfferModel)
    requires
        in_order(e, pin, v),
    ensures
        in_order(e, pin, with_offer(e, pin, v, o)),
        forall|n: Seq<char>| #[trigger]
            offered(with_offer(e, pin, v, o), n) <==> n == o.node || offered(v, n),
        with_offer(e, pin, v, o).len() == v.len() + 1,
        forall|i: int|
            0 <= i < with_offer(e, pin, v, o).len() ==> (#[trigger] with_offer(e, pin, v, o)[i] == o
                || exists|k: int| 0 <= k < v.len() && v[k] == with_offer(e, pin, v, o)[i]),
    decreases v.len(),
{
    let w = with_offer(e, pin, v, o);
    if v.len() == 0 || !preferred(e, pin, o.node, v.last().node) {
        assert forall|i: int, j: int| 0 <= i < j < w.len() implies !preferred(
            e,
            pin,
            (#[trigger] w[j]).node,
            (#[trigger] w[i]).node,
        ) by {
            if j == v.len() {
                if i < v.len() - 1 {
                    assert(!preferred(e, pin, v[v.len() - 1].node, v[i].node));
                    lemma_preferred(e, pin, o.node, v.last().node, v[i].node);
                }
            } else {
                assert(w[j] == v[j] && w[i] == v[i]);
            }
        }
        assert forall|n: Seq<char>| #[trigger] offered(w, n) <==> n == o.node || offered(v, n) by {
            if n == o.node {
                assert(w[v.len() as int].node == n);
            } else if offered(v, n) {
                let k = choose|k: int| 0 <= k < v.len() && (#[trigger] v[k]).node == n;
                assert(w[k].node == n);
            } else if offered(w, n) {
                let k = choose|k: int| 0 <= k < w.len() && (#[trigger] w[k]).node == n;
                assert(v[k].node == n);
            }
        }
        assert forall|i: int| 0 <= i < w.len() implies (#[trigger] w[i] == o || exists|k: int|
            0 <= k < v.len() && v[k] == w[i]) by {
            if i < v.len() {
                assert(v[i] == w[i]);
            }
        }
    } else {
        let t = v.drop_last();
        let x = v.last();
        assert(in_order(e, pin, t)) by {
            assert forall|i: int, j: int| 0 <= i < j < t.len() implies !preferred(
                e,
                pin,
                (#[trigger] t[j]).node,
                (#[trigger] t[i]).node,
            ) by {
                assert(t[j] == v[j] && t[i] == v[i]);
            }
        }
        lemma_with_offer(e, pin, t, o);
        let u = with_offer(e, pin, t, o);
        assert(w == u.push(x));
        assert forall|i: int, j: int| 0 <= i < j < w.len() implies !preferred(
            e,
            pin,
            (#[trigger] w[j]).node,
            (#[trigger] w[i]).node,
        ) by {
            if j == u.len() {
                assert(w[i] == u[i]);
                if u[i] == o {
                    lemma_preferred(e, pin, o.node, x.node, x.node);
                } else {
                    let k = choose|k: int| 0 <= k < t.len() && t[k] == u[i];
                    assert(v[k] == w[i] && v[v.len() - 1] == x);
                }
            } else {
                assert(w[j] == u[j] && w[i] == u[i]);
            }
        }
        assert forall|n: Seq<char>| #[trigger] offered(w, n) <==> n == o.node || offered(v, n) by {
            if offered(w, n) {
                let k = choose|k: int| 0 <= k < w.len() && (#[trigger] w[k]).node == n;
                if k < u.len() {
                    assert(u[k].node == n);
                    assert(offered(u, n));
                    if n != o.node {
                        let m = choose|m: int| 0 <= m < t.len() && (#[trigger] t[m]).node == n;
                        assert(v[m].node == n);
                    }
                } else {
                    assert(v[v.len() - 1].node == n);
                }
            }
            if n == o.node || offered(v, n) {
                if offered(v, n) {
                    let k = choose|k: int| 0 <= k < v.len() && (#[trigger] v[k]).node == n;
                    if k < t.len() {
                        assert(t[k].node == n);
                    } else {
                        assert(w[u.len() as int].node == n);
                    }
                }
                if n == o.node || offered(t, n) {
                    assert(offered(u, n));
                    let m = choose|m: int| 0 <= m < u.len() && (#[trigger] u[m]).node == n;
                    assert(w[m].node == n);
                }
            }
        }
        assert forall|i: int| 0 <= i < w.len() implies (#[trigger] w[i] == o || exists|k: int|
            0 <= k < v.len() && v[k] == w[i]) by {
            if i < u.len() {
                assert(w[i] == u[i]);
                if u[i] != o {
                    let k = choose|k: int| 0 <= k < t.len() && t[k] == u[i];
                    assert(v[k] == w[i]);
                }
            } else {
                assert(v[v.len() - 1] == w[i]);
            }
        }
    }
}

/// A node offers an object by one of the first claims.
pub open spec fn claims(e: EngineModel, node: Seq<char>, oid: Seq<u8>, n: int) -> bool {
    exists|i: int| 0 <= i < n && (#[trigger] e.claimed[i]).0 == node && e.claimed[i].1.oid == oid
}

/// A node was found to be an object, by one of the first rows.
pub open spec fn finds(e: EngineModel, node: Seq<char>, oid: Seq<u8>, n: int) -> bool {
    exists|i: int| 0 <= i < n && (#[trigger] e.found[i]).0 == node && e.found[i].1.contains(oid)
}

proof fn lemma_claimed(e: EngineModel, pin: Option<Seq<char>>, oid: Seq<u8>, n: nat)
    requires
        n <= e.claimed.len(),
    ensures
        in_order(e, pin, claimed_offers(e, pin, oid, n)),
        forall|x: Seq<char>| #[trigger]
            offered(claimed_offers(e, pin, oid, n), x) <==> has_key(e.nodes, x) && claims(e, x, oid, n as int),
    decreases n,
{
    if n > 0 {
        lemma_claimed(e, pin, oid, (n - 1) as nat);
        let v = claimed_offers(e, pin, oid, (n - 1) as nat);
        let row = e.claimed[n - 1];
        let o = OfferModel { node: row.0, origin: "index"@ };
        lemma_with_offer(e, pin, v, o);
        assert forall|x: Seq<char>| #[trigger]
            offered(claimed_offers(e, pin, oid, n), x) <==> has_key(e.nodes, x) && claims(e, x, oid, n as int) by {
            assert(claims(e, x, oid, n as int) <==> claims(e, x, oid, n - 1) || (row.0 == x && row.1.oid == oid));
        }
    }
}

proof fn lemma_found(e: EngineModel, pin: Option<Seq<char>>, oid: Seq<u8>, n: nat)
    requires
        n <= e.found.len(),
    ensures
        in_order(e, pin, found_offers(e, pin, oid, n)),
        forall|x: Seq<char>| #[trigger]
            offered(found_offers(e, pin, oid, n), x) <==> has_key(e.nodes, x) && (claims(
                e,
                x,
                oid,
                e.claimed.len() as int,
            ) || finds(e, x, oid, n as int)),
    decreases n,
{
    if n == 0 {
        lemma_claimed(e, pin, oid, e.claimed.len());
    } else {
        lemma_found(e, pin, oid, (n - 1) as nat);
        let v = found_offers(e, pin, oid, (n - 1) as nat);
        let row = e.found[n - 1];
        let o = OfferModel { node: row.0, origin: "computed"@ };
        lemma_with_offer(e, pin, v, o);
        assert forall|x: Seq<char>| #[trigger]
            offered(found_offers(e, pin, oid, n), x) <==> has_key(e.nodes, x) && (claims(
                e,
                x,
                oid,
                e.claimed.len() as int,
            ) || finds(e, x, oid, n as int)) by {
            assert(finds(e, x, oid, n as int) <==> finds(e, x, oid, n - 1) || (row.0 == x && row.1.contains(
                oid,
            )));
        }
    }
}

/// The nodes that offer an object are those that claim it and those that were found to be it,
/// and they come in the order of preference, which no order of import enters: nothing is
/// preferred to what stands before it.
pub proof fn offers_come_in_order(e: EngineModel, oid: Seq<u8>)
    ensures
        in_order(e, pin_of(e, hex(oid)), offers(e, oid)),
        forall|x: Seq<char>| #[trigger]
            offered(offers(e, oid), x) <==> has_key(e.nodes, x) && (claims(e, x, oid, e.claimed.len() as int)
                || finds(e, x, oid, e.found.len() as int)),
{
    lemma_found(e, pin_of(e, hex(oid)), oid, e.found.len());
}

/// The node that the user pinned to an object, if it claims the object or was found to be it, is
/// the first that is offered. A pin of its own counts before a pin of the active branch.
pub proof fn a_pinned_node_is_offered_first(e: EngineModel, oid: Seq<u8>, p: Seq<char>)
    requires
        get(e.pins, hex(oid)) == Some(p) || (get(e.pins, hex(oid)) is None && e.active_branch is Some
            && get(e.branches, e.active_branch->0) is Some && get(get(e.branches, e.active_branch->0)->0, hex(oid))
            == Some(p)),
        has_key(e.nodes, p),
        (exists|i: int| 0 <= i < e.claimed.len() && (#[trigger] e.claimed[i]).0 == p && e.claimed[i].1.oid == oid)
            || (exists|i: int|
            0 <= i < e.found.len() && (#[trigger] e.found[i]).0 == p && e.found[i].1.contains(oid)),
    ensures
        offers(e, oid).len() > 0,
        offers(e, oid)[0].node == p,
{
    let v = offers(e, oid);
    let pin = pin_of(e, hex(oid));
    offers_come_in_order(e, oid);
    assert(claims(e, p, oid, e.claimed.len() as int) || finds(e, p, oid, e.found.len() as int));
    assert(offered(v, p));
    let i = choose|i: int| 0 <= i < v.len() && (#[trigger] v[i]).node == p;
    if v[0].node != p {
        assert(0 < i);
        assert(!preferred(e, pin, v[i].node, v[0].node));
    }
}

/// Among nodes that are not pinned the one whose source has the lesser name is offered first,
/// under one name the one with the lesser offset, none before any, and at one offset the one with
/// the lesser id.
pub proof fn offers_are_ranked_by_name_offset_and_id(e: EngineModel, oid: Seq<u8>, i: int, j: int)
    requires
        0 <= i < j < offers(e, oid).len(),
        get(e.pins, hex(oid)) is None,
        e.active_branch is None,
    ensures
        ({
            let a = get(e.nodes, offers(e, oid)[i].node)->0;
            let b = get(e.nodes, offers(e, oid)[j].node)->0;
            let sa = encode_utf8(a.source_name);
            let sb = encode_utf8(b.source_name);
            &&& sa == sb || bytes_less(sa, sb)
            &&& sa == sb ==> (a.offset is None || (b.offset matches Some(y) && a.offset->0 <= y))
            &&& sa == sb && a.offset == b.offset ==> (encode_utf8(a.id) == encode_utf8(b.id) || bytes_less(
                encode_utf8(a.id),
                encode_utf8(b.id),
            ))
        }),
{
    offers_come_in_order(e, oid);
    let x = offers(e, oid)[i].node;
    let y = offers(e, oid)[j].node;
    let a = get(e.nodes, x)->0;
    let b = get(e.nodes, y)->0;
    assert(!preferred(e, pin_of(e, hex(oid)), y, x));
    order_is_total(encode_utf8(a.source_name), encode_utf8(b.source_name));
    order_is_total(encode_utf8(a.id), encode_utf8(b.id));
}

} // verus!
