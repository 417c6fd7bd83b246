//! Peers in order of their distance to a target.

use vstd::prelude::*;
use crate::id::{distance, lemma_distance_injective, lemma_id_ext, NodeId};
use crate::node::{has_id, Node};

verus! {

/// Distance of the peer `n` to `key`.
pub open spec fn dist(key: NodeId, n: Node) -> nat {
    distance(key@, n.node_id@)
}

/// Whether `s` runs from the nearest peer to the farthest, strictly: no
/// two of its peers lie at the same distance, so none occurs twice.
pub open spec fn sorted_by_distance(key: NodeId, s: Seq<Node>) -> bool {
    forall|i: int, j: int| 0 <= i < j < s.len() ==> dist(key, s[i]) < dist(key, s[j])
}

/// `s` with `x` put in its place by distance; unchanged when a peer at the
/// distance of `x`, that is a record of the same peer, is there already.
pub open spec fn insert_by_distance(key: NodeId, s: Seq<Node>, x: Node) -> Seq<Node>
    decreases s.len(),
{
    if s.len() == 0 {
        seq![x]
    } else if dist(key, s.last()) < dist(key, x) {
        s.push(x)
    } else if dist(key, s.last()) == dist(key, x) {
        s
    } else {
        insert_by_distance(key, s.drop_last(), x).push(s.last())
    }
}

/// `s` with each of `xs` put in its place, first come first kept.
pub open spec fn insert_all_by_distance(key: NodeId, s: Seq<Node>, xs: Seq<Node>) -> Seq<Node>
    decreases xs.len(),
{
    if xs.len() == 0 {
        s
    } else {
        insert_by_distance(key, insert_all_by_distance(key, s, xs.drop_last()), xs.last())
    }
}

/// The peers of `nodes` by distance to `key`, each once.
pub open spec fn sort_by_distance(key: NodeId, nodes: Seq<Node>) -> Seq<Node> {
    insert_all_by_distance(key, Seq::empty(), nodes)
}

/// The first `n` elements of `s`, or all of it if it has fewer.
pub open spec fn take_upto(s: Seq<Node>, n: int) -> Seq<Node> {
    if 0 <= n < s.len() {
        s.take(n)
    } else {
        s
    }
}

/// The `n` peers of `nodes` nearest to `key`, nearest first.
pub open spec fn nearest_of(key: NodeId, nodes: Seq<Node>, n: int) -> Seq<Node> {
    take_upto(sort_by_distance(key, nodes), n)
}

/// Two peers at one distance from `key` are one peer.
pub proof fn lemma_same_distance(key: NodeId, a: NodeId, b: NodeId)
    ensures
        distance(key@, a@) == distance(key@, b@) <==> a == b,
{
    if distance(key@, a@) == distance(key@, b@) {
        lemma_distance_injective(key@, a@, b@);
        lemma_id_ext(a, b);
    }
}

/// Where `x` goes in a sorted list: behind the peers that are nearer.
pub proof fn lemma_insert_at(key: NodeId, s: Seq<Node>, x: Node, p: int)
    requires
        sorted_by_distance(key, s),
        0 <= p <= s.len(),
        forall|j: int| 0 <= j < p ==> dist(key, s[j]) < dist(key, x),
        forall|j: int| p <= j < s.len() ==> dist(key, x) <= dist(key, s[j]),
    ensures
        insert_by_distance(key, s, x) == if p < s.len() && dist(key, s[p]) == dist(key, x) {
            s
        } else {
            s.insert(p, x)
        },
    decreases s.len(),
{
    if s.len() == 0 {
        assert(seq![x] =~= s.insert(0, x));
    } else if dist(key, s.last()) < dist(key, x) {
        assert(p == s.len());
        assert(s.push(x) =~= s.insert(p, x));
    } else if dist(key, s.last()) == dist(key, x) {
        if p < s.len() - 1 {
            assert(dist(key, s[p]) < dist(key, s[s.len() - 1]));
        }
        assert(p == s.len() - 1);
    } else {
        let t = s.drop_last();
        assert(p <= s.len() - 1);
        assert forall|i: int, j: int| 0 <= i < j < t.len() implies dist(key, t[i]) < dist(
            key,
            t[j],
        ) by {
            assert(t[i] == s[i] && t[j] == s[j]);
        }
        assert forall|j: int| 0 <= j < p implies dist(key, t[j]) < dist(key, x) by {
            assert(t[j] == s[j]);
        }
        assert forall|j: int| p <= j < t.len() implies dist(key, x) <= dist(key, t[j]) by {
            assert(t[j] == s[j]);
        }
        lemma_insert_at(key, t, x, p);
        if p < t.len() && dist(key, t[p]) == dist(key, x) {
            assert(t.push(s.last()) =~= s);
        } else {
            assert(t.insert(p, x).push(s.last()) =~= s.insert(p, x));
        }
    }
}

/// The place of `x` in a sorted list exists.
pub proof fn lemma_place(key: NodeId, s: Seq<Node>, x: Node) -> (p: int)
    requires
        sorted_by_distance(key, s),
    ensures
        0 <= p <= s.len(),
        forall|j: int| 0 <= j < p ==> dist(key, s[j]) < dist(key, x),
        forall|j: int| p <= j < s.len() ==> dist(key, x) <= dist(key, s[j]),
    decreases s.len(),
{
    if s.len() == 0 {
        0
    } else if dist(key, s.last()) < dist(key, x) {
        assert forall|j: int| 0 <= j < s.len() implies dist(key, s[j]) < dist(key, x) by {
            if j < s.len() - 1 {
                assert(dist(key, s[j]) < dist(key, s[s.len() - 1]));
            }
        }
        s.len() as int
    } else {
        let t = s.drop_last();
        assert forall|i: int, j: int| 0 <= i < j < t.len() implies dist(key, t[i]) < dist(
            key,
            t[j],
        ) by {
            assert(t[i] == s[i] && t[j] == s[j]);
        }
        let p = lemma_place(key, t, x);
        assert forall|j: int| 0 <= j < p implies dist(key, s[j]) < dist(key, x) by {
            assert(t[j] == s[j]);
        }
        assert forall|j: int| p <= j < s.len() implies dist(key, x) <= dist(key, s[j]) by {
            if j < t.len() {
                assert(t[j] == s[j]);
            }
        }
        p
    }
}

/// Inserting keeps the order, keeps every record that was there, adds at
/// most the new one, and leaves the list holding the new peer.
pub proof fn lemma_insert_properties(key: NodeId, s: Seq<Node>, x: Node)
    requires
        sorted_by_distance(key, s),
    ensures
        sorted_by_distance(key, insert_by_distance(key, s, x)),
        has_id(insert_by_distance(key, s, x), x.node_id),
        has_id(s, x.node_id) ==> insert_by_distance(key, s, x) == s,
        !has_id(s, x.node_id) ==> insert_by_distance(key, s, x).contains(x)
            && insert_by_distance(key, s, x).len() == s.len() + 1,
        forall|j: int| 0 <= j < s.len() ==> insert_by_distance(key, s, x).contains(#[trigger] s[j]),
        forall|i: int|
            0 <= i < insert_by_distance(key, s, x).len() ==> {
                let e = #[trigger] insert_by_distance(key, s, x)[i];
                e == x || s.contains(e)
            },
{
    let p = lemma_place(key, s, x);
    lemma_insert_at(key, s, x, p);
    let r = insert_by_distance(key, s, x);
    if p < s.len() && dist(key, s[p]) == dist(key, x) {
        lemma_same_distance(key, s[p].node_id, x.node_id);
        assert(s[p].node_id == x.node_id);
        assert forall|j: int| 0 <= j < s.len() implies r.contains(#[trigger] s[j]) by {
            assert(r[j] == s[j]);
        }
        assert forall|i: int| 0 <= i < r.len() implies (r[i] == x || s.contains(#[trigger] r[i])) by {
            assert(s[i] == r[i]);
        }
    } else {
        if has_id(s, x.node_id) {
            let q = choose|q: int| 0 <= q < s.len() && #[trigger] s[q].node_id == x.node_id;
            assert(dist(key, s[q]) == dist(key, x));
            if q > p {
                assert(dist(key, s[p]) < dist(key, s[q]));
            }
            assert(false);
        }
        assert(r == s.insert(p, x));
        assert(r[p] == x);
        assert(r[p].node_id == x.node_id);
        assert forall|i: int, j: int| 0 <= i < j < r.len() implies dist(key, r[i]) < dist(
            key,
            r[j],
        ) by {
            let oi = if i < p { i } else { i - 1 };
            let oj = if j < p { j } else { j - 1 };
            if i != p {
                assert(r[i] == s[oi]);
            }
            if j != p {
                assert(r[j] == s[oj]);
            }
            if j == p {
            } else if i == p {
                assert(dist(key, x) <= dist(key, s[oj]));
                if dist(key, x) == dist(key, s[oj]) {
                    if oj > p {
                        assert(dist(key, s[p]) < dist(key, s[oj]));
                    }
                }
            }
        }
        assert forall|j: int| 0 <= j < s.len() implies r.contains(#[trigger] s[j]) by {
            let nj = if j < p { j } else { j + 1 };
            assert(r[nj] == s[j]);
        }
        assert forall|i: int| 0 <= i < r.len() implies (r[i] == x || s.contains(#[trigger] r[i])) by {
            if i != p {
                let oi = if i < p { i } else { i - 1 };
                assert(r[i] == s[oi]);
            }
        }
    }
}

/// Cutting a sorted list to `n` before or after an insertion gives the same
/// first `n` peers.
pub proof fn lemma_insert_take(key: NodeId, s: Seq<Node>, x: Node, n: int)
    requires
        sorted_by_distance(key, s),
        0 <= n,
    ensures
        sorted_by_distance(key, take_upto(s, n)),
        take_upto(insert_by_distance(key, s, x), n) == take_upto(
            insert_by_distance(key, take_upto(s, n), x),
            n,
        ),
{
    let c = take_upto(s, n);
    assert forall|i: int, j: int| 0 <= i < j < c.len() implies dist(key, c[i]) < dist(key, c[j]) by {
        assert(c[i] == s[i] && c[j] == s[j]);
    }
    if n < s.len() {
        let p = lemma_place(key, s, x);
        lemma_insert_at(key, s, x, p);
        let q = if p < n { p } else { n };
        assert forall|j: int| 0 <= j < q implies dist(key, c[j]) < dist(key, x) by {
            assert(c[j] == s[j]);
        }
        assert forall|j: int| q <= j < c.len() implies dist(key, x) <= dist(key, c[j]) by {
            assert(c[j] == s[j]);
        }
        lemma_insert_at(key, c, x, q);
        let a = take_upto(insert_by_distance(key, s, x), n);
        let b = take_upto(insert_by_distance(key, c, x), n);
        assert(a =~= b);
    }
}

/// Sorting gives a sorted list of records of `nodes` that holds every peer
/// of `nodes`.
pub proof fn lemma_insert_all_properties(key: NodeId, s: Seq<Node>, xs: Seq<Node>)
    requires
        sorted_by_distance(key, s),
    ensures
        sorted_by_distance(key, insert_all_by_distance(key, s, xs)),
        forall|j: int| 0 <= j < s.len() ==> insert_all_by_distance(key, s, xs).contains(#[trigger] s[j]),
        forall|j: int| 0 <= j < xs.len() ==> has_id(insert_all_by_distance(key, s, xs), #[trigger] xs[j].node_id),
        forall|i: int|
            0 <= i < insert_all_by_distance(key, s, xs).len() ==> {
                let e = #[trigger] insert_all_by_distance(key, s, xs)[i];
                s.contains(e) || xs.contains(e)
            },
    decreases xs.len(),
{
    if xs.len() > 0 {
        let prev = insert_all_by_distance(key, s, xs.drop_last());
        let x = xs.last();
        let r = insert_all_by_distance(key, s, xs);
        lemma_insert_all_properties(key, s, xs.drop_last());
        lemma_insert_properties(key, prev, x);
        assert forall|j: int| 0 <= j < s.len() implies r.contains(#[trigger] s[j]) by {
            assert(prev.contains(s[j]));
            let k = choose|k: int| 0 <= k < prev.len() && prev[k] == s[j];
            assert(r.contains(prev[k]));
        }
        assert forall|j: int| 0 <= j < xs.len() implies has_id(r, #[trigger] xs[j].node_id) by {
            if j < xs.len() - 1 {
                assert(xs.drop_last()[j] == xs[j]);
                assert(has_id(prev, xs.drop_last()[j].node_id));
                let k = choose|k: int| 0 <= k < prev.len() && #[trigger] prev[k].node_id == xs[j].node_id;
                assert(r.contains(prev[k]));
                let m = choose|m: int| 0 <= m < r.len() && r[m] == prev[k];
                assert(r[m].node_id == xs[j].node_id);
            }
        }
        assert forall|i: int| 0 <= i < r.len() implies (s.contains(#[trigger] r[i]) || xs.contains(
            r[i],
        )) by {
            let e = r[i];
            if e == x {
                assert(xs[xs.len() - 1] == x);
            } else {
                assert(prev.contains(e));
                let k = choose|k: int| 0 <= k < prev.len() && prev[k] == e;
                assert(s.contains(prev[k]) || xs.drop_last().contains(prev[k]));
                if xs.drop_last().contains(e) {
                    let m = choose|m: int| 0 <= m < xs.drop_last().len() && xs.drop_last()[m] == e;
                    assert(xs[m] == e);
                }
            }
        }
    }
}

/// Whether `r` holds the `n` peers of `nodes` nearest to `key`: it is a
/// list of at most `n` records of `nodes`, nearest first, and every peer of
/// `nodes` is either in it or farther from `key` than all of it, the list
/// then being full.
pub open spec fn is_nearest(key: NodeId, nodes: Seq<Node>, n: int, r: Seq<Node>) -> bool {
    &&& sorted_by_distance(key, r)
    &&& r.len() <= n
    &&& r.len() <= nodes.len()
    &&& forall|i: int| 0 <= i < r.len() ==> nodes.contains(#[trigger] r[i])
    &&& forall|j: int|
        0 <= j < nodes.len() ==> {
            ||| has_id(r, #[trigger] nodes[j].node_id)
            ||| (r.len() == n && (n > 0 ==> dist(key, r[n - 1]) < dist(key, nodes[j])))
        }
}

/// `nearest_of` selects the nearest peers.
pub proof fn lemma_nearest_of(key: NodeId, nodes: Seq<Node>, n: int)
    requires
        0 <= n,
    ensures
        is_nearest(key, nodes, n, nearest_of(key, nodes, n)),
{
    let all = sort_by_distance(key, nodes);
    let r = nearest_of(key, nodes, n);
    lemma_insert_all_properties(key, Seq::empty(), nodes);
    lemma_insert_all_len(key, Seq::empty(), nodes);
    assert forall|i: int, j: int| 0 <= i < j < r.len() implies dist(key, r[i]) < dist(key, r[j]) by {
        assert(r[i] == all[i] && r[j] == all[j]);
    }
    assert forall|i: int| 0 <= i < r.len() implies nodes.contains(#[trigger] r[i]) by {
        assert(r[i] == all[i]);
        assert(Seq::<Node>::empty().contains(all[i]) || nodes.contains(all[i]));
    }
    assert forall|j: int| 0 <= j < nodes.len() implies {
        ||| has_id(r, #[trigger] nodes[j].node_id)
        ||| (r.len() == n && (n > 0 ==> dist(key, r[n - 1]) < dist(key, nodes[j])))
    } by {
        assert(has_id(all, nodes[j].node_id));
        let q = choose|q: int| 0 <= q < all.len() && #[trigger] all[q].node_id == nodes[j].node_id;
        if q < r.len() {
            assert(r[q] == all[q]);
        } else if n > 0 {
            assert(r[n - 1] == all[n - 1]);
            assert(dist(key, all[n - 1]) < dist(key, all[q]));
        }
    }
}

/// Inserting a list makes the list no shorter, and longer by at most the
/// number of records offered.
pub proof fn lemma_insert_all_len(key: NodeId, s: Seq<Node>, xs: Seq<Node>)
    requires
        sorted_by_distance(key, s),
    ensures
        s.len() <= insert_all_by_distance(key, s, xs).len() <= s.len() + xs.len(),
    decreases xs.len(),
{
    if xs.len() > 0 {
        lemma_insert_all_len(key, s, xs.drop_last());
        lemma_insert_all_properties(key, s, xs.drop_last());
        lemma_insert_properties(key, insert_all_by_distance(key, s, xs.drop_last()), xs.last());
    }
}

/// The place of `id` in the sorted list `v`: the first position whose peer
/// is not nearer to `key` than `id` is.
pub fn insertion_point(v: &Vec<Node>, key: &NodeId, id: &NodeId) -> (p: usize)
    requires
        sorted_by_distance(*key, v@),
    ensures
        p <= v.len(),
        forall|j: int| 0 <= j < p ==> dist(*key, v[j]) < distance(key@, id@),
        forall|j: int| p <= j < v.len() ==> distance(key@, id@) <= dist(*key, v[j]),
{
    let mut p: usize = 0;
    while p < v.len()
        invariant
            p <= v.len(),
            sorted_by_distance(*key, v@),
            forall|j: int| 0 <= j < p ==> dist(*key, v[j]) < distance(key@, id@),
        decreases v.len() - p,
    {
        if !key.closer(&v[p].node_id, id) {
            proof {
                assert forall|j: int| p <= j < v.len() implies distance(key@, id@) <= dist(
                    *key,
                    v[j],
                ) by {
                    if j > p {
                        assert(dist(*key, v[p as int]) < dist(*key, v[j]));
                    }
                }
            }
            return p;
        }
        p += 1;
    }
    p
}

/// Puts `x` in its place in the sorted list `v` unless its peer is there
/// already, and says where it went.
pub fn insert_sorted(v: &mut Vec<Node>, key: &NodeId, x: Node) -> (r: Option<usize>)
    requires
        sorted_by_distance(*key, old(v)@),
    ensures
        final(v)@ == insert_by_distance(*key, old(v)@, x),
        sorted_by_distance(*key, final(v)@),
        r is Some <==> !has_id(old(v)@, x.node_id),
        r matches Some(p) ==> p <= old(v).len() && final(v)@ == old(v)@.insert(p as int, x),
{
    let p = insertion_point(v, key, &x.node_id);
    proof {
        lemma_insert_at(*key, v@, x, p as int);
        lemma_insert_properties(*key, v@, x);
        if p < v.len() {
            lemma_same_distance(*key, v[p as int].node_id, x.node_id);
        }
    }
    if p < v.len() && v[p].node_id == x.node_id {
        None
    } else {
        v.insert(p, x);
        Some(p)
    }
}

/// The `n` peers of `nodes` nearest to `key`, nearest first, each peer
/// once under the first record that `nodes` has of it.
pub fn nearest(nodes: &Vec<Node>, key: &NodeId, n: usize) -> (r: Vec<Node>)
    ensures
        r@ == nearest_of(*key, nodes@, n as int),
        is_nearest(*key, nodes@, n as int, r@),
{
    let mut best: Vec<Node> = Vec::new();
    let mut i: usize = 0;
    while i < nodes.len()
        invariant
            i <= nodes.len(),
            best.len() <= n,
            sorted_by_distance(*key, sort_by_distance(*key, nodes@.take(i as int))),
            best@ == take_upto(sort_by_distance(*key, nodes@.take(i as int)), n as int),
        decreases nodes.len() - i,
    {
        let x = nodes[i];
        let ghost prev = sort_by_distance(*key, nodes@.take(i as int));
        proof {
            assert(nodes@.take(i + 1).drop_last() =~= nodes@.take(i as int));
            assert(nodes@.take(i + 1).last() == x);
            lemma_insert_take(*key, prev, x, n as int);
            lemma_insert_properties(*key, prev, x);
        }
        let p = insertion_point(&best, key, &x.node_id);
        proof {
            lemma_insert_at(*key, best@, x, p as int);
            if p < best.len() {
                lemma_same_distance(*key, best[p as int].node_id, x.node_id);
            }
        }
        if p < n && !(p < best.len() && best[p].node_id == x.node_id) {
            best.insert(p, x);
            if best.len() > n {
                best.pop();
            }
        }
        proof {
            assert(best@ =~= take_upto(insert_by_distance(*key, take_upto(prev, n as int), x), n as int));
        }
        i += 1;
    }
    proof {
        assert(nodes@.take(nodes.len() as int) =~= nodes@);
        lemma_nearest_of(*key, nodes@, n as int);
    }
    best
}

} // verus!
