//! The routing table: one bounded bucket of peers per distance class.

use vstd::prelude::*;
use crate::id::{bucket_of, distance, leading_zero_bits, lemma_bucket_of_bounds, NodeId};
use crate::kademlia::K_PARAM;
use crate::nearest::{is_nearest, nearest, nearest_of};
use crate::node::{distinct_ids, has_id, index_of_id, lemma_index_of_id, position_of, Address, Node};

verus! {

/// What a routing table holds: the local identifier and, per distance
/// class, the peers known in it, least recently seen first.
pub struct TableView {
    pub own_id: NodeId,
    pub buckets: Seq<Seq<Node>>,
}

impl TableView {
    /// The table around `own_id` that knows nobody.
    pub open spec fn empty(own_id: NodeId) -> TableView {
        TableView { own_id, buckets: Seq::new(160, |i: int| Seq::<Node>::empty()) }
    }

    /// The invariants of a routing table: 160 buckets of at most `K_PARAM`
    /// peers; every peer filed under the distance class of its identifier,
    /// which is never the local one; no identifier twice in a bucket.
    pub open spec fn valid(self) -> bool {
        &&& self.buckets.len() == 160
        &&& forall|i: int| 0 <= i < 160 ==> (#[trigger] self.buckets[i]).len() <= K_PARAM
        &&& forall|i: int, j: int|
            0 <= i < 160 && 0 <= j < self.buckets[i].len() ==> {
                &&& (#[trigger] self.buckets[i][j]).node_id != self.own_id
                &&& bucket_of(self.own_id@, self.buckets[i][j].node_id@) == i
            }
        &&& forall|i: int| 0 <= i < 160 ==> distinct_ids(#[trigger] self.buckets[i])
    }

    /// All peers of the table, bucket by bucket from the nearest class.
    pub open spec fn nodes(self) -> Seq<Node> {
        self.buckets.flatten()
    }

    /// The bucket in which `id` is filed; meaningful for `id != own_id`.
    pub open spec fn bucket_for(self, id: NodeId) -> Seq<Node> {
        self.buckets[bucket_of(self.own_id@, id@)]
    }

    /// Whether `add` takes `node`: it is not the local node, and it is
    /// known already or its bucket has room.
    pub open spec fn accepts(self, node: Node) -> bool {
        &&& node.node_id != self.own_id
        &&& (has_id(self.bucket_for(node.node_id), node.node_id) || self.bucket_for(
            node.node_id,
        ).len() < K_PARAM)
    }

    /// The table after `node` was offered to it: a known peer moves to the
    /// tail of its bucket under the new record, an unknown one is appended
    /// while there is room, and otherwise nothing changes.
    pub open spec fn add(self, node: Node) -> TableView {
        let i = bucket_of(self.own_id@, node.node_id@);
        let b = self.buckets[i];
        let p = index_of_id(b, node.node_id);
        if node.node_id == self.own_id {
            self
        } else if p < b.len() {
            TableView { buckets: self.buckets.update(i, b.remove(p).push(node)), ..self }
        } else if b.len() < K_PARAM {
            TableView { buckets: self.buckets.update(i, b.push(node)), ..self }
        } else {
            self
        }
    }

    /// The table after each of `nodes` was offered to it in turn.
    pub open spec fn add_all(self, nodes: Seq<Node>) -> TableView
        decreases nodes.len(),
    {
        if nodes.len() == 0 {
            self
        } else {
            self.add_all(nodes.drop_last()).add(nodes.last())
        }
    }

    /// Whether `pred` holds of every record in the table.
    pub open spec fn all(self, pred: spec_fn(Node) -> bool) -> bool {
        forall|i: int, j: int|
            0 <= i < self.buckets.len() && 0 <= j < self.buckets[i].len() ==> pred(
                #[trigger] self.buckets[i][j],
            )
    }

    /// Whether `evict` would exchange `stale` for `replacement`.
    pub open spec fn can_evict(self, stale: NodeId, replacement: Node) -> bool {
        let b = self.bucket_for(replacement.node_id);
        let p = index_of_id(b, stale);
        &&& replacement.node_id != self.own_id
        &&& p < b.len()
        &&& !has_id(b.remove(p), replacement.node_id)
    }

    /// The table after `stale` left the bucket of `replacement` and
    /// `replacement` took the tail of it; unchanged where `stale` is not in
    /// that bucket.
    pub open spec fn evict(self, stale: NodeId, replacement: Node) -> TableView {
        let i = bucket_of(self.own_id@, replacement.node_id@);
        let b = self.buckets[i];
        let p = index_of_id(b, stale);
        if self.can_evict(stale, replacement) {
            TableView { buckets: self.buckets.update(i, b.remove(p).push(replacement)), ..self }
        } else {
            self
        }
    }
}

/// A peer other than the local node falls in one of the 160 classes.
pub proof fn lemma_bucket_of_range(local: NodeId, id: NodeId)
    requires
        local != id,
    ensures
        0 <= bucket_of(local@, id@) < 160,
{
    lemma_bucket_of_bounds(local, id);
}

/// Removing one record and appending another keeps a bucket free of
/// repeated identifiers when the new identifier is not among the rest.
pub proof fn lemma_remove_push_distinct(b: Seq<Node>, p: int, node: Node)
    requires
        distinct_ids(b),
        0 <= p < b.len(),
        !has_id(b.remove(p), node.node_id),
    ensures
        distinct_ids(b.remove(p).push(node)),
        distinct_ids(b.remove(p)),
{
    let r = b.remove(p);
    assert forall|i: int, j: int| 0 <= i < j < r.len() implies r[i].node_id != r[j].node_id by {
        let oi = if i < p { i } else { i + 1 };
        let oj = if j < p { j } else { j + 1 };
        assert(r[i] == b[oi] && r[j] == b[oj]);
    }
    let s = r.push(node);
    assert forall|i: int, j: int| 0 <= i < j < s.len() implies s[i].node_id != s[j].node_id by {
        if j == r.len() {
            assert(r[i].node_id != node.node_id);
        }
    }
}

/// In a bucket free of repeated identifiers, what is left after removing
/// the record of `id` does not carry `id`.
pub proof fn lemma_removed_id_gone(b: Seq<Node>, id: NodeId)
    requires
        distinct_ids(b),
        has_id(b, id),
    ensures
        !has_id(b.remove(index_of_id(b, id)), id),
{
    lemma_index_of_id(b, id);
    let p = index_of_id(b, id);
    let r = b.remove(p);
    if has_id(r, id) {
        let i = choose|i: int| 0 <= i < r.len() && #[trigger] r[i].node_id == id;
        let oi = if i < p { i } else { i + 1 };
        assert(r[i] == b[oi]);
        assert(false);
    }
}

/// Offering a peer to a valid table leaves a valid table.
pub proof fn lemma_add_valid(t: TableView, node: Node)
    requires
        t.valid(),
    ensures
        t.add(node).valid(),
        t.add(node).own_id == t.own_id,
{
    if node.node_id != t.own_id {
        lemma_bucket_of_range(t.own_id, node.node_id);
        let i = bucket_of(t.own_id@, node.node_id@);
        let b = t.buckets[i];
        let p = index_of_id(b, node.node_id);
        lemma_index_of_id(b, node.node_id);
        let u = t.add(node);
        if p < b.len() {
            lemma_removed_id_gone(b, node.node_id);
            lemma_remove_push_distinct(b, p, node);
            lemma_replaced_bucket_valid(t, i, p, node);
        } else if b.len() < K_PARAM {
            let nb = b.push(node);
            assert forall|x: int, y: int| 0 <= x < y < nb.len() implies nb[x].node_id
                != nb[y].node_id by {
                if y == b.len() {
                    assert(b[x].node_id != node.node_id);
                }
            }
            assert forall|k: int, j: int| 0 <= k < 160 && 0 <= j < u.buckets[k].len() implies {
                &&& (#[trigger] u.buckets[k][j]).node_id != u.own_id
                &&& bucket_of(u.own_id@, u.buckets[k][j].node_id@) == k
            } by {
                if k == i && j < b.len() {
                    assert(u.buckets[k][j] == t.buckets[i][j]);
                } else if k != i {
                    assert(u.buckets[k][j] == t.buckets[k][j]);
                }
            }
            assert forall|k: int| 0 <= k < 160 implies distinct_ids(#[trigger] u.buckets[k]) by {
                if k != i {
                    assert(u.buckets[k] == t.buckets[k]);
                }
            }
            assert forall|k: int| 0 <= k < 160 implies (#[trigger] u.buckets[k]).len()
                <= K_PARAM by {
                if k != i {
                    assert(u.buckets[k] == t.buckets[k]);
                }
            }
        }
    }
}

/// A valid table stays valid when, in bucket `i`, the record at `p` leaves
/// and a peer of that class, not otherwise in the bucket, takes the tail.
pub proof fn lemma_replaced_bucket_valid(t: TableView, i: int, p: int, node: Node)
    requires
        t.valid(),
        node.node_id != t.own_id,
        i == bucket_of(t.own_id@, node.node_id@),
        0 <= i < 160,
        0 <= p < t.buckets[i].len(),
        distinct_ids(t.buckets[i].remove(p).push(node)),
    ensures
        (TableView { buckets: t.buckets.update(i, t.buckets[i].remove(p).push(node)), ..t }).valid(),
{
    let b = t.buckets[i];
    let nb = b.remove(p).push(node);
    let u = TableView { buckets: t.buckets.update(i, nb), ..t };
    assert forall|k: int, j: int| 0 <= k < 160 && 0 <= j < u.buckets[k].len() implies {
        &&& (#[trigger] u.buckets[k][j]).node_id != u.own_id
        &&& bucket_of(u.own_id@, u.buckets[k][j].node_id@) == k
    } by {
        if k == i && j < nb.len() - 1 {
            let oj = if j < p { j } else { j + 1 };
            assert(u.buckets[k][j] == t.buckets[i][oj]);
        } else if k != i {
            assert(u.buckets[k][j] == t.buckets[k][j]);
        }
    }
    assert forall|k: int| 0 <= k < 160 implies distinct_ids(#[trigger] u.buckets[k]) by {
        if k != i {
            assert(u.buckets[k] == t.buckets[k]);
        }
    }
    assert forall|k: int| 0 <= k < 160 implies (#[trigger] u.buckets[k]).len() <= K_PARAM by {
        if k != i {
            assert(u.buckets[k] == t.buckets[k]);
        }
    }
}

/// Exchanging a stale peer for a replacement leaves a valid table.
pub proof fn lemma_evict_valid(t: TableView, stale: NodeId, replacement: Node)
    requires
        t.valid(),
    ensures
        t.evict(stale, replacement).valid(),
        t.evict(stale, replacement).own_id == t.own_id,
{
    if t.can_evict(stale, replacement) {
        lemma_bucket_of_range(t.own_id, replacement.node_id);
        let i = bucket_of(t.own_id@, replacement.node_id@);
        let b = t.buckets[i];
        let p = index_of_id(b, stale);
        lemma_index_of_id(b, stale);
        lemma_remove_push_distinct(b, p, replacement);
        lemma_replaced_bucket_valid(t, i, p, replacement);
    }
}

/// Offering peers one after another to a valid table leaves a valid table.
pub proof fn lemma_add_all_valid(t: TableView, nodes: Seq<Node>)
    requires
        t.valid(),
    ensures
        t.add_all(nodes).valid(),
        t.add_all(nodes).own_id == t.own_id,
    decreases nodes.len(),
{
    if nodes.len() > 0 {
        lemma_add_all_valid(t, nodes.drop_last());
        lemma_add_valid(t.add_all(nodes.drop_last()), nodes.last());
    }
}

/// What holds of every record in a table and of a peer offered to it holds
/// of every record afterwards: a table holds only records that it was given.
pub proof fn lemma_add_keeps(t: TableView, node: Node, pred: spec_fn(Node) -> bool)
    requires
        t.valid(),
        t.all(pred),
        pred(node),
    ensures
        t.add(node).all(pred),
{
    if node.node_id != t.own_id {
        lemma_bucket_of_range(t.own_id, node.node_id);
        let i = bucket_of(t.own_id@, node.node_id@);
        let b = t.buckets[i];
        let p = index_of_id(b, node.node_id);
        lemma_index_of_id(b, node.node_id);
        let u = t.add(node);
        assert forall|k: int, j: int| 0 <= k < u.buckets.len() && 0 <= j < u.buckets[k].len() implies pred(
            #[trigger] u.buckets[k][j],
        ) by {
            if k != i {
                assert(u.buckets[k][j] == t.buckets[k][j]);
            } else if p < b.len() {
                if j < b.len() - 1 {
                    let oj = if j < p { j } else { j + 1 };
                    assert(u.buckets[k][j] == t.buckets[i][oj]);
                }
            } else if b.len() < K_PARAM {
                if j < b.len() {
                    assert(u.buckets[k][j] == t.buckets[i][j]);
                }
            }
        }
    }
}

/// The same of peers offered one after another.
pub proof fn lemma_add_all_keeps(t: TableView, nodes: Seq<Node>, pred: spec_fn(Node) -> bool)
    requires
        t.valid(),
        t.all(pred),
        forall|k: int| 0 <= k < nodes.len() ==> pred(#[trigger] nodes[k]),
    ensures
        t.add_all(nodes).all(pred),
    decreases nodes.len(),
{
    if nodes.len() > 0 {
        let rest = nodes.drop_last();
        assert forall|k: int| 0 <= k < rest.len() implies pred(#[trigger] rest[k]) by {
            assert(rest[k] == nodes[k]);
        }
        lemma_add_all_keeps(t, rest, pred);
        lemma_add_all_valid(t, rest);
        lemma_add_keeps(t.add_all(rest), nodes.last(), pred);
    }
}

/// Bucket capacity: no bucket of a valid table holds more than `K_PARAM`
/// peers.
pub proof fn lemma_bucket_capacity(t: TableView, i: int)
    requires
        t.valid(),
        0 <= i < 160,
    ensures
        t.buckets[i].len() <= K_PARAM,
{
}

/// Uniqueness: a valid table holds no identifier at two places, be it in
/// one bucket or in two.
pub proof fn lemma_peer_unique(t: TableView, i: int, j: int, k: int, l: int)
    requires
        t.valid(),
        0 <= i < 160,
        0 <= j < t.buckets[i].len(),
        0 <= k < 160,
        0 <= l < t.buckets[k].len(),
        t.buckets[i][j].node_id == t.buckets[k][l].node_id,
    ensures
        i == k,
        j == l,
{
    assert(bucket_of(t.own_id@, t.buckets[i][j].node_id@) == i);
    assert(bucket_of(t.own_id@, t.buckets[k][l].node_id@) == k);
    assert(distinct_ids(t.buckets[i]));
}

/// No self: the local identifier is in no bucket of a valid table.
pub proof fn lemma_no_self(t: TableView, i: int, j: int)
    requires
        t.valid(),
        0 <= i < 160,
        0 <= j < t.buckets[i].len(),
    ensures
        t.buckets[i][j].node_id != t.own_id,
{
}

/// Distance placement: a peer in bucket `i` of a valid table lies in
/// distance class `i`, counted by the leading zero bits of its distance.
pub proof fn lemma_distance_placement(t: TableView, i: int, j: int)
    requires
        t.valid(),
        0 <= i < 160,
        0 <= j < t.buckets[i].len(),
    ensures
        160 - 1 - leading_zero_bits(distance(t.own_id@, t.buckets[i][j].node_id@)) == i,
{
    assert(bucket_of(t.own_id@, t.buckets[i][j].node_id@) == i);
}

/// The routing table of one node.
pub struct KBuckets {
    own_id: NodeId,
    buckets: Vec<Vec<Node>>,
}

impl View for KBuckets {
    type V = TableView;

    closed spec fn view(&self) -> TableView {
        TableView {
            own_id: self.own_id,
            buckets: Seq::new(self.buckets@.len(), |i: int| self.buckets@[i]@),
        }
    }
}

impl KBuckets {
    /// Whether the table keeps its invariants.
    pub open spec fn wf(&self) -> bool {
        self@.valid()
    }

    /// An empty table around `own_id`.
    pub fn new(own_id: NodeId) -> (t: KBuckets)
        ensures
            t.wf(),
            t@ == TableView::empty(own_id),
    {
        let mut buckets: Vec<Vec<Node>> = Vec::new();
        let mut i: usize = 0;
        while i < 160
            invariant
                i <= 160,
                buckets.len() == i,
                forall|j: int| 0 <= j < i ==> (#[trigger] buckets[j])@ == Seq::<Node>::empty(),
            decreases 160 - i,
        {
            buckets.push(Vec::new());
            i += 1;
        }
        let t = KBuckets { own_id, buckets };
        proof {
            assert(t@.buckets =~= TableView::empty(own_id).buckets);
        }
        t
    }

    /// The local identifier.
    pub fn own_id(&self) -> (id: NodeId)
        ensures
            id == self@.own_id,
    {
        self.own_id
    }

    /// Offers `node` to the table. A known peer moves to the tail of its
    /// bucket under the new record; an unknown one is appended while its
    /// bucket has room. The local node itself, and an unknown peer whose
    /// bucket is full, are handed back.
    pub fn add(&mut self, node: Node) -> (r: Result<(), Node>)
        requires
            old(self).wf(),
        ensures
            final(self).wf(),
            final(self)@ == old(self)@.add(node),
            r is Ok <==> old(self)@.accepts(node),
            r matches Err(n) ==> n == node,
    {
        proof {
            lemma_add_valid(self@, node);
        }
        match self.own_id.bucket_index(&node.node_id) {
            None => Err(node),
            Some(i) => {
                let found = position_of(&self.buckets[i], &node.node_id);
                proof {
                    lemma_index_of_id(self@.buckets[i as int], node.node_id);
                }
                match found {
                    Some(p) => {
                        self.buckets[i].remove(p);
                        self.buckets[i].push(node);
                        proof {
                            assert(self@.buckets =~= old(self)@.add(node).buckets);
                        }
                        Ok(())
                    },
                    None => {
                        if self.buckets[i].len() < K_PARAM {
                            self.buckets[i].push(node);
                            proof {
                                assert(self@.buckets =~= old(self)@.add(node).buckets);
                            }
                            Ok(())
                        } else {
                            Err(node)
                        }
                    },
                }
            },
        }
    }

    /// Offers each of `nodes` in turn, keeping what `add` keeps.
    pub fn add_all(&mut self, nodes: &Vec<Node>)
        requires
            old(self).wf(),
        ensures
            final(self).wf(),
            final(self)@ == old(self)@.add_all(nodes@),
    {
        let mut i: usize = 0;
        while i < nodes.len()
            invariant
                i <= nodes.len(),
                self.wf(),
                self@ == old(self)@.add_all(nodes@.take(i as int)),
            decreases nodes.len() - i,
        {
            proof {
                assert(nodes@.take(i + 1).drop_last() =~= nodes@.take(i as int));
            }
            let _ = self.add(nodes[i]);
            i += 1;
        }
        proof {
            assert(nodes@.take(nodes.len() as int) =~= nodes@);
        }
    }

    /// A record for the peer `id` heard from `addr` at `now`; none for the
    /// local identifier, which is no peer.
    pub fn construct_node(&self, addr: Address, id: NodeId, now: u64) -> (r: Option<Node>)
        ensures
            r is None <==> id == self@.own_id,
            r matches Some(n) ==> n == (Node { addr, node_id: id, last_seen: now }),
    {
        if id == self.own_id {
            None
        } else {
            Some(Node::new(addr, id, now))
        }
    }

    /// The bucket that would hold `id`; none for the local identifier.
    pub fn get_bucket(&self, id: &NodeId) -> (r: Option<&Vec<Node>>)
        requires
            self.wf(),
        ensures
            r is None <==> *id == self@.own_id,
            r matches Some(b) ==> b@ == self@.bucket_for(*id),
    {
        match self.own_id.bucket_index(id) {
            None => None,
            Some(i) => Some(&self.buckets[i]),
        }
    }

    /// Exchanges the peer `stale` for `replacement` in the bucket of
    /// `replacement`, which takes the tail. Nothing happens, and the answer
    /// is `false`, when `stale` is not in that bucket, when `replacement`
    /// is the local node, or when another record of it is in the bucket.
    pub fn evict(&mut self, stale: &NodeId, replacement: Node) -> (done: bool)
        requires
            old(self).wf(),
        ensures
            final(self).wf(),
            final(self)@ == old(self)@.evict(*stale, replacement),
            done == old(self)@.can_evict(*stale, replacement),
    {
        proof {
            lemma_evict_valid(self@, *stale, replacement);
        }
        match self.own_id.bucket_index(&replacement.node_id) {
            None => false,
            Some(i) => {
                let ghost b = self@.buckets[i as int];
                let at = position_of(&self.buckets[i], stale);
                let other = position_of(&self.buckets[i], &replacement.node_id);
                proof {
                    lemma_index_of_id(b, *stale);
                    lemma_index_of_id(b, replacement.node_id);
                }
                match at {
                    None => false,
                    Some(p) => {
                        let free = match other {
                            None => true,
                            Some(q) => q == p,
                        };
                        proof {
                            let r = b.remove(p as int);
                            if free {
                                if has_id(r, replacement.node_id) {
                                    let k = choose|k: int|
                                        0 <= k < r.len() && #[trigger] r[k].node_id
                                            == replacement.node_id;
                                    let ok = if k < p { k } else { k + 1 };
                                    assert(r[k] == b[ok]);
                                    assert(false);
                                }
                            } else {
                                let q = other->Some_0 as int;
                                let nq = if q < p { q } else { q - 1 };
                                assert(r[nq] == b[q]);
                            }
                        }
                        if free {
                            self.buckets[i].remove(p);
                            self.buckets[i].push(replacement);
                            proof {
                                assert(self@.buckets =~= old(self)@.evict(
                                    *stale,
                                    replacement,
                                ).buckets);
                            }
                            true
                        } else {
                            false
                        }
                    },
                }
            },
        }
    }

    /// Every peer of the table, bucket by bucket from the nearest class.
    pub fn get_nodes(&self) -> (r: Vec<Node>)
        requires
            self.wf(),
        ensures
            r@ == self@.nodes(),
    {
        let mut out: Vec<Node> = Vec::new();
        let mut i: usize = 0;
        while i < self.buckets.len()
            invariant
                i <= self.buckets.len(),
                self.buckets.len() == 160,
                out@ == self@.buckets.take(i as int).flatten(),
            decreases self.buckets.len() - i,
        {
            let ghost base = out@;
            let mut j: usize = 0;
            while j < self.buckets[i].len()
                invariant
                    i < self.buckets.len(),
                    j <= self.buckets[i as int].len(),
                    out@ == base + self.buckets[i as int]@.take(j as int),
                decreases self.buckets[i as int].len() - j,
            {
                out.push(self.buckets[i][j]);
                proof {
                    assert(self.buckets[i as int]@.take(j + 1) =~= self.buckets[i as int]@.take(
                        j as int,
                    ).push(self.buckets[i as int][j as int]));
                }
                j += 1;
            }
            proof {
                let b = self@.buckets[i as int];
                assert(self.buckets[i as int]@.take(j as int) =~= b);
                assert(self@.buckets.take(i + 1) =~= self@.buckets.take(i as int).push(b));
                self@.buckets.take(i as int).lemma_flatten_push(b);
            }
            i += 1;
        }
        proof {
            assert(self@.buckets.take(160) =~= self@.buckets);
        }
        out
    }

    /// The `n` known peers nearest to `key`, nearest first.
    pub fn get_closest_nodes(&self, key: &NodeId, n: usize) -> (r: Vec<Node>)
        requires
            self.wf(),
        ensures
            r@ == nearest_of(*key, self@.nodes(), n as int),
            is_nearest(*key, self@.nodes(), n as int, r@),
    {
        let all = self.get_nodes();
        nearest(&all, key, n)
    }

    /// Makes `new_id` the local identifier and files every known peer
    /// afresh around it, in the order of `get_nodes`: a peer that now is
    /// the local node, or finds its new bucket full, is forgotten.
    pub fn set_own_id(&mut self, new_id: NodeId)
        requires
            old(self).wf(),
        ensures
            final(self).wf(),
            final(self)@ == TableView::empty(new_id).add_all(old(self)@.nodes()),
    {
        let all = self.get_nodes();
        *self = KBuckets::new(new_id);
        self.add_all(&all);
    }
}

} // verus!
