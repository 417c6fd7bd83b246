//! Peer records.

use vstd::prelude::*;
use vstd::std_specs::cmp::PartialEqSpecImpl;
use crate::id::NodeId;

verus! {

/// Where a peer can be reached: the plain content of a socket address.
#[derive(Clone, Copy, Debug, PartialEq, Eq, Hash, Structural)]
pub enum Address {
    V4 { host: u32, port: u16 },
    V6 { host6: u128, port: u16, flowinfo: u32, scope_id: u32 },
}

/// A known peer: its identifier, where it was last heard from, and when,
/// in milliseconds on the local monotonic clock.
#[derive(Clone, Copy, Debug, Hash)]
pub struct Node {
    pub addr: Address,
    pub node_id: NodeId,
    pub last_seen: u64,
}

impl PartialEq for Node {
    /// Two records name the same peer when their identifiers agree; the
    /// address and the time are informational.
    fn eq(&self, other: &Node) -> (r: bool) {
        self.node_id == other.node_id
    }
}

impl PartialEqSpecImpl for Node {
    open spec fn obeys_eq_spec() -> bool {
        true
    }

    open spec fn eq_spec(&self, other: &Node) -> bool {
        self.node_id == other.node_id
    }
}

impl Eq for Node {}

impl Node {
    /// A record of the peer `node_id` at `addr`, seen at `now`.
    pub fn new(addr: Address, node_id: NodeId, now: u64) -> (n: Node)
        ensures
            n == (Node { addr, node_id, last_seen: now }),
    {
        Node { addr, node_id, last_seen: now }
    }

    /// Notes that the peer was heard from at `now`.
    pub fn update_last_seen(&mut self, now: u64)
        ensures
            *final(self) == (Node { last_seen: now, ..*old(self) }),
    {
        self.last_seen = now;
    }
}

/// Whether some record in `s` carries the identifier `id`.
pub open spec fn has_id(s: Seq<Node>, id: NodeId) -> bool {
    exists|i: int| 0 <= i < s.len() && #[trigger] s[i].node_id == id
}

/// Whether no identifier occurs twice in `s`.
pub open spec fn distinct_ids(s: Seq<Node>) -> bool {
    forall|i: int, j: int| 0 <= i < j < s.len() ==> s[i].node_id != s[j].node_id
}

/// Position of the first record in `s` that carries `id`, or the length of
/// `s` when there is none.
pub open spec fn index_of_id(s: Seq<Node>, id: NodeId) -> int
    decreases s.len(),
{
    if s.len() == 0 {
        0
    } else if s[0].node_id == id {
        0
    } else {
        1 + index_of_id(s.skip(1), id)
    }
}

/// `index_of_id` names a record of `id`, unless there is none, and no
/// record before it is one.
pub proof fn lemma_index_of_id(s: Seq<Node>, id: NodeId)
    ensures
        0 <= index_of_id(s, id) <= s.len(),
        index_of_id(s, id) < s.len() ==> s[index_of_id(s, id)].node_id == id,
        forall|j: int| 0 <= j < index_of_id(s, id) ==> s[j].node_id != id,
        index_of_id(s, id) < s.len() <==> has_id(s, id),
    decreases s.len(),
{
    if s.len() > 0 && s[0].node_id != id {
        let t = s.skip(1);
        lemma_index_of_id(t, id);
        assert forall|j: int| 0 <= j < index_of_id(s, id) implies s[j].node_id != id by {
            if j > 0 {
                assert(t[j - 1] == s[j]);
            }
        }
        if has_id(s, id) {
            let i = choose|i: int| 0 <= i < s.len() && #[trigger] s[i].node_id == id;
            assert(t[i - 1].node_id == id);
        }
        if has_id(t, id) {
            let i = choose|i: int| 0 <= i < t.len() && #[trigger] t[i].node_id == id;
            assert(s[i + 1].node_id == id);
        }
    }
}

/// Looks `id` up in `v`: the position of its first record, if it has one.
pub fn position_of(v: &Vec<Node>, id: &NodeId) -> (r: Option<usize>)
    ensures
        r is Some <==> has_id(v@, *id),
        r matches Some(i) ==> i == index_of_id(v@, *id) && i < v.len(),
{
    let mut i: usize = 0;
    while i < v.len()
        invariant
            i <= v.len(),
            forall|j: int| 0 <= j < i ==> v[j].node_id != *id,
        decreases v.len() - i,
    {
        if v[i].node_id == *id {
            proof {
                lemma_index_of_id(v@, *id);
            }
            return Some(i);
        }
        i += 1;
    }
    proof {
        lemma_index_of_id(v@, *id);
    }
    None
}

/// `rand::random` for an array of twenty bytes, drawn from the thread's
/// generator. Nothing is claimed of the bytes that come back.
#[verifier::external_body]
fn random_bytes() -> (bytes: [u8; 20]) {
    rand::random::<[u8; 20]>()
}

impl Node {
    /// A fresh identifier, drawn at random.
    pub fn generate_id() -> (id: NodeId)
        ensures
            id@.len() == 20,
    {
        NodeId::new(random_bytes())
    }
}

/// `s` with `x` put behind the last record that was seen no later than `x`.
pub open spec fn insert_by_age(s: Seq<Node>, x: Node) -> Seq<Node>
    decreases s.len(),
{
    if s.len() == 0 {
        seq![x]
    } else if s.last().last_seen <= x.last_seen {
        s.push(x)
    } else {
        insert_by_age(s.drop_last(), x).push(s.last())
    }
}

/// The records of `s` from the one seen longest ago to the one seen last;
/// records seen at the same time keep their order.
pub open spec fn stalest_first(s: Seq<Node>) -> Seq<Node>
    decreases s.len(),
{
    if s.len() == 0 {
        s
    } else {
        insert_by_age(stalest_first(s.drop_last()), s.last())
    }
}

/// Whether `s` runs from the record seen longest ago to the one seen last.
pub open spec fn sorted_by_age(s: Seq<Node>) -> bool {
    forall|i: int, j: int| 0 <= i < j < s.len() ==> s[i].last_seen <= s[j].last_seen
}

/// Where `insert_by_age` puts `x`: at `p`, when the records from `p` on
/// were all seen later than `x` and the one before `p` was not.
pub proof fn lemma_insert_by_age_at(s: Seq<Node>, x: Node, p: int)
    requires
        0 <= p <= s.len(),
        forall|j: int| p <= j < s.len() ==> s[j].last_seen > x.last_seen,
        p > 0 ==> s[p - 1].last_seen <= x.last_seen,
    ensures
        insert_by_age(s, x) == s.insert(p, x),
    decreases s.len(),
{
    if s.len() == 0 {
        assert(seq![x] =~= s.insert(0, x));
    } else if p == s.len() {
        assert(s.push(x) =~= s.insert(p, x));
    } else {
        let t = s.drop_last();
        assert forall|j: int| p <= j < t.len() implies t[j].last_seen > x.last_seen by {
            assert(t[j] == s[j]);
        }
        if p > 0 {
            assert(t[p - 1] == s[p - 1]);
        }
        lemma_insert_by_age_at(t, x, p);
        assert(t.insert(p, x).push(s.last()) =~= s.insert(p, x));
    }
}

/// Inserting by age keeps the order by age and adds exactly the new record.
pub proof fn lemma_insert_by_age(s: Seq<Node>, x: Node)
    requires
        sorted_by_age(s),
    ensures
        sorted_by_age(insert_by_age(s, x)),
        insert_by_age(s, x).to_multiset() == s.to_multiset().insert(x),
        insert_by_age(s, x).len() == s.len() + 1,
    decreases s.len(),
{
    broadcast use vstd::seq_lib::group_to_multiset_ensures;

    let r = insert_by_age(s, x);
    if s.len() == 0 {
        assert(seq![x] =~= s.push(x));
    } else if s.last().last_seen <= x.last_seen {
        assert forall|i: int, j: int| 0 <= i < j < r.len() implies r[i].last_seen
            <= r[j].last_seen by {
            if j == s.len() && i < s.len() - 1 {
                assert(s[i].last_seen <= s[s.len() - 1].last_seen);
            }
        }
    } else {
        let t = s.drop_last();
        let rt = insert_by_age(t, x);
        assert forall|i: int, j: int| 0 <= i < j < t.len() implies t[i].last_seen
            <= t[j].last_seen by {
            assert(t[i] == s[i] && t[j] == s[j]);
        }
        lemma_insert_by_age(t, x);
        assert(s =~= t.push(s.last()));
        assert forall|i: int, j: int| 0 <= i < j < r.len() implies r[i].last_seen
            <= r[j].last_seen by {
            if j == rt.len() {
                assert(rt.to_multiset().count(rt[i]) > 0);
                assert(rt[i] == x || t.to_multiset().count(rt[i]) > 0);
                if rt[i] != x {
                    assert(t.contains(rt[i]));
                    let k = choose|k: int| 0 <= k < t.len() && t[k] == rt[i];
                    assert(s[k].last_seen <= s[s.len() - 1].last_seen);
                }
            } else {
                assert(rt[i] == r[i] && rt[j] == r[j]);
            }
        }
        assert(r.to_multiset() =~= s.to_multiset().insert(x));
    }
}

/// Sorting by age gives the same records, each as often as before, in
/// order of age.
pub proof fn lemma_stalest_first(s: Seq<Node>)
    ensures
        sorted_by_age(stalest_first(s)),
        stalest_first(s).to_multiset() == s.to_multiset(),
        stalest_first(s).len() == s.len(),
    decreases s.len(),
{
    broadcast use vstd::seq_lib::group_to_multiset_ensures;

    if s.len() > 0 {
        lemma_stalest_first(s.drop_last());
        lemma_insert_by_age(stalest_first(s.drop_last()), s.last());
        assert(s =~= s.drop_last().push(s.last()));
    }
}

/// The records of `v` from the one seen longest ago to the one seen last.
pub fn sort_by_last_seen(v: &Vec<Node>) -> (r: Vec<Node>)
    ensures
        r@ == stalest_first(v@),
        sorted_by_age(r@),
        r@.to_multiset() == v@.to_multiset(),
{
    let mut out: Vec<Node> = Vec::new();
    let mut i: usize = 0;
    while i < v.len()
        invariant
            i <= v.len(),
            out@ == stalest_first(v@.take(i as int)),
            out.len() == i,
        decreases v.len() - i,
    {
        let x = v[i];
        let mut p: usize = out.len();
        while p > 0 && out[p - 1].last_seen > x.last_seen
            invariant
                p <= out.len(),
                forall|j: int| p <= j < out.len() ==> out[j].last_seen > x.last_seen,
            decreases p,
        {
            p -= 1;
        }
        proof {
            lemma_insert_by_age_at(out@, x, p as int);
            assert(v@.take(i + 1).drop_last() =~= v@.take(i as int));
        }
        out.insert(p, x);
        i += 1;
    }
    proof {
        assert(v@.take(v.len() as int) =~= v@);
        lemma_stalest_first(v@);
    }
    out
}

} // verus!
