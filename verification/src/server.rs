//! Request correlation: which requests are outstanding, whom they were sent
//! to, and what becomes of each datagram that comes in.

use vstd::prelude::*;
use crate::id::Cookie;
use crate::node::{Address, Node};
use crate::clock::{expiry_at, later};
use crate::seqs::{in_order, lemma_without, without};

verus! {

/// An outstanding request.
pub struct PendingView {
    pub cookie: Cookie,
    pub waiter: u64,
    pub peer: Node,
    pub deadline: u64,
    pub remaining: usize,
    pub responders: Seq<Address>,
}

/// What becomes of a datagram.
#[derive(Clone, Copy, Debug, PartialEq, Eq)]
pub enum Delivery {
    /// It answers an outstanding request of `waiter`, sent to `peer`.
    Response { waiter: u64, peer: Node },
    /// It repeats an answer that was delivered before, and is dropped.
    Duplicate,
    /// Nobody waits for it: it is a request or an event of its own.
    Unsolicited,
}

/// A request that went unanswered until its deadline.
#[derive(Clone, Copy, Debug, PartialEq, Eq)]
pub struct Expired {
    pub cookie: Cookie,
    pub waiter: u64,
    pub peer: Node,
}

/// Position of the request with `cookie` in `s`, or the length of `s` when
/// there is none.
pub open spec fn cookie_index(s: Seq<PendingView>, cookie: Cookie) -> int
    decreases s.len(),
{
    if s.len() == 0 {
        0
    } else if s[0].cookie == cookie {
        0
    } else {
        1 + cookie_index(s.skip(1), cookie)
    }
}

/// `cookie_index` names the request with `cookie`, unless there is none,
/// and no request before it has that cookie.
pub proof fn lemma_cookie_index(s: Seq<PendingView>, cookie: Cookie)
    ensures
        0 <= cookie_index(s, cookie) <= s.len(),
        cookie_index(s, cookie) < s.len() ==> s[cookie_index(s, cookie)].cookie == cookie,
        forall|j: int| 0 <= j < cookie_index(s, cookie) ==> (#[trigger] s[j]).cookie != cookie,
    decreases s.len(),
{
    if s.len() > 0 && s[0].cookie != cookie {
        let t = s.skip(1);
        lemma_cookie_index(t, cookie);
        assert forall|j: int| 0 <= j < cookie_index(s, cookie) implies (#[trigger] s[j]).cookie
            != cookie by {
            if j > 0 {
                assert(t[j - 1] == s[j]);
            }
        }
    }
}

/// The invariants of the table: one request per cookie, each still owed an
/// answer.
pub open spec fn pending_valid(s: Seq<PendingView>) -> bool {
    &&& forall|i: int, j: int|
        0 <= i < j < s.len() ==> (#[trigger] s[i]).cookie != (#[trigger] s[j]).cookie
    &&& forall|i: int| 0 <= i < s.len() ==> (#[trigger] s[i]).remaining > 0
}

/// How many answers the request with `cookie` is still owed; none when no
/// such request is outstanding.
pub open spec fn owed(s: Seq<PendingView>, cookie: Cookie) -> int {
    let p = cookie_index(s, cookie);
    if p < s.len() {
        s[p].remaining as int
    } else {
        0
    }
}

/// What becomes of a datagram with `cookie` that comes from `src`.
pub open spec fn delivery(s: Seq<PendingView>, cookie: Cookie, src: Address) -> Delivery {
    let p = cookie_index(s, cookie);
    if p >= s.len() {
        Delivery::Unsolicited
    } else if s[p].responders.contains(src) {
        Delivery::Duplicate
    } else {
        Delivery::Response { waiter: s[p].waiter, peer: s[p].peer }
    }
}

/// The table after a datagram with `cookie` came from `src`: a delivered
/// answer is counted, and the request leaves once it is owed no more.
pub open spec fn received(s: Seq<PendingView>, cookie: Cookie, src: Address) -> Seq<PendingView> {
    let p = cookie_index(s, cookie);
    if p < s.len() && !s[p].responders.contains(src) {
        if s[p].remaining <= 1 {
            s.remove(p)
        } else {
            s.update(
                p,
                PendingView {
                    remaining: (s[p].remaining - 1) as usize,
                    responders: s[p].responders.push(src),
                    ..s[p]
                },
            )
        }
    } else {
        s
    }
}

/// The table after a request was registered; one whose cookie is in use,
/// or that expects no answer, is not taken.
pub open spec fn registered(s: Seq<PendingView>, p: PendingView) -> Seq<PendingView> {
    if cookie_index(s, p.cookie) < s.len() || p.remaining == 0 {
        s
    } else {
        s.push(p)
    }
}

/// The requests whose deadline has come at `now`.
pub open spec fn due(now: u64) -> spec_fn(PendingView) -> bool {
    |p: PendingView| p.deadline <= now
}

/// The requests that may still be answered at `now`.
pub open spec fn not_due(now: u64) -> spec_fn(PendingView) -> bool {
    |p: PendingView| p.deadline > now
}

/// The notice that the request `p` went unanswered.
pub open spec fn expired_of(p: PendingView) -> Expired {
    Expired { cookie: p.cookie, waiter: p.waiter, peer: p.peer }
}

/// What happens to the table: a datagram comes in, or time moves on.
pub enum Event {
    Datagram { cookie: Cookie, src: Address },
    Tick { now: u64 },
}

/// The table after `e`.
pub open spec fn after(s: Seq<PendingView>, e: Event) -> Seq<PendingView> {
    match e {
        Event::Datagram { cookie, src } => received(s, cookie, src),
        Event::Tick { now } => without(s, due(now)),
    }
}

/// How often `e` resolves the request with `cookie`: once if it is a
/// datagram that is delivered as its answer, once if it is the tick at
/// which the request times out.
pub open spec fn resolved_by(s: Seq<PendingView>, e: Event, cookie: Cookie) -> int {
    match e {
        Event::Datagram { cookie: c, src } => if c == cookie && delivery(s, c, src) is Response {
            1
        } else {
            0
        },
        Event::Tick { now } => if cookie_index(s, cookie) < s.len() && s[cookie_index(
            s,
            cookie,
        )].deadline <= now {
            1
        } else {
            0
        },
    }
}

/// How often the events `events`, taken in order, resolve the request with
/// `cookie`.
pub open spec fn resolutions(s: Seq<PendingView>, events: Seq<Event>, cookie: Cookie) -> int
    decreases events.len(),
{
    if events.len() == 0 {
        0
    } else {
        resolved_by(s, events[0], cookie) + resolutions(
            after(s, events[0]),
            events.skip(1),
            cookie,
        )
    }
}

/// One datagram leaves a valid table valid, takes one from what its own
/// request is owed exactly when it is delivered, and leaves every other
/// request as it is.
pub proof fn lemma_received(s: Seq<PendingView>, cookie: Cookie, src: Address, other: Cookie)
    requires
        pending_valid(s),
    ensures
        pending_valid(received(s, cookie, src)),
        owed(received(s, cookie, src), cookie) == owed(s, cookie) - if delivery(s, cookie, src) is Response {
            1int
        } else {
            0int
        },
        other != cookie ==> owed(received(s, cookie, src), other) == owed(s, other),
        delivery(s, cookie, src) is Response ==> owed(s, cookie) > 0,
{
    let p = cookie_index(s, cookie);
    let r = received(s, cookie, src);
    lemma_cookie_index(s, cookie);
    lemma_cookie_index(s, other);
    lemma_cookie_index(r, cookie);
    lemma_cookie_index(r, other);
    if p < s.len() && !s[p].responders.contains(src) {
        let q = cookie_index(s, other);
        let rq = cookie_index(r, other);
        let rp = cookie_index(r, cookie);
        if s[p].remaining <= 1 {
            assert forall|i: int, j: int| 0 <= i < j < r.len() implies (#[trigger] r[i]).cookie != (
            #[trigger] r[j]).cookie by {
                let oi = if i < p { i } else { i + 1 };
                let oj = if j < p { j } else { j + 1 };
                assert(r[i] == s[oi] && r[j] == s[oj]);
            }
            assert forall|i: int| 0 <= i < r.len() implies (#[trigger] r[i]).remaining > 0 by {
                let oi = if i < p { i } else { i + 1 };
                assert(r[i] == s[oi]);
            }
            if rp < r.len() {
                let o = if rp < p { rp } else { rp + 1 };
                assert(r[rp] == s[o]);
                assert(s[o].cookie == s[p].cookie);
                assert(false);
            }
            if other != cookie {
                if q < s.len() {
                    let nq = if q < p { q } else { q - 1 };
                    assert(r[nq] == s[q]);
                    if rq < nq {
                        let o = if rq < p { rq } else { rq + 1 };
                        assert(r[rq] == s[o]);
                    }
                    assert(rq == nq);
                } else if rq < r.len() {
                    let o = if rq < p { rq } else { rq + 1 };
                    assert(r[rq] == s[o]);
                    assert(false);
                }
            }
        } else {
            assert forall|i: int, j: int| 0 <= i < j < r.len() implies (#[trigger] r[i]).cookie != (
            #[trigger] r[j]).cookie by {
                assert(r[i].cookie == s[i].cookie && r[j].cookie == s[j].cookie);
            }
            assert forall|i: int| 0 <= i < r.len() implies (#[trigger] r[i]).remaining > 0 by {
                if i != p {
                    assert(r[i] == s[i]);
                }
            }
            assert(r[p].cookie == cookie);
            if rp < p {
                assert(r[rp].cookie == s[rp].cookie);
            }
            assert(rp == p);
            if other != cookie {
                if q < s.len() {
                    assert(r[q].cookie == s[q].cookie);
                    if rq < q {
                        assert(r[rq].cookie == s[rq].cookie);
                    }
                    assert(rq == q);
                    assert(q != p);
                    assert(r[q] == s[q]);
                } else if rq < r.len() {
                    assert(r[rq].cookie == s[rq].cookie);
                    assert(false);
                }
            }
        }
    }
}

/// A tick leaves a valid table valid. A request whose deadline has come
/// leaves the table and is owed nothing more; every other request stays as
/// it is.
pub proof fn lemma_expired(s: Seq<PendingView>, now: u64, cookie: Cookie)
    requires
        pending_valid(s),
    ensures
        pending_valid(without(s, due(now))),
        owed(without(s, due(now)), cookie) == if resolved_by(s, Event::Tick { now }, cookie) == 1 {
            0
        } else {
            owed(s, cookie)
        },
        resolved_by(s, Event::Tick { now }, cookie) == 1 ==> owed(s, cookie) > 0,
{
    let r = without(s, due(now));
    let p = cookie_index(s, cookie);
    let q = cookie_index(r, cookie);
    lemma_without_pending(s, due(now));
    lemma_without(s, due(now));
    lemma_cookie_index(s, cookie);
    lemma_cookie_index(r, cookie);
    if q < r.len() {
        assert(s.contains(r[q]));
        let k = choose|k: int| 0 <= k < s.len() && s[k] == r[q];
        assert(s[k].cookie == cookie);
        assert(k == p);
        assert(!due(now)(r[q]));
    } else if p < s.len() && s[p].deadline > now {
        assert(!due(now)(s[p]));
        assert(r.contains(s[p]));
        let k = choose|k: int| 0 <= k < r.len() && r[k] == s[p];
        assert(r[k].cookie == cookie);
        assert(false);
    }
}

/// Cookie correlation: whatever datagrams come in, from wherever, and
/// however time moves on, a request is resolved at most as often as it is
/// owed an answer: a request that expects one answer is resolved at most
/// once, by that answer or by its timeout, and never once it has left the
/// table. An answer is delivered only to a request with the cookie that the
/// answer carries.
pub proof fn lemma_resolutions_bounded(s: Seq<PendingView>, events: Seq<Event>, cookie: Cookie)
    requires
        pending_valid(s),
    ensures
        0 <= resolutions(s, events, cookie) <= owed(s, cookie),
    decreases events.len(),
{
    lemma_cookie_index(s, cookie);
    if events.len() > 0 {
        match events[0] {
            Event::Datagram { cookie: c, src } => {
                lemma_received(s, c, src, cookie);
            },
            Event::Tick { now } => {
                lemma_expired(s, now, cookie);
            },
        }
        lemma_resolutions_bounded(after(s, events[0]), events.skip(1), cookie);
    }
}

/// Dropping requests keeps the table valid.
pub proof fn lemma_without_pending(s: Seq<PendingView>, gone: spec_fn(PendingView) -> bool)
    requires
        pending_valid(s),
    ensures
        pending_valid(without(s, gone)),
{
    let r = without(s, gone);
    lemma_without(s, gone);
    assert forall|i: int, j: int| 0 <= i < j < r.len() implies (#[trigger] r[i]).cookie != (
    #[trigger] r[j]).cookie by {
        assert(in_order(s, r[i], r[j]));
    }
    assert forall|i: int| 0 <= i < r.len() implies (#[trigger] r[i]).remaining > 0 by {
        assert(s.contains(r[i]));
    }
}

/// Whether `v` holds the address `a`.
fn contains_address(v: &Vec<Address>, a: Address) -> (r: bool)
    ensures
        r == v@.contains(a),
{
    let mut i: usize = 0;
    while i < v.len()
        invariant
            i <= v.len(),
            forall|j: int| 0 <= j < i ==> v[j] != a,
        decreases v.len() - i,
    {
        if v[i] == a {
            return true;
        }
        i += 1;
    }
    false
}

/// One outstanding request as the table keeps it.
struct Pending {
    cookie: Cookie,
    waiter: u64,
    peer: Node,
    deadline: u64,
    remaining: usize,
    responders: Vec<Address>,
}

impl View for Pending {
    type V = PendingView;

    closed spec fn view(&self) -> PendingView {
        PendingView {
            cookie: self.cookie,
            waiter: self.waiter,
            peer: self.peer,
            deadline: self.deadline,
            remaining: self.remaining,
            responders: self.responders@,
        }
    }
}

/// The table of outstanding requests.
pub struct Server {
    pending: Vec<Pending>,
}

impl View for Server {
    type V = Seq<PendingView>;

    closed spec fn view(&self) -> Seq<PendingView> {
        Seq::new(self.pending@.len(), |i: int| self.pending@[i]@)
    }
}

impl Server {
    /// Whether the table keeps its invariants.
    pub open spec fn wf(&self) -> bool {
        pending_valid(self@)
    }

    /// A table with nothing outstanding.
    pub fn new() -> (s: Server)
        ensures
            s.wf(),
            s@ == Seq::<PendingView>::empty(),
    {
        let s = Server { pending: Vec::new() };
        proof {
            assert(s@ =~= Seq::<PendingView>::empty());
        }
        s
    }

    /// How many requests are outstanding.
    pub fn outstanding(&self) -> (n: usize)
        ensures
            n == self@.len(),
    {
        self.pending.len()
    }

    /// Where the request with `cookie` stands: its position, or the number
    /// of requests when it is not outstanding.
    fn position(&self, cookie: &Cookie) -> (p: usize)
        ensures
            p == cookie_index(self@, *cookie),
            p <= self.pending.len(),
    {
        let mut i: usize = 0;
        while i < self.pending.len()
            invariant
                i <= self.pending.len(),
                forall|j: int| 0 <= j < i ==> (#[trigger] self@[j]).cookie != *cookie,
            decreases self.pending.len() - i,
        {
            if self.pending[i].cookie == *cookie {
                proof {
                    lemma_cookie_index(self@, *cookie);
                    assert(self@[i as int].cookie == *cookie);
                }
                return i;
            }
            i += 1;
        }
        proof {
            lemma_cookie_index(self@, *cookie);
        }
        i
    }

    /// Notes that `waiter` has sent a request under `cookie` to `peer` at
    /// `now` and expects `expected` answers within `timeout_ms`. A cookie
    /// that is in use is not taken, nor a request that expects no answer.
    pub fn register(
        &mut self,
        cookie: Cookie,
        waiter: u64,
        peer: Node,
        expected: usize,
        now: u64,
        timeout_ms: u32,
    ) -> (taken: bool)
        requires
            old(self).wf(),
        ensures
            final(self).wf(),
            taken == (cookie_index(old(self)@, cookie) >= old(self)@.len() && expected > 0),
            final(self)@ == registered(
                old(self)@,
                PendingView {
                    cookie,
                    waiter,
                    peer,
                    deadline: expiry_at(now, timeout_ms as u64),
                    remaining: expected,
                    responders: Seq::empty(),
                },
            ),
    {
        let p = self.position(&cookie);
        if p < self.pending.len() || expected == 0 {
            return false;
        }
        let deadline = later(now, timeout_ms as u64);
        let entry = Pending {
            cookie,
            waiter,
            peer,
            deadline,
            remaining: expected,
            responders: Vec::new(),
        };
        let ghost e = entry@;
        self.pending.push(entry);
        proof {
            lemma_cookie_index(old(self)@, cookie);
            assert(self@ =~= old(self)@.push(e));
            assert forall|i: int, j: int| 0 <= i < j < self@.len() implies (
            #[trigger] self@[i]).cookie != (#[trigger] self@[j]).cookie by {
                assert(self@[i] == old(self)@[i]);
                if j < old(self)@.len() {
                    assert(self@[j] == old(self)@[j]);
                }
            }
            assert forall|i: int| 0 <= i < self@.len() implies (#[trigger] self@[i]).remaining
                > 0 by {
                if i < old(self)@.len() {
                    assert(self@[i] == old(self)@[i]);
                }
            }
        }
        true
    }

    /// Decides what becomes of a datagram with `cookie` that came from
    /// `src`. An answer to an outstanding request goes to its waiter, once
    /// per sender; the request leaves the table with the last answer it
    /// expects.
    pub fn dispatch(&mut self, cookie: &Cookie, src: Address) -> (r: Delivery)
        requires
            old(self).wf(),
        ensures
            final(self).wf(),
            r == delivery(old(self)@, *cookie, src),
            final(self)@ == received(old(self)@, *cookie, src),
    {
        proof {
            lemma_received(self@, *cookie, src, *cookie);
        }
        let p = self.position(cookie);
        if p >= self.pending.len() {
            return Delivery::Unsolicited;
        }
        if contains_address(&self.pending[p].responders, src) {
            return Delivery::Duplicate;
        }
        let waiter = self.pending[p].waiter;
        let peer = self.pending[p].peer;
        if self.pending[p].remaining <= 1 {
            self.pending.remove(p);
            proof {
                assert(self@ =~= received(old(self)@, *cookie, src));
            }
        } else {
            let left = self.pending[p].remaining - 1;
            self.pending[p].remaining = left;
            self.pending[p].responders.push(src);
            proof {
                assert(self@ =~= received(old(self)@, *cookie, src));
            }
        }
        Delivery::Response { waiter, peer }
    }

    /// Drops the requests whose deadline has come at `now` and names them,
    /// oldest first: each counts as answered by a timeout.
    pub fn expire(&mut self, now: u64) -> (r: Vec<Expired>)
        requires
            old(self).wf(),
        ensures
            final(self).wf(),
            final(self)@ == without(old(self)@, due(now)),
            r@ == without(old(self)@, not_due(now)).map_values(|p: PendingView| expired_of(p)),
    {
        let ghost leave = due(now);
        let ghost keep = not_due(now);
        let ghost mut dropped: Seq<PendingView> = Seq::empty();
        let mut out: Vec<Expired> = Vec::new();
        let mut i: usize = 0;
        proof {
            assert(self@.skip(0) =~= self@);
            assert(self@.take(0) + without(self@, leave) =~= without(self@, leave));
            assert(dropped + without(self@, keep) =~= without(self@, keep));
            assert(out@ =~= dropped.map_values(|p: PendingView| expired_of(p)));
        }
        while i < self.pending.len()
            invariant
                i <= self.pending.len(),
                leave == due(now),
                keep == not_due(now),
                without(old(self)@, leave) == self@.take(i as int) + without(
                    self@.skip(i as int),
                    leave,
                ),
                without(old(self)@, keep) == dropped + without(self@.skip(i as int), keep),
                out@ == dropped.map_values(|p: PendingView| expired_of(p)),
            decreases self.pending.len() - i,
        {
            let ghost prev = self@;
            proof {
                assert(prev.skip(i as int)[0] == prev[i as int]);
                assert(prev.skip(i as int).skip(1) =~= prev.skip(i + 1));
            }
            if self.pending[i].deadline <= now {
                let gone = self.pending.remove(i);
                out.push(Expired { cookie: gone.cookie, waiter: gone.waiter, peer: gone.peer });
                proof {
                    assert(self@ =~= prev.remove(i as int));
                    assert(self@.take(i as int) =~= prev.take(i as int));
                    assert(self@.skip(i as int) =~= prev.skip(i + 1));
                    assert(dropped.push(prev[i as int]) + without(prev.skip(i + 1), keep) =~= dropped
                        + (seq![prev[i as int]] + without(prev.skip(i + 1), keep)));
                    assert(out@ =~= dropped.push(prev[i as int]).map_values(
                        |p: PendingView| expired_of(p),
                    ));
                    dropped = dropped.push(prev[i as int]);
                }
            } else {
                proof {
                    assert(prev.take(i + 1) + without(prev.skip(i + 1), leave) =~= prev.take(
                        i as int,
                    ) + (seq![prev[i as int]] + without(prev.skip(i + 1), leave)));
                }
                i += 1;
            }
        }
        proof {
            assert(self@.skip(i as int) =~= Seq::<PendingView>::empty());
            assert(self@.take(i as int) =~= self@);
            assert(self@ =~= without(old(self)@, leave));
            assert(dropped =~= without(old(self)@, keep));
            lemma_without_pending(old(self)@, leave);
        }
        out
    }
}

} // verus!
