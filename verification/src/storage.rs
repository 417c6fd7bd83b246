//! The two tiers of the value store: what this node owns, and what other
//! nodes have asked it to hold for a while.

use vstd::prelude::*;
use crate::clock::{expiry_at, later};
use crate::id::NodeId;
use crate::seqs::{in_order, lemma_without, lemma_without_push, without};
use crate::values::{bytes_equal, copy_bytes, values_view};

verus! {

/// One stored value under its key.
pub struct Binding {
    pub key: NodeId,
    pub value: Seq<u8>,
}

/// One value held for another node, with the time at which it lapses.
pub struct TimedBinding {
    pub key: NodeId,
    pub value: Seq<u8>,
    pub expiry: u64,
}

/// The values stored under `key`, in the order in which they came.
pub open spec fn values_for(s: Seq<Binding>, key: NodeId) -> Seq<Seq<u8>>
    decreases s.len(),
{
    if s.len() == 0 {
        Seq::empty()
    } else if s.last().key == key {
        values_for(s.drop_last(), key).push(s.last().value)
    } else {
        values_for(s.drop_last(), key)
    }
}

/// `s` with `b` stored: appended unless it is there already.
pub open spec fn stored(s: Seq<Binding>, b: Binding) -> Seq<Binding> {
    if s.contains(b) {
        s
    } else {
        s.push(b)
    }
}

/// Whether every value in `s` has at most `max` bytes.
pub open spec fn bindings_within(s: Seq<Binding>, max: int) -> bool {
    forall|i: int| 0 <= i < s.len() ==> (#[trigger] s[i]).value.len() <= max
}

/// `values_for` holds exactly the values bound to `key`.
pub proof fn lemma_values_for(s: Seq<Binding>, key: NodeId)
    ensures
        forall|v: Seq<u8>| values_for(s, key).contains(v) <==> s.contains(Binding { key, value: v }),
        s.no_duplicates() ==> values_for(s, key).no_duplicates(),
    decreases s.len(),
{
    let r = values_for(s, key);
    if s.len() > 0 {
        let t = s.drop_last();
        let rt = values_for(t, key);
        lemma_values_for(t, key);
        assert forall|v: Seq<u8>| r.contains(v) <==> s.contains(Binding { key, value: v }) by {
            let b = Binding { key, value: v };
            if r.contains(v) {
                let k = choose|k: int| 0 <= k < r.len() && r[k] == v;
                if k < rt.len() {
                    assert(rt[k] == v);
                    assert(rt.contains(v));
                    assert(t.contains(b));
                    let m = choose|m: int| 0 <= m < t.len() && t[m] == b;
                    assert(s[m] == b);
                } else {
                    assert(s[s.len() - 1] == b);
                }
            }
            if s.contains(b) {
                let m = choose|m: int| 0 <= m < s.len() && s[m] == b;
                if m < t.len() {
                    assert(t[m] == b);
                    assert(t.contains(b));
                    assert(rt.contains(v));
                    let k = choose|k: int| 0 <= k < rt.len() && rt[k] == v;
                    assert(r[k] == v);
                } else {
                    assert(r[r.len() - 1] == v);
                }
            }
        }
        if s.no_duplicates() {
            assert forall|i: int, j: int| 0 <= i < j < t.len() implies t[i] != t[j] by {
                assert(t[i] == s[i] && t[j] == s[j]);
            }
            if s.last().key == key {
                if rt.contains(s.last().value) {
                    assert(t.contains(s.last()));
                    let m = choose|m: int| 0 <= m < t.len() && t[m] == s.last();
                    assert(s[m] == s[s.len() - 1]);
                }
                assert forall|i: int, j: int| 0 <= i < j < r.len() implies r[i] != r[j] by {
                    if j == rt.len() {
                        assert(rt[i] == r[i]);
                        assert(rt.contains(r[i]));
                    } else {
                        assert(rt[i] == r[i] && rt[j] == r[j]);
                    }
                }
            }
        }
    }
}

/// Position of the first entry of `s` for `value` under `key`, or the
/// length of `s` when there is none.
pub open spec fn timed_index(s: Seq<TimedBinding>, key: NodeId, value: Seq<u8>) -> int
    decreases s.len(),
{
    if s.len() == 0 {
        0
    } else if s[0].key == key && s[0].value == value {
        0
    } else {
        1 + timed_index(s.skip(1), key, value)
    }
}

/// `timed_index` names the entry of `value` under `key`, unless there is
/// none, and no entry before it is one.
pub proof fn lemma_timed_index(s: Seq<TimedBinding>, key: NodeId, value: Seq<u8>)
    ensures
        0 <= timed_index(s, key, value) <= s.len(),
        timed_index(s, key, value) < s.len() ==> s[timed_index(s, key, value)].key == key
            && s[timed_index(s, key, value)].value == value,
        forall|j: int|
            0 <= j < timed_index(s, key, value) ==> !((#[trigger] s[j]).key == key && s[j].value
                == value),
    decreases s.len(),
{
    if s.len() > 0 && !(s[0].key == key && s[0].value == value) {
        let t = s.skip(1);
        lemma_timed_index(t, key, value);
        assert forall|j: int| 0 <= j < timed_index(s, key, value) implies !((#[trigger] s[j]).key
            == key && s[j].value == value) by {
            if j > 0 {
                assert(t[j - 1] == s[j]);
            }
        }
    }
}

/// Whether `s` holds no value twice under one key.
pub open spec fn timed_unique(s: Seq<TimedBinding>) -> bool {
    forall|i: int, j: int|
        0 <= i < j < s.len() ==> !((#[trigger] s[i]).key == (#[trigger] s[j]).key && s[i].value
            == s[j].value)
}

/// `s` after `value` was stored under `key` to lapse at `expiry`: an entry
/// that is there already gets the new time, else one is appended.
pub open spec fn timed_stored(
    s: Seq<TimedBinding>,
    key: NodeId,
    value: Seq<u8>,
    expiry: u64,
) -> Seq<TimedBinding> {
    let p = timed_index(s, key, value);
    let e = TimedBinding { key, value, expiry };
    if p < s.len() {
        s.update(p, e)
    } else {
        s.push(e)
    }
}

/// The values under `key` that have not lapsed at `now`, in the order in
/// which they first came.
pub open spec fn live_values(s: Seq<TimedBinding>, key: NodeId, now: u64) -> Seq<Seq<u8>>
    decreases s.len(),
{
    if s.len() == 0 {
        Seq::empty()
    } else if s.last().key == key && now <= s.last().expiry {
        live_values(s.drop_last(), key, now).push(s.last().value)
    } else {
        live_values(s.drop_last(), key, now)
    }
}

/// `s` without what has lapsed at `now`.
pub open spec fn swept(s: Seq<TimedBinding>, now: u64) -> Seq<TimedBinding> {
    without(s, lapsed(now))
}

/// Whether every value in `s` has at most `max` bytes.
pub open spec fn timed_within(s: Seq<TimedBinding>, max: int) -> bool {
    forall|i: int| 0 <= i < s.len() ==> (#[trigger] s[i]).value.len() <= max
}

/// `live_values` holds exactly the values under `key` whose entry has not
/// lapsed.
pub proof fn lemma_live_values(s: Seq<TimedBinding>, key: NodeId, now: u64)
    ensures
        forall|v: Seq<u8>|
            live_values(s, key, now).contains(v) <==> exists|i: int|
                0 <= i < s.len() && (#[trigger] s[i]).key == key && s[i].value == v && now
                    <= s[i].expiry,
    decreases s.len(),
{
    let r = live_values(s, key, now);
    if s.len() > 0 {
        let t = s.drop_last();
        let rt = live_values(t, key, now);
        lemma_live_values(t, key, now);
        assert forall|v: Seq<u8>| r.contains(v) <==> exists|i: int|
            0 <= i < s.len() && (#[trigger] s[i]).key == key && s[i].value == v && now
                <= s[i].expiry by {
            if r.contains(v) {
                let k = choose|k: int| 0 <= k < r.len() && r[k] == v;
                if k < rt.len() {
                    assert(rt[k] == v);
                    assert(rt.contains(v));
                    let i = choose|i: int|
                        0 <= i < t.len() && (#[trigger] t[i]).key == key && t[i].value == v && now
                            <= t[i].expiry;
                    assert(s[i] == t[i]);
                } else {
                    assert(s[s.len() - 1].value == v);
                }
            }
            if exists|i: int|
                0 <= i < s.len() && (#[trigger] s[i]).key == key && s[i].value == v && now
                    <= s[i].expiry {
                let i = choose|i: int|
                    0 <= i < s.len() && (#[trigger] s[i]).key == key && s[i].value == v && now
                        <= s[i].expiry;
                if i < t.len() {
                    assert(t[i] == s[i]);
                    assert(rt.contains(v));
                    let k = choose|k: int| 0 <= k < rt.len() && rt[k] == v;
                    assert(r[k] == v);
                } else {
                    assert(r[r.len() - 1] == v);
                }
            }
        }
    }
}

/// Storing keeps an external store free of repeated values, and leaves
/// exactly one entry for the stored value, with the new time.
pub proof fn lemma_timed_stored(s: Seq<TimedBinding>, key: NodeId, value: Seq<u8>, expiry: u64)
    requires
        timed_unique(s),
    ensures
        timed_unique(timed_stored(s, key, value, expiry)),
        forall|i: int|
            0 <= i < timed_stored(s, key, value, expiry).len() ==> {
                let e = #[trigger] timed_stored(s, key, value, expiry)[i];
                if e.key == key && e.value == value {
                    e.expiry == expiry
                } else {
                    s.contains(e)
                }
            },
        exists|i: int|
            0 <= i < timed_stored(s, key, value, expiry).len() && #[trigger] timed_stored(
                s,
                key,
                value,
                expiry,
            )[i] == (TimedBinding { key, value, expiry }),
{
    let p = timed_index(s, key, value);
    let r = timed_stored(s, key, value, expiry);
    lemma_timed_index(s, key, value);
    assert(r[p] == (TimedBinding { key, value, expiry }));
    assert forall|i: int, j: int| 0 <= i < j < r.len() implies !((#[trigger] r[i]).key == (
    #[trigger] r[j]).key && r[i].value == r[j].value) by {
        if i != p && j != p {
            assert(r[i] == s[i] && r[j] == s[j]);
        } else if i == p {
            assert(r[j] == s[j]);
            if p < s.len() {
                assert(!(s[p].key == s[j].key && s[p].value == s[j].value));
            }
        } else {
            assert(r[i] == s[i]);
            if p < s.len() {
                assert(!(s[i].key == s[p].key && s[i].value == s[p].value));
            }
        }
    }
    assert forall|i: int| 0 <= i < r.len() implies {
        let e = #[trigger] r[i];
        if e.key == key && e.value == value {
            e.expiry == expiry
        } else {
            s.contains(e)
        }
    } by {
        if i != p {
            assert(r[i] == s[i]);
            if p < s.len() {
                if i < p {
                    assert(!(s[i].key == s[p].key && s[i].value == s[p].value));
                } else {
                    assert(!(s[p].key == s[i].key && s[p].value == s[i].value));
                }
            }
        }
    }
}

/// Time to live: a value stored at `t0` is handed out at `now` exactly
/// while `now` has not passed the time at which it lapses. Once more than
/// the time to live has gone by without the value being stored again, a
/// read does not return it.
pub proof fn lemma_ttl(
    s: Seq<TimedBinding>,
    key: NodeId,
    value: Seq<u8>,
    t0: u64,
    ttl: u64,
    now: u64,
)
    requires
        timed_unique(s),
    ensures
        live_values(timed_stored(s, key, value, expiry_at(t0, ttl)), key, now).contains(value) <==> now
            <= expiry_at(t0, ttl),
        now - t0 > ttl ==> !live_values(
            timed_stored(s, key, value, expiry_at(t0, ttl)),
            key,
            now,
        ).contains(value),
{
    let e = expiry_at(t0, ttl);
    let r = timed_stored(s, key, value, e);
    lemma_timed_stored(s, key, value, e);
    lemma_live_values(r, key, now);
    if now <= e {
        let i = choose|i: int| 0 <= i < r.len() && #[trigger] r[i] == (TimedBinding { key, value, expiry: e });
        assert(r[i].key == key && r[i].value == value && now <= r[i].expiry);
    }
}

/// The bindings under `key`: all of them, or the one of `value`.
pub open spec fn matching(key: NodeId, value: Option<Seq<u8>>) -> spec_fn(Binding) -> bool {
    |b: Binding|
        b.key == key && match value {
            Some(v) => b.value == v,
            None => true,
        }
}

/// The entries that have lapsed at `now`.
pub open spec fn lapsed(now: u64) -> spec_fn(TimedBinding) -> bool {
    |t: TimedBinding| t.expiry < now
}

/// Taking entries out keeps a store free of repeated bindings and within
/// the size it kept.
pub proof fn lemma_without_bindings(s: Seq<Binding>, gone: spec_fn(Binding) -> bool, max: int)
    ensures
        s.no_duplicates() ==> without(s, gone).no_duplicates(),
        bindings_within(s, max) ==> bindings_within(without(s, gone), max),
{
    let r = without(s, gone);
    lemma_without(s, gone);
    if s.no_duplicates() {
        assert forall|i: int, j: int| 0 <= i < j < r.len() implies r[i] != r[j] by {
            assert(in_order(s, r[i], r[j]));
        }
    }
    if bindings_within(s, max) {
        assert forall|i: int| 0 <= i < r.len() implies (#[trigger] r[i]).value.len() <= max by {
            assert(s.contains(r[i]));
        }
    }
}

/// Sweeping keeps an external store free of repeated values and within the
/// size it kept.
pub proof fn lemma_swept(s: Seq<TimedBinding>, now: u64, max: int)
    ensures
        timed_unique(s) ==> timed_unique(swept(s, now)),
        timed_within(s, max) ==> timed_within(swept(s, now), max),
        forall|key: NodeId| live_values(swept(s, now), key, now) == live_values(s, key, now),
{
    let gone = lapsed(now);
    let r = swept(s, now);
    lemma_without(s, gone);
    if timed_unique(s) {
        assert forall|i: int, j: int| 0 <= i < j < r.len() implies !((#[trigger] r[i]).key == (
        #[trigger] r[j]).key && r[i].value == r[j].value) by {
            assert(in_order(s, r[i], r[j]));
        }
    }
    if timed_within(s, max) {
        assert forall|i: int| 0 <= i < r.len() implies (#[trigger] r[i]).value.len() <= max by {
            assert(s.contains(r[i]));
        }
    }
    assert forall|key: NodeId| live_values(r, key, now) == live_values(s, key, now) by {
        lemma_swept_live(s, key, now);
    }
}

/// What has lapsed is not handed out, so sweeping it changes no read.
pub proof fn lemma_swept_live(s: Seq<TimedBinding>, key: NodeId, now: u64)
    ensures
        live_values(swept(s, now), key, now) == live_values(s, key, now),
    decreases s.len(),
{
    let gone = lapsed(now);
    if s.len() > 0 {
        let t = s.drop_last();
        lemma_swept_live(t, key, now);
        lemma_without_push(t, s.last(), gone);
        assert(t.push(s.last()) =~= s);
        assert(swept(t, now).push(s.last()).drop_last() =~= swept(t, now));
    }
}

/// One value of the node's own under its key.
struct OwnedValue {
    key: NodeId,
    value: Vec<u8>,
}

/// The values that this node owns: bound by `put`, unbound by `remove` and
/// `remove_key`, and kept until then.
pub struct InternalStorage {
    entries: Vec<OwnedValue>,
}

impl View for InternalStorage {
    type V = Seq<Binding>;

    closed spec fn view(&self) -> Seq<Binding> {
        Seq::new(
            self.entries@.len(),
            |i: int| Binding { key: self.entries@[i].key, value: self.entries@[i].value@ },
        )
    }
}

impl InternalStorage {
    /// Whether no value is bound twice to one key.
    pub open spec fn wf(&self) -> bool {
        self@.no_duplicates()
    }

    /// A store that holds nothing.
    pub fn new() -> (s: InternalStorage)
        ensures
            s.wf(),
            s@ == Seq::<Binding>::empty(),
    {
        let s = InternalStorage { entries: Vec::new() };
        proof {
            assert(s@ =~= Seq::<Binding>::empty());
        }
        s
    }

    /// Whether `value` is bound to `key`.
    pub fn contains(&self, key: &NodeId, value: &Vec<u8>) -> (r: bool)
        ensures
            r == self@.contains(Binding { key: *key, value: value@ }),
    {
        let mut i: usize = 0;
        while i < self.entries.len()
            invariant
                i <= self.entries.len(),
                forall|j: int| 0 <= j < i ==> self@[j] != (Binding { key: *key, value: value@ }),
            decreases self.entries.len() - i,
        {
            if self.entries[i].key == *key && bytes_equal(&self.entries[i].value, value) {
                proof {
                    assert(self@[i as int] == (Binding { key: *key, value: value@ }));
                }
                return true;
            }
            i += 1;
        }
        false
    }

    /// Binds `value` to `key`; a binding that is there already stays as it is.
    pub fn put(&mut self, key: NodeId, value: Vec<u8>)
        requires
            old(self).wf(),
        ensures
            final(self).wf(),
            final(self)@ == stored(old(self)@, Binding { key, value: value@ }),
    {
        if !self.contains(&key, &value) {
            let ghost b = Binding { key, value: value@ };
            self.entries.push(OwnedValue { key, value });
            proof {
                assert(self@ =~= old(self)@.push(b));
                assert forall|i: int, j: int| 0 <= i < j < self@.len() implies self@[i]
                    != self@[j] by {
                    assert(self@[i] == old(self)@[i]);
                    if j < old(self)@.len() {
                        assert(self@[j] == old(self)@[j]);
                    }
                }
            }
        }
    }

    /// The values bound to `key`, in the order in which they were bound.
    pub fn get(&self, key: &NodeId) -> (r: Vec<Vec<u8>>)
        ensures
            values_view(r@) == values_for(self@, *key),
    {
        let mut out: Vec<Vec<u8>> = Vec::new();
        let mut i: usize = 0;
        while i < self.entries.len()
            invariant
                i <= self.entries.len(),
                values_view(out@) == values_for(self@.take(i as int), *key),
            decreases self.entries.len() - i,
        {
            proof {
                assert(self@.take(i + 1).drop_last() =~= self@.take(i as int));
            }
            if self.entries[i].key == *key {
                let ghost before = values_view(out@);
                out.push(copy_bytes(&self.entries[i].value));
                proof {
                    assert(values_view(out@) =~= before.push(self@[i as int].value));
                }
            }
            i += 1;
        }
        proof {
            assert(self@.take(self.entries.len() as int) =~= self@);
        }
        out
    }

    /// Takes out the bindings of `key`: the one of `value`, or all of them
    /// where no value is named.
    fn take_out(&mut self, key: &NodeId, value: Option<&Vec<u8>>)
        requires
            old(self).wf(),
        ensures
            final(self).wf(),
            final(self)@ == without(
                old(self)@,
                matching(
                    *key,
                    match value {
                        Some(v) => Some(v@),
                        None => None,
                    },
                ),
            ),
    {
        let ghost gone = matching(
            *key,
            match value {
                Some(v) => Some(v@),
                None => None,
            },
        );
        let mut i: usize = 0;
        proof {
            assert(self@.skip(0) =~= self@);
            assert(self@.take(0) + without(self@, gone) =~= without(self@, gone));
        }
        while i < self.entries.len()
            invariant
                i <= self.entries.len(),
                gone == matching(
                    *key,
                    match value {
                        Some(v) => Some(v@),
                        None => None,
                    },
                ),
                without(old(self)@, gone) == self@.take(i as int) + without(
                    self@.skip(i as int),
                    gone,
                ),
            decreases self.entries.len() - i,
        {
            let ghost prev = self@;
            let hit = self.entries[i].key == *key && match value {
                Some(v) => bytes_equal(&self.entries[i].value, v),
                None => true,
            };
            proof {
                assert(prev.skip(i as int)[0] == prev[i as int]);
                assert(prev.skip(i as int).skip(1) =~= prev.skip(i + 1));
                assert(hit == gone(prev[i as int]));
            }
            if hit {
                self.entries.remove(i);
                proof {
                    assert(self@ =~= prev.remove(i as int));
                    assert(self@.take(i as int) =~= prev.take(i as int));
                    assert(self@.skip(i as int) =~= prev.skip(i + 1));
                }
            } else {
                proof {
                    assert(prev.take(i + 1) + without(prev.skip(i + 1), gone) =~= prev.take(
                        i as int,
                    ) + (seq![prev[i as int]] + without(prev.skip(i + 1), gone)));
                }
                i += 1;
            }
        }
        proof {
            assert(self@.skip(i as int) =~= Seq::<Binding>::empty());
            assert(self@.take(i as int) =~= self@);
            assert(self@ =~= without(old(self)@, gone));
            lemma_without_bindings(old(self)@, gone, 0);
        }
    }

    /// Unbinds `value` from `key`.
    pub fn remove(&mut self, key: &NodeId, value: &Vec<u8>)
        requires
            old(self).wf(),
        ensures
            final(self).wf(),
            final(self)@ == without(old(self)@, matching(*key, Some(value@))),
    {
        self.take_out(key, Some(value));
    }

    /// Unbinds every value from `key`.
    pub fn remove_key(&mut self, key: &NodeId)
        requires
            old(self).wf(),
        ensures
            final(self).wf(),
            final(self)@ == without(old(self)@, matching(*key, None)),
    {
        self.take_out(key, None);
    }
}

/// One value held for another node, with the time at which it lapses.
struct TimedValue {
    key: NodeId,
    value: Vec<u8>,
    expiry: u64,
}

/// The values that other nodes have stored here. Each lapses a fixed time
/// after it was last stored.
pub struct ExternalStorage {
    ttl: u64,
    entries: Vec<TimedValue>,
}

impl View for ExternalStorage {
    type V = Seq<TimedBinding>;

    closed spec fn view(&self) -> Seq<TimedBinding> {
        Seq::new(
            self.entries@.len(),
            |i: int|
                TimedBinding {
                    key: self.entries@[i].key,
                    value: self.entries@[i].value@,
                    expiry: self.entries@[i].expiry,
                },
        )
    }
}

impl ExternalStorage {
    /// How long a value is kept after it was last stored, in milliseconds.
    pub closed spec fn time_to_live(&self) -> u64 {
        self.ttl
    }

    /// Whether no value is held twice under one key.
    pub open spec fn wf(&self) -> bool {
        timed_unique(self@)
    }

    /// A store that holds nothing and keeps what it gets for `ttl`
    /// milliseconds.
    pub fn new(ttl: u64) -> (s: ExternalStorage)
        ensures
            s.wf(),
            s@ == Seq::<TimedBinding>::empty(),
            s.time_to_live() == ttl,
    {
        let s = ExternalStorage { ttl, entries: Vec::new() };
        proof {
            assert(s@ =~= Seq::<TimedBinding>::empty());
        }
        s
    }

    /// How long a value is kept after it was last stored, in milliseconds.
    pub fn ttl(&self) -> (t: u64)
        ensures
            t == self.time_to_live(),
    {
        self.ttl
    }

    /// Where `value` is held under `key`: the position of its entry, or the
    /// number of entries when it has none.
    fn position(&self, key: &NodeId, value: &Vec<u8>) -> (p: usize)
        ensures
            p == timed_index(self@, *key, value@),
            p <= self.entries.len(),
    {
        let mut i: usize = 0;
        while i < self.entries.len()
            invariant
                i <= self.entries.len(),
                forall|j: int|
                    0 <= j < i ==> !((#[trigger] self@[j]).key == *key && self@[j].value
                        == value@),
            decreases self.entries.len() - i,
        {
            if self.entries[i].key == *key && bytes_equal(&self.entries[i].value, value) {
                proof {
                    lemma_timed_index(self@, *key, value@);
                    assert(self@[i as int].key == *key && self@[i as int].value == value@);
                }
                return i;
            }
            i += 1;
        }
        proof {
            lemma_timed_index(self@, *key, value@);
        }
        i
    }

    /// Stores `value` under `key` at the time `now`: it lapses one time to
    /// live later, whether it was held before or not.
    pub fn put(&mut self, key: NodeId, value: Vec<u8>, now: u64)
        requires
            old(self).wf(),
        ensures
            final(self).wf(),
            final(self).time_to_live() == old(self).time_to_live(),
            final(self)@ == timed_stored(
                old(self)@,
                key,
                value@,
                expiry_at(now, old(self).time_to_live()),
            ),
    {
        let expiry = later(now, self.ttl);
        proof {
            lemma_timed_index(self@, key, value@);
            lemma_timed_stored(self@, key, value@, expiry);
        }
        let i = self.position(&key, &value);
        if i < self.entries.len() {
            self.entries[i].expiry = expiry;
            proof {
                assert(self@ =~= timed_stored(old(self)@, key, value@, expiry));
            }
        } else {
            self.entries.push(TimedValue { key, value, expiry });
            proof {
                assert(self@ =~= timed_stored(old(self)@, key, value@, expiry));
            }
        }
    }

    /// The values under `key` that have not lapsed at `now`, in the order in
    /// which they first came.
    pub fn get(&self, key: &NodeId, now: u64) -> (r: Vec<Vec<u8>>)
        ensures
            values_view(r@) == live_values(self@, *key, now),
    {
        let mut out: Vec<Vec<u8>> = Vec::new();
        let mut i: usize = 0;
        while i < self.entries.len()
            invariant
                i <= self.entries.len(),
                values_view(out@) == live_values(self@.take(i as int), *key, now),
            decreases self.entries.len() - i,
        {
            proof {
                assert(self@.take(i + 1).drop_last() =~= self@.take(i as int));
            }
            if self.entries[i].key == *key && now <= self.entries[i].expiry {
                let ghost before = values_view(out@);
                out.push(copy_bytes(&self.entries[i].value));
                proof {
                    assert(values_view(out@) =~= before.push(self@[i as int].value));
                }
            }
            i += 1;
        }
        proof {
            assert(self@.take(self.entries.len() as int) =~= self@);
        }
        out
    }

    /// Forgets what has lapsed at `now`.
    pub fn sweep(&mut self, now: u64)
        requires
            old(self).wf(),
        ensures
            final(self).wf(),
            final(self).time_to_live() == old(self).time_to_live(),
            final(self)@ == swept(old(self)@, now),
    {
        let ghost gone = lapsed(now);
        let mut i: usize = 0;
        proof {
            assert(self@.skip(0) =~= self@);
            assert(self@.take(0) + without(self@, gone) =~= without(self@, gone));
        }
        while i < self.entries.len()
            invariant
                i <= self.entries.len(),
                self.ttl == old(self).ttl,
                gone == lapsed(now),
                without(old(self)@, gone) == self@.take(i as int) + without(
                    self@.skip(i as int),
                    gone,
                ),
            decreases self.entries.len() - i,
        {
            let ghost prev = self@;
            proof {
                assert(prev.skip(i as int)[0] == prev[i as int]);
                assert(prev.skip(i as int).skip(1) =~= prev.skip(i + 1));
            }
            if self.entries[i].expiry < now {
                self.entries.remove(i);
                proof {
                    assert(self@ =~= prev.remove(i as int));
                    assert(self@.take(i as int) =~= prev.take(i as int));
                    assert(self@.skip(i as int) =~= prev.skip(i + 1));
                }
            } else {
                proof {
                    assert(prev.take(i + 1) + without(prev.skip(i + 1), gone) =~= prev.take(
                        i as int,
                    ) + (seq![prev[i as int]] + without(prev.skip(i + 1), gone)));
                }
                i += 1;
            }
        }
        proof {
            assert(self@.skip(i as int) =~= Seq::<TimedBinding>::empty());
            assert(self@.take(i as int) =~= self@);
            assert(self@ =~= without(old(self)@, gone));
            lemma_swept(old(self)@, now, 0);
        }
    }
}

} // verus!
