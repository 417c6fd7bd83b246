//! Values: byte strings, and lists of them without repetition.

use vstd::prelude::*;

verus! {

/// What a list of values holds.
pub open spec fn values_view(v: Seq<Vec<u8>>) -> Seq<Seq<u8>> {
    v.map_values(|b: Vec<u8>| b@)
}

/// `s`, with `v` appended unless it is there already.
pub open spec fn with_value(s: Seq<Seq<u8>>, v: Seq<u8>) -> Seq<Seq<u8>> {
    if s.contains(v) {
        s
    } else {
        s.push(v)
    }
}

/// `s`, with each of `vs` appended in turn unless it is there already.
pub open spec fn with_values(s: Seq<Seq<u8>>, vs: Seq<Seq<u8>>) -> Seq<Seq<u8>>
    decreases vs.len(),
{
    if vs.len() == 0 {
        s
    } else {
        with_value(with_values(s, vs.drop_last()), vs.last())
    }
}

/// Appending without repetition keeps what was there and in the end holds
/// every appended value; it brings in nothing else, and keeps a list
/// without repetition free of it.
pub proof fn lemma_with_values(s: Seq<Seq<u8>>, vs: Seq<Seq<u8>>)
    ensures
        forall|v: Seq<u8>| s.contains(v) ==> with_values(s, vs).contains(v),
        forall|v: Seq<u8>| vs.contains(v) ==> with_values(s, vs).contains(v),
        forall|v: Seq<u8>| with_values(s, vs).contains(v) ==> s.contains(v) || vs.contains(v),
        s.no_duplicates() ==> with_values(s, vs).no_duplicates(),
        s.len() <= with_values(s, vs).len(),
        with_values(s, vs).take(s.len() as int) == s,
    decreases vs.len(),
{
    if vs.len() == 0 {
        assert(s.take(s.len() as int) =~= s);
    } else {
        let prev = with_values(s, vs.drop_last());
        let r = with_values(s, vs);
        lemma_with_values(s, vs.drop_last());
        assert forall|v: Seq<u8>| prev.contains(v) implies r.contains(v) by {
            if r != prev {
                let k = choose|k: int| 0 <= k < prev.len() && prev[k] == v;
                assert(r[k] == v);
            }
        }
        assert(r.contains(vs.last())) by {
            if !prev.contains(vs.last()) {
                assert(r[prev.len() as int] == vs.last());
            }
        }
        assert forall|v: Seq<u8>| vs.contains(v) implies r.contains(v) by {
            let k = choose|k: int| 0 <= k < vs.len() && vs[k] == v;
            if k < vs.len() - 1 {
                assert(vs.drop_last()[k] == v);
                assert(vs.drop_last().contains(v));
                assert(prev.contains(v));
            } else {
                assert(v == vs.last());
            }
        }
        assert forall|v: Seq<u8>| r.contains(v) implies s.contains(v) || vs.contains(v) by {
            let k = choose|k: int| 0 <= k < r.len() && r[k] == v;
            if k < prev.len() {
                assert(prev[k] == v);
                if vs.drop_last().contains(v) {
                    let m = choose|m: int| 0 <= m < vs.drop_last().len() && vs.drop_last()[m] == v;
                    assert(vs[m] == v);
                }
            } else {
                assert(vs[vs.len() - 1] == v);
            }
        }
        assert(r.take(s.len() as int) =~= prev.take(s.len() as int));
    }
}

/// A copy of `v`.
pub fn copy_bytes(v: &Vec<u8>) -> (r: Vec<u8>)
    ensures
        r@ == v@,
{
    let mut r: Vec<u8> = Vec::new();
    let mut i: usize = 0;
    while i < v.len()
        invariant
            i <= v.len(),
            r@ == v@.take(i as int),
        decreases v.len() - i,
    {
        r.push(v[i]);
        proof {
            assert(v@.take(i + 1) =~= v@.take(i as int).push(v[i as int]));
        }
        i += 1;
    }
    proof {
        assert(v@.take(v.len() as int) =~= v@);
    }
    r
}

/// Whether `a` and `b` hold the same bytes.
pub fn bytes_equal(a: &Vec<u8>, b: &Vec<u8>) -> (r: bool)
    ensures
        r == (a@ == b@),
{
    if a.len() != b.len() {
        return false;
    }
    let mut i: usize = 0;
    while i < a.len()
        invariant
            i <= a.len(),
            a.len() == b.len(),
            forall|j: int| 0 <= j < i ==> a[j] == b[j],
        decreases a.len() - i,
    {
        if a[i] != b[i] {
            return false;
        }
        i += 1;
    }
    proof {
        assert(a@ =~= b@);
    }
    true
}

/// Whether `list` holds the value `v`.
pub fn contains_value(list: &Vec<Vec<u8>>, v: &Vec<u8>) -> (r: bool)
    ensures
        r == values_view(list@).contains(v@),
{
    let mut i: usize = 0;
    while i < list.len()
        invariant
            i <= list.len(),
            forall|j: int| 0 <= j < i ==> values_view(list@)[j] != v@,
        decreases list.len() - i,
    {
        if bytes_equal(&list[i], v) {
            proof {
                assert(values_view(list@)[i as int] == v@);
            }
            return true;
        }
        i += 1;
    }
    false
}

/// Appends `v` to `list` unless `list` holds it already.
pub fn add_value(list: &mut Vec<Vec<u8>>, v: Vec<u8>)
    ensures
        values_view(final(list)@) == with_value(values_view(old(list)@), v@),
{
    if !contains_value(list, &v) {
        list.push(v);
        proof {
            assert(values_view(list@) =~= values_view(old(list)@).push(v@));
        }
    }
}

/// Appends each value of `vs` to `list` unless `list` holds it already.
pub fn add_values(list: &mut Vec<Vec<u8>>, vs: &Vec<Vec<u8>>)
    ensures
        values_view(final(list)@) == with_values(values_view(old(list)@), values_view(vs@)),
{
    let mut i: usize = 0;
    while i < vs.len()
        invariant
            i <= vs.len(),
            values_view(list@) == with_values(
                values_view(old(list)@),
                values_view(vs@).take(i as int),
            ),
        decreases vs.len() - i,
    {
        proof {
            assert(values_view(vs@).take(i + 1).drop_last() =~= values_view(vs@).take(i as int));
        }
        add_value(list, copy_bytes(&vs[i]));
        i += 1;
    }
    proof {
        assert(values_view(vs@).take(vs.len() as int) =~= values_view(vs@));
    }
}

/// A copy of the list `vs`.
pub fn copy_values(vs: &Vec<Vec<u8>>) -> (r: Vec<Vec<u8>>)
    ensures
        values_view(r@) == values_view(vs@),
{
    let mut r: Vec<Vec<u8>> = Vec::new();
    let mut i: usize = 0;
    while i < vs.len()
        invariant
            i <= vs.len(),
            values_view(r@) == values_view(vs@).take(i as int),
        decreases vs.len() - i,
    {
        let ghost before = values_view(r@);
        r.push(copy_bytes(&vs[i]));
        proof {
            assert(values_view(r@) =~= before.push(vs[i as int]@));
            assert(values_view(r@) =~= values_view(vs@).take(i + 1));
        }
        i += 1;
    }
    proof {
        assert(values_view(vs@).take(vs.len() as int) =~= values_view(vs@));
    }
    r
}

} // verus!
