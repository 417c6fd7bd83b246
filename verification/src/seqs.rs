//! Sequences with some of their elements taken out.

use vstd::prelude::*;

verus! {

/// `s` without the elements of which `gone` holds.
pub open spec fn without<T>(s: Seq<T>, gone: spec_fn(T) -> bool) -> Seq<T>
    decreases s.len(),
{
    if s.len() == 0 {
        s
    } else if gone(s[0]) {
        without(s.skip(1), gone)
    } else {
        seq![s[0]] + without(s.skip(1), gone)
    }
}

/// Whether `x` stands somewhere before `y` in `s`.
pub open spec fn in_order<T>(s: Seq<T>, x: T, y: T) -> bool {
    exists|a: int, b: int| 0 <= a < b < s.len() && #[trigger] s[a] == x && #[trigger] s[b] == y
}

/// `without` keeps exactly the elements of which `gone` does not hold, in
/// their order.
pub proof fn lemma_without<T>(s: Seq<T>, gone: spec_fn(T) -> bool)
    ensures
        without(s, gone).len() <= s.len(),
        forall|i: int|
            0 <= i < without(s, gone).len() ==> !gone(#[trigger] without(s, gone)[i])
                && s.contains(without(s, gone)[i]),
        forall|j: int|
            0 <= j < s.len() && !gone(s[j]) ==> without(s, gone).contains(#[trigger] s[j]),
        forall|i: int, j: int|
            0 <= i < j < without(s, gone).len() ==> in_order(
                s,
                #[trigger] without(s, gone)[i],
                #[trigger] without(s, gone)[j],
            ),
    decreases s.len(),
{
    let r = without(s, gone);
    if s.len() > 0 {
        let t = s.skip(1);
        let rt = without(t, gone);
        lemma_without(t, gone);
        let off: int = if gone(s[0]) { 0 } else { 1 };
        assert forall|i: int| 0 <= i < r.len() implies !gone(#[trigger] r[i]) && s.contains(
            r[i],
        ) by {
            if i >= off {
                assert(r[i] == rt[i - off]);
                assert(t.contains(rt[i - off]));
                let k = choose|k: int| 0 <= k < t.len() && t[k] == rt[i - off];
                assert(s[k + 1] == r[i]);
            } else {
                assert(r[i] == s[0]);
            }
        }
        assert forall|j: int| 0 <= j < s.len() && !gone(s[j]) implies r.contains(
            #[trigger] s[j],
        ) by {
            if j == 0 {
                assert(r[0] == s[0]);
            } else {
                assert(t[j - 1] == s[j]);
                assert(rt.contains(t[j - 1]));
                let k = choose|k: int| 0 <= k < rt.len() && rt[k] == s[j];
                assert(r[k + off] == s[j]);
            }
        }
        assert forall|i: int, j: int| 0 <= i < j < r.len() implies in_order(
            s,
            #[trigger] r[i],
            #[trigger] r[j],
        ) by {
            assert(r[j] == rt[j - off]);
            if i >= off {
                assert(r[i] == rt[i - off]);
                assert(in_order(t, rt[i - off], rt[j - off]));
                let (a, b) = choose|a: int, b: int|
                    0 <= a < b < t.len() && #[trigger] t[a] == rt[i - off] && #[trigger] t[b]
                        == rt[j - off];
                assert(s[a + 1] == r[i] && s[b + 1] == r[j]);
            } else {
                assert(t.contains(rt[j - off]));
                let k = choose|k: int| 0 <= k < t.len() && t[k] == rt[j - off];
                assert(s[0] == r[i] && s[k + 1] == r[j]);
            }
        }
    }
}

/// `without` goes through an appended element.
pub proof fn lemma_without_push<T>(s: Seq<T>, x: T, gone: spec_fn(T) -> bool)
    ensures
        without(s.push(x), gone) == if gone(x) {
            without(s, gone)
        } else {
            without(s, gone).push(x)
        },
    decreases s.len(),
{
    let sx = s.push(x);
    if s.len() == 0 {
        assert(s =~= Seq::<T>::empty());
        assert(sx.skip(1) =~= s);
        assert(without(sx, gone) =~= if gone(x) { without(s, gone) } else { without(s, gone).push(x) });
    } else {
        assert(sx.skip(1) =~= s.skip(1).push(x));
        lemma_without_push(s.skip(1), x, gone);
        assert(without(sx, gone) =~= if gone(x) { without(s, gone) } else { without(s, gone).push(x) });
    }
}

} // verus!
