//! 160-bit identifiers and the XOR metric.

use vstd::prelude::*;
use vstd::arithmetic::power2::{lemma2_to64, lemma_pow2_unfold, pow2};

verus! {

/// Width of a request cookie in bytes.
pub const COOKIE_BYTELEN: usize = 20;

/// A 160-bit identifier, most significant byte first.
#[derive(Clone, Copy, Debug, Hash)]
pub struct NodeId {
    pub bytes: [u8; 20],
}

/// Request cookies share the identifier width.
pub type Cookie = NodeId;

impl View for NodeId {
    type V = Seq<u8>;

    open spec fn view(&self) -> Seq<u8> {
        self.bytes@
    }
}

/// The number that a big-endian byte string denotes.
pub open spec fn be_value(s: Seq<u8>) -> nat
    decreases s.len(),
{
    if s.len() == 0 {
        0
    } else {
        be_value(s.drop_last()) * 256 + s.last() as nat
    }
}

/// Bytewise exclusive or of two strings of one length.
pub open spec fn xor_bytes(a: Seq<u8>, b: Seq<u8>) -> Seq<u8> {
    Seq::new(a.len(), |i: int| a[i] ^ b[i])
}

/// The Kademlia metric: the exclusive or of two identifiers, read as a number.
pub open spec fn distance(a: Seq<u8>, b: Seq<u8>) -> nat {
    be_value(xor_bytes(a, b))
}

/// Number of binary digits of `v`; zero has none.
pub open spec fn bit_length(v: nat) -> nat
    decreases v,
{
    if v == 0 {
        0
    } else {
        1 + bit_length(v / 2)
    }
}

/// Leading zero bits of a 160-bit number.
pub open spec fn leading_zero_bits(d: nat) -> int {
    160 - bit_length(d)
}

/// The distance class of `id` seen from `local`; meaningful when the two differ.
pub open spec fn bucket_of(local: Seq<u8>, id: Seq<u8>) -> int {
    160 - 1 - leading_zero_bits(distance(local, id))
}

/// Two identifiers are the same exactly when they have the same bytes.
pub proof fn lemma_id_ext(a: NodeId, b: NodeId)
    ensures
        a@ == b@ <==> a == b,
{
    if a@ == b@ {
        assert(a.bytes@ =~= b.bytes@);
        assert(a.bytes == b.bytes);
    }
}

impl PartialEq for NodeId {
    fn eq(&self, other: &NodeId) -> (r: bool) {
        let mut i: usize = 0;
        while i < 20
            invariant
                i <= 20,
                forall|j: int| 0 <= j < i ==> self.bytes[j] == other.bytes[j],
            decreases 20 - i,
        {
            if self.bytes[i] != other.bytes[i] {
                return false;
            }
            i += 1;
        }
        proof {
            assert(self.bytes@ =~= other.bytes@);
            assert(self.bytes == other.bytes);
        }
        true
    }
}

impl vstd::std_specs::cmp::PartialEqSpecImpl for NodeId {
    open spec fn obeys_eq_spec() -> bool {
        true
    }

    open spec fn eq_spec(&self, other: &NodeId) -> bool {
        self.bytes == other.bytes
    }
}

impl Eq for NodeId {}

/// A big-endian string denotes zero exactly when all its bytes are zero.
pub proof fn lemma_value_zero(s: Seq<u8>)
    ensures
        be_value(s) == 0 <==> (forall|i: int| 0 <= i < s.len() ==> s[i] == 0),
    decreases s.len(),
{
    if s.len() > 0 {
        lemma_value_zero(s.drop_last());
        if be_value(s) == 0 {
            assert forall|i: int| 0 <= i < s.len() implies s[i] == 0 by {
                if i < s.len() - 1 {
                    assert(s.drop_last()[i] == s[i]);
                }
            }
        } else if forall|i: int| 0 <= i < s.len() ==> s[i] == 0 {
            assert forall|i: int| 0 <= i < s.drop_last().len() implies s.drop_last()[i] == 0 by {
                assert(s.drop_last()[i] == s[i]);
            }
        }
    }
}

/// Two strings of one length that denote the same number are the same string.
pub proof fn lemma_value_injective(s: Seq<u8>, t: Seq<u8>)
    requires
        s.len() == t.len(),
        be_value(s) == be_value(t),
    ensures
        s == t,
    decreases s.len(),
{
    if s.len() > 0 {
        lemma_value_injective(s.drop_last(), t.drop_last());
        assert(s =~= s.drop_last().push(s.last()));
        assert(t =~= t.drop_last().push(t.last()));
    } else {
        assert(s =~= t);
    }
}

/// A string of `n` bytes denotes a number of at most `8 * n` binary digits.
pub proof fn lemma_value_bits(s: Seq<u8>)
    ensures
        bit_length(be_value(s)) <= 8 * s.len(),
    decreases s.len(),
{
    if s.len() > 0 {
        lemma_value_bits(s.drop_last());
        lemma_bit_length_append(be_value(s.drop_last()), s.last());
    }
}

/// Appending a byte adds eight digits to a non-zero number, and to zero the
/// digits of the byte.
pub proof fn lemma_bit_length_append(v: nat, x: u8)
    ensures
        v > 0 ==> bit_length(v * 256 + x as nat) == bit_length(v) + 8,
        v == 0 ==> bit_length(v * 256 + x as nat) == bit_length(x as nat),
        bit_length(x as nat) <= 8,
{
    reveal_with_fuel(bit_length, 10);
    if v > 0 {
        let w = v * 256 + x as nat;
        assert(w / 2 / 2 / 2 / 2 / 2 / 2 / 2 / 2 == v);
    }
}

/// A number of `n` binary digits is less than the `n`-th power of two and,
/// unless it is zero, not less than the power before.
pub proof fn lemma_bit_length_bounds(v: nat)
    ensures
        v < pow2(bit_length(v)),
        v > 0 ==> pow2((bit_length(v) - 1) as nat) <= v,
    decreases v,
{
    lemma2_to64();
    if v > 0 {
        lemma_bit_length_bounds(v / 2);
        lemma_pow2_unfold(bit_length(v));
        if v / 2 > 0 {
            lemma_pow2_unfold(bit_length(v / 2));
        }
    }
}

/// What a distance class is: the peers of class `i` are those at a
/// distance of at least the `i`-th power of two and less than the next.
pub proof fn lemma_bucket_of_bounds(local: NodeId, id: NodeId)
    requires
        local != id,
    ensures
        0 <= bucket_of(local@, id@) < 160,
        pow2(bucket_of(local@, id@) as nat) <= distance(local@, id@) < pow2(
            (bucket_of(local@, id@) + 1) as nat,
        ),
{
    lemma_id_ext(local, id);
    lemma_distance_zero(local@, id@);
    lemma_value_bits(xor_bytes(local@, id@));
    lemma_bit_length_bounds(distance(local@, id@));
}

/// Once two prefixes of equal length differ in value, the whole strings
/// differ the same way.
pub proof fn lemma_prefix_order(s: Seq<u8>, t: Seq<u8>, k: int)
    requires
        s.len() == t.len(),
        0 <= k <= s.len(),
        be_value(s.take(k)) < be_value(t.take(k)),
    ensures
        be_value(s) < be_value(t),
    decreases s.len() - k,
{
    if k == s.len() {
        assert(s.take(k) =~= s);
        assert(t.take(k) =~= t);
    } else {
        assert(s.take(k + 1).drop_last() =~= s.take(k));
        assert(t.take(k + 1).drop_last() =~= t.take(k));
        lemma_prefix_order(s, t, k + 1);
    }
}

/// The exclusive or of two bytes is zero exactly when they are equal, and
/// a common operand cancels.
pub proof fn lemma_xor_byte(k: u8, a: u8, b: u8)
    ensures
        (a ^ b == 0) <==> a == b,
        (k ^ a == k ^ b) <==> a == b,
{
    assert((a ^ b == 0) <==> a == b) by (bit_vector);
    assert((k ^ a == k ^ b) <==> a == b) by (bit_vector);
}

/// Identity of indiscernibles: the distance is zero exactly between equal
/// identifiers.
pub proof fn lemma_distance_zero(a: Seq<u8>, b: Seq<u8>)
    requires
        a.len() == b.len(),
    ensures
        distance(a, b) == 0 <==> a == b,
{
    let d = xor_bytes(a, b);
    lemma_value_zero(d);
    if distance(a, b) == 0 {
        assert forall|i: int| 0 <= i < a.len() implies a[i] == b[i] by {
            assert(d[i] == 0);
            lemma_xor_byte(0, a[i], b[i]);
        }
        assert(a =~= b);
    }
    if a == b {
        assert forall|i: int| 0 <= i < d.len() implies d[i] == 0 by {
            lemma_xor_byte(0, a[i], b[i]);
        }
    }
}

/// Unidirectionality: from one point, no two identifiers lie at the same
/// distance.
pub proof fn lemma_distance_injective(key: Seq<u8>, a: Seq<u8>, b: Seq<u8>)
    requires
        key.len() == a.len(),
        key.len() == b.len(),
        distance(key, a) == distance(key, b),
    ensures
        a == b,
{
    let da = xor_bytes(key, a);
    let db = xor_bytes(key, b);
    lemma_value_injective(da, db);
    assert forall|i: int| 0 <= i < a.len() implies a[i] == b[i] by {
        assert(da[i] == db[i]);
        lemma_xor_byte(key[i], a[i], b[i]);
    }
    assert(a =~= b);
}

/// Binary digits of one byte.
pub fn byte_bit_length(x: u8) -> (n: usize)
    ensures
        n == bit_length(x as nat),
        n <= 8,
{
    proof {
        reveal_with_fuel(bit_length, 10);
    }
    if x >= 128 {
        8
    } else if x >= 64 {
        7
    } else if x >= 32 {
        6
    } else if x >= 16 {
        5
    } else if x >= 8 {
        4
    } else if x >= 4 {
        3
    } else if x >= 2 {
        2
    } else if x >= 1 {
        1
    } else {
        0
    }
}

impl NodeId {
    /// The identifier made of the given bytes.
    pub fn new(bytes: [u8; 20]) -> (id: NodeId)
        ensures
            id.bytes == bytes,
    {
        NodeId { bytes }
    }

    /// The exclusive or of two identifiers.
    pub fn xor(&self, other: &NodeId) -> (d: NodeId)
        ensures
            d@ == xor_bytes(self@, other@),
    {
        let mut out: [u8; 20] = [0u8; 20];
        let mut i: usize = 0;
        while i < 20
            invariant
                i <= 20,
                forall|j: int| 0 <= j < i ==> out[j] == self.bytes[j] ^ other.bytes[j],
            decreases 20 - i,
        {
            out[i] = self.bytes[i] ^ other.bytes[i];
            i += 1;
        }
        let d = NodeId { bytes: out };
        proof {
            assert(d@ =~= xor_bytes(self@, other@));
        }
        d
    }

    /// Number of binary digits of the identifier read as a number.
    pub fn bit_len(&self) -> (n: usize)
        ensures
            n == bit_length(be_value(self@)),
            n <= 160,
    {
        let mut bits: usize = 0;
        let mut i: usize = 0;
        while i < 20
            invariant
                i <= 20,
                bits == bit_length(be_value(self@.take(i as int))),
                bits <= 8 * i,
            decreases 20 - i,
        {
            let x = self.bytes[i];
            proof {
                let v = be_value(self@.take(i as int));
                assert(self@.take(i + 1).drop_last() =~= self@.take(i as int));
                assert(self@.take(i + 1).last() == x);
                lemma_bit_length_append(v, x);
            }
            if bits == 0 {
                bits = byte_bit_length(x);
            } else {
                bits += 8;
            }
            i += 1;
        }
        proof {
            assert(self@.take(20) =~= self@);
        }
        bits
    }

    /// Leading zero bits of the identifier.
    pub fn leading_zero_bits(&self) -> (n: usize)
        ensures
            n == leading_zero_bits(be_value(self@)),
            n <= 160,
    {
        160 - self.bit_len()
    }

    /// The distance class in which `self` files `id`: none for `self`
    /// itself, else the position of the highest bit in which the two differ.
    pub fn bucket_index(&self, id: &NodeId) -> (r: Option<usize>)
        ensures
            r is None <==> *id == *self,
            r matches Some(i) ==> i == bucket_of(self@, id@) && i < 160,
    {
        let d = self.xor(id);
        let n = d.bit_len();
        proof {
            lemma_distance_zero(self@, id@);
            lemma_id_ext(*self, *id);
        }
        if n == 0 {
            None
        } else {
            Some(n - 1)
        }
    }

    /// Whether `a` lies strictly nearer to `self` than `b` does.
    pub fn closer(&self, a: &NodeId, b: &NodeId) -> (r: bool)
        ensures
            r == (distance(self@, a@) < distance(self@, b@)),
    {
        let ghost xa = xor_bytes(self@, a@);
        let ghost xb = xor_bytes(self@, b@);
        let mut i: usize = 0;
        while i < 20
            invariant
                i <= 20,
                xa == xor_bytes(self@, a@),
                xb == xor_bytes(self@, b@),
                be_value(xa.take(i as int)) == be_value(xb.take(i as int)),
            decreases 20 - i,
        {
            let x = self.bytes[i] ^ a.bytes[i];
            let y = self.bytes[i] ^ b.bytes[i];
            proof {
                assert(xa.take(i + 1).drop_last() =~= xa.take(i as int));
                assert(xb.take(i + 1).drop_last() =~= xb.take(i as int));
                assert(xa.take(i + 1).last() == x);
                assert(xb.take(i + 1).last() == y);
            }
            if x < y {
                proof {
                    lemma_prefix_order(xa, xb, i + 1);
                }
                return true;
            }
            if y < x {
                proof {
                    lemma_prefix_order(xb, xa, i + 1);
                }
                return false;
            }
            i += 1;
        }
        proof {
            assert(xa.take(20) =~= xa);
            assert(xb.take(20) =~= xb);
        }
        false
    }
}

} // verus!
