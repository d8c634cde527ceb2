//! Fixed 160-bit node identifiers and their bitwise-XOR distance metric.
//!
//! Two identifiers are compared only through `distance`, which reads both as
//! unsigned big-endian integers and XORs them; `closest` picks, from a slice
//! of candidates, the one at minimal distance, the earliest on ties.

use vstd::prelude::*;

verus! {

/// 2^(8*n): the weight of a byte n positions above the least significant one.
pub open spec fn pow256(n: nat) -> nat
    decreases n,
{
    if n == 0 {
        1
    } else {
        256 * pow256((n - 1) as nat)
    }
}

/// The value of a byte string read as an unsigned big-endian integer.
pub open spec fn be_val(s: Seq<u8>) -> nat
    decreases s.len(),
{
    if s.len() == 0 {
        0
    } else {
        (s[0] as nat) * pow256((s.len() - 1) as nat) + be_val(s.skip(1))
    }
}

/// Bytewise XOR of two equal-length byte strings.
pub open spec fn xor_bytes(a: Seq<u8>, b: Seq<u8>) -> Seq<u8> {
    Seq::new(a.len(), |i: int| a[i] ^ b[i])
}

/// The XOR distance between two identifiers: their bytes XORed pointwise and
/// read as an unsigned big-endian integer.
pub open spec fn spec_distance(a: Seq<u8>, b: Seq<u8>) -> nat {
    be_val(xor_bytes(a, b))
}

proof fn lemma_pow256_pos(n: nat)
    ensures
        pow256(n) >= 1,
    decreases n,
{
    if n > 0 {
        lemma_pow256_pos((n - 1) as nat);
    }
}

proof fn lemma_be_val_zero(s: Seq<u8>)
    ensures
        be_val(s) == 0 <==> (forall|i: int| 0 <= i < s.len() ==> s[i] == 0),
    decreases s.len(),
{
    if s.len() > 0 {
        let tail = s.skip(1);
        lemma_be_val_zero(tail);
        let p = pow256((s.len() - 1) as nat);
        lemma_pow256_pos((s.len() - 1) as nat);
        if be_val(s) == 0 {
            assert((s[0] as nat) * p == 0);
            assert(s[0] == 0) by (nonlinear_arith)
                requires
                    (s[0] as nat) * p == 0,
                    p >= 1,
            ;
            assert forall|i: int| 0 <= i < s.len() implies s[i] == 0 by {
                if i > 0 {
                    assert(tail[i - 1] == s[i]);
                }
            }
        }
        if forall|i: int| 0 <= i < s.len() ==> s[i] == 0 {
            assert forall|i: int| 0 <= i < tail.len() implies tail[i] == 0 by {
                assert(tail[i] == s[i + 1]);
            }
            assert(be_val(tail) == 0);
            assert(s[0] == 0);
        }
    }
}

proof fn lemma_be_val_bound(s: Seq<u8>)
    ensures
        be_val(s) < pow256(s.len()),
    decreases s.len(),
{
    if s.len() == 0 {
    } else {
        let tail = s.skip(1);
        let p = pow256((s.len() - 1) as nat);
        lemma_be_val_bound(tail);
        assert((s[0] as nat) * p + be_val(tail) < 256 * p) by (nonlinear_arith)
            requires
                be_val(tail) < p,
                s[0] < 256,
        ;
        assert(pow256(s.len()) == 256 * p);
    }
}

proof fn lemma_be_val_lt(a: Seq<u8>, b: Seq<u8>, i: int)
    requires
        a.len() == b.len(),
        0 <= i < a.len(),
        forall|j: int| 0 <= j < i ==> a[j] == b[j],
        a[i] < b[i],
    ensures
        be_val(a) < be_val(b),
    decreases i,
{
    let p = pow256((a.len() - 1) as nat);
    if i == 0 {
        lemma_be_val_bound(a.skip(1));
        assert((a[0] as nat) * p + be_val(a.skip(1)) < (b[0] as nat) * p) by (nonlinear_arith)
            requires
                be_val(a.skip(1)) < p,
                a[0] < b[0],
        ;
        assert(be_val(b) >= (b[0] as nat) * p);
    } else {
        let ta = a.skip(1);
        let tb = b.skip(1);
        assert forall|j: int| 0 <= j < i - 1 implies ta[j] == tb[j] by {
            assert(ta[j] == a[j + 1] && tb[j] == b[j + 1]);
        }
        assert(ta[i - 1] == a[i] && tb[i - 1] == b[i]);
        lemma_be_val_lt(ta, tb, i - 1);
        assert(a[0] == b[0]);
    }
}

/// Law: the XOR distance from any identifier to itself is zero.
pub proof fn lemma_distance_self_is_zero(a: Seq<u8>)
    ensures
        spec_distance(a, a) == 0,
{
    let x = xor_bytes(a, a);
    assert forall|i: int| 0 <= i < x.len() implies x[i] == 0 by {
        let v = a[i];
        assert(v ^ v == 0) by (bit_vector);
    }
    lemma_be_val_zero(x);
}

/// Law: the XOR distance is symmetric in its two arguments.
pub proof fn lemma_distance_symmetric(a: Seq<u8>, b: Seq<u8>)
    requires
        a.len() == b.len(),
    ensures
        spec_distance(a, b) == spec_distance(b, a),
{
    assert forall|i: int| 0 <= i < a.len() implies xor_bytes(a, b)[i] == xor_bytes(b, a)[i] by {
        let x = a[i];
        let y = b[i];
        assert(x ^ y == y ^ x) by (bit_vector);
    }
    assert(xor_bytes(a, b) =~= xor_bytes(b, a));
}

/// A fixed 160-bit identifier in a distributed hash table's address space,
/// built from exactly 20 raw bytes and never mutated.
#[derive(Clone, Copy)]
pub struct NodeId {
    bytes: [u8; 20],
}

impl View for NodeId {
    type V = Seq<u8>;

    closed spec fn view(&self) -> Seq<u8> {
        self.bytes@
    }
}

/// The XOR distance between two identifiers, held as the 20 bytes of the
/// big-endian unsigned integer it denotes.
#[derive(Debug, PartialEq, Eq, Clone)]
pub struct Distance {
    bytes: Vec<u8>,
}

impl View for Distance {
    type V = Seq<u8>;

    closed spec fn view(&self) -> Seq<u8> {
        self.bytes@
    }
}

impl Distance {
    /// The unsigned integer this distance denotes.
    pub open spec fn val(&self) -> nat {
        be_val(self@)
    }

    /// The bytes of this distance, most significant first.
    pub fn to_bytes(&self) -> (r: Vec<u8>)
        ensures
            r@ == self@,
    {
        let n = self.bytes.len();
        let mut r: Vec<u8> = Vec::new();
        let mut i: usize = 0;
        while i < n
            invariant
                i <= n,
                n == self@.len(),
                r@ == self@.take(i as int),
            decreases n - i,
        {
            r.push(self.bytes[i]);
            proof {
                assert(r@ =~= self@.take(i + 1));
            }
            i += 1;
        }
        proof {
            assert(r@ =~= self@);
        }
        r
    }

    /// Whether this distance is exactly zero.
    pub fn is_zero(&self) -> (r: bool)
        ensures
            r == (self.val() == 0),
    {
        let n = self.bytes.len();
        let mut i: usize = 0;
        while i < n
            invariant
                i <= n,
                n == self@.len(),
                forall|j: int| 0 <= j < i ==> self@[j] == 0,
            decreases n - i,
        {
            if self.bytes[i] != 0 {
                proof {
                    lemma_be_val_zero(self@);
                }
                return false;
            }
            i += 1;
        }
        proof {
            lemma_be_val_zero(self@);
        }
        true
    }

    /// Whether this distance is strictly smaller than another of the same width.
    fn lt(&self, other: &Distance) -> (r: bool)
        requires
            self@.len() == other@.len(),
        ensures
            r == (self.val() < other.val()),
    {
        let n = self.bytes.len();
        let mut i: usize = 0;
        while i < n
            invariant
                i <= n,
                n == self@.len(),
                self@.len() == other@.len(),
                forall|j: int| 0 <= j < i ==> self@[j] == other@[j],
            decreases n - i,
        {
            if self.bytes[i] < other.bytes[i] {
                proof {
                    lemma_be_val_lt(self@, other@, i as int);
                }
                return true;
            }
            if self.bytes[i] > other.bytes[i] {
                proof {
                    lemma_be_val_lt(other@, self@, i as int);
                }
                return false;
            }
            i += 1;
        }
        proof {
            assert(self@ =~= other@);
        }
        false
    }
}

impl NodeId {
    /// Builds an identifier from exactly 20 raw bytes.
    pub fn from_bytes(bytes: [u8; 20]) -> (r: NodeId)
        ensures
            r@ == bytes@,
    {
        NodeId { bytes }
    }

    /// The 20 raw bytes of this identifier.
    pub fn to_bytes(&self) -> (r: [u8; 20])
        ensures
            r@ == self@,
    {
        self.bytes
    }

    /// The XOR distance between this identifier and another: both are read as
    /// unsigned big-endian integers and XORed.
    pub fn distance(&self, node_id: &NodeId) -> (r: Distance)
        ensures
            r@ == xor_bytes(self@, node_id@),
            r@.len() == 20,
            r.val() == spec_distance(self@, node_id@),
    {
        let mut bytes: Vec<u8> = Vec::new();
        let mut i: usize = 0;
        while i < 20
            invariant
                i <= 20,
                bytes@.len() == i,
                forall|j: int| 0 <= j < i ==> bytes@[j] == (self@[j] ^ node_id@[j]),
            decreases 20 - i,
        {
            bytes.push(self.bytes[i] ^ node_id.bytes[i]);
            i += 1;
        }
        proof {
            assert(bytes@ =~= xor_bytes(self@, node_id@));
        }
        Distance { bytes }
    }

    /// Of the given candidates, the one closest to this identifier in XOR
    /// distance, the earliest on ties; this identifier itself when there are
    /// no candidates.
    pub fn closest(&self, node_ids: &[NodeId]) -> (r: NodeId)
        ensures
            node_ids@.len() == 0 ==> r@ == self@,
            node_ids@.len() > 0 ==> exists|i: int|
                0 <= i < node_ids@.len() && r@ == node_ids@[i]@ && (forall|j: int|
                    0 <= j < node_ids@.len() ==> spec_distance(self@, node_ids@[i]@)
                        <= spec_distance(self@, node_ids@[j]@)) && (forall|j: int|
                    0 <= j < i ==> spec_distance(self@, node_ids@[j]@) > spec_distance(
                        self@,
                        node_ids@[i]@,
                    )),
    {
        if node_ids.len() == 0 {
            return *self;
        }
        let mut best: usize = 0;
        let mut best_dist = self.distance(&node_ids[0]);
        let mut k: usize = 1;
        while k < node_ids.len()
            invariant
                1 <= k <= node_ids@.len(),
                best < k,
                best_dist@.len() == 20,
                best_dist.val() == spec_distance(self@, node_ids@[best as int]@),
                forall|j: int| 0 <= j < k ==> best_dist.val() <= spec_distance(
                    self@,
                    node_ids@[j]@,
                ),
                forall|j: int| 0 <= j < best ==> spec_distance(self@, node_ids@[j]@)
                    > best_dist.val(),
            decreases node_ids@.len() - k,
        {
            let d = self.distance(&node_ids[k]);
            if d.lt(&best_dist) {
                best = k;
                best_dist = d;
            }
            k += 1;
        }
        node_ids[best]
    }
}

} // verus!
