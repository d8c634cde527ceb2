//! The decoded value model: a closed tagged union over byte strings,
//! arbitrary-precision integers, ordered lists and key/value dictionaries,
//! together with its mathematical form.

use vstd::prelude::*;

verus! {

broadcast use vstd::std_specs::vec::group_vec_axioms;

/// The mathematical form of a decoded unit.
///
/// A dictionary is a sequence of key/value pairs with pairwise distinct keys,
/// kept in first-insertion order; a duplicate key on the wire overwrites the
/// value of the pair already present.
pub enum SpecValue {
    Text(Seq<u8>),
    Integer(int),
    List(Seq<SpecValue>),
    Dictionary(Seq<(Seq<u8>, SpecValue)>),
}

/// Whether a byte is an ASCII decimal digit.
pub open spec fn is_digit_byte(b: u8) -> bool {
    48 <= b <= 57
}

/// Whether every byte of a string is an ASCII decimal digit.
pub open spec fn all_digits(s: Seq<u8>) -> bool {
    forall|i: int| 0 <= i < s.len() ==> is_digit_byte(s[i])
}

/// The non-negative integer denoted by a string of ASCII decimal digits.
pub open spec fn digits_val(s: Seq<u8>) -> int
    decreases s.len(),
{
    if s.len() == 0 {
        0
    } else {
        digits_val(s.drop_last()) * 10 + (s.last() - 48)
    }
}

/// The integer denoted by an optional ASCII minus sign followed by one or
/// more ASCII decimal digits; `None` when the bytes are not of that shape.
pub open spec fn spec_int_literal(s: Seq<u8>) -> Option<int> {
    if s.len() >= 1 && s[0] == 45 {
        if s.len() >= 2 && all_digits(s.skip(1)) {
            Some(-digits_val(s.skip(1)))
        } else {
            None
        }
    } else if s.len() >= 1 && all_digits(s) {
        Some(digits_val(s))
    } else {
        None
    }
}

/// An arbitrary-precision signed integer, held as an optional sign and the
/// ASCII decimal digits of its magnitude, exactly as they stood on the wire.
#[derive(Debug, PartialEq, Eq, Clone)]
pub struct BigNum {
    negative: bool,
    digits: Vec<u8>,
}

impl BigNum {
    /// The signed integer this number denotes.
    pub closed spec fn val(&self) -> int {
        if self.negative {
            -digits_val(self.digits@)
        } else {
            digits_val(self.digits@)
        }
    }

    /// Well-formed: at least one digit, and nothing but ASCII decimal digits.
    pub closed spec fn wf(&self) -> bool {
        self.digits@.len() >= 1 && all_digits(self.digits@)
    }

    /// Builds a number directly from its sign and digit bytes.
    pub(crate) fn new(negative: bool, digits: Vec<u8>) -> (r: BigNum)
        requires
            digits@.len() >= 1,
            all_digits(digits@),
        ensures
            r.wf(),
            r.val() == (if negative {
                -digits_val(digits@)
            } else {
                digits_val(digits@)
            }),
    {
        BigNum { negative, digits }
    }

    /// Reads `[-]digit+` from the given bytes; `None` exactly when the bytes
    /// are not of that shape.
    pub fn from_decimal(s: &[u8]) -> (r: Option<BigNum>)
        ensures
            match r {
                Some(b) => b.wf() && spec_int_literal(s@) == Some(b.val()),
                None => spec_int_literal(s@) is None,
            },
    {
        let n = s.len();
        if n == 0 {
            return None;
        }
        let negative = s[0] == 45;
        let start: usize = if negative {
            1
        } else {
            0
        };
        if start == n {
            return None;
        }
        let mut digits: Vec<u8> = Vec::new();
        let mut i: usize = start;
        while i < n
            invariant
                start <= i <= n,
                start < n,
                n == s@.len(),
                negative == (s@[0] == 45),
                start == (if negative {
                    1int
                } else {
                    0int
                }),
                digits@ == s@.subrange(start as int, i as int),
                all_digits(digits@),
            decreases n - i,
        {
            let b = s[i];
            if b < 48 || b > 57 {
                proof {
                    if negative {
                        assert(s@.skip(1)[i - 1] == s@[i as int]);
                    }
                }
                return None;
            }
            digits.push(b);
            proof {
                assert(digits@ =~= s@.subrange(start as int, i + 1));
            }
            i += 1;
        }
        proof {
            if negative {
                assert(digits@ =~= s@.skip(1));
            } else {
                assert(digits@ =~= s@);
            }
        }
        Some(BigNum { negative, digits })
    }
}

/// A decoded unit of the wire format.
#[derive(Debug, PartialEq, Eq)]
pub enum Bencoding {
    /// A byte string, read verbatim from the wire after its length prefix.
    Text(Vec<u8>),
    /// An arbitrary-precision signed integer.
    Integer(BigNum),
    /// An ordered list of units.
    List(Vec<Bencoding>),
    /// A key/value mapping with unique keys, in first-insertion order.
    Dictionary(Vec<(Vec<u8>, Bencoding)>),
}

impl View for Bencoding {
    type V = SpecValue;

    open spec fn view(&self) -> SpecValue
        decreases self,
    {
        match self {
            Bencoding::Text(s) => SpecValue::Text(s@),
            Bencoding::Integer(n) => SpecValue::Integer(n.val()),
            Bencoding::List(vs) => SpecValue::List(views_of(vs@)),
            Bencoding::Dictionary(prs) => SpecValue::Dictionary(pair_views_of(prs@)),
        }
    }
}

/// The mathematical form of each element of a list.
pub open spec fn views_of(vs: Seq<Bencoding>) -> Seq<SpecValue>
    decreases vs,
{
    Seq::new(
        vs.len(),
        |i: int|
            if 0 <= i < vs.len() {
                vs[i].view()
            } else {
                SpecValue::Integer(0)
            },
    )
}

/// The mathematical form of each key/value pair of a dictionary.
pub open spec fn pair_views_of(prs: Seq<(Vec<u8>, Bencoding)>) -> Seq<(Seq<u8>, SpecValue)>
    decreases prs,
{
    Seq::new(
        prs.len(),
        |i: int|
            if 0 <= i < prs.len() {
                (prs[i].0@, prs[i].1.view())
            } else {
                (Seq::<u8>::empty(), SpecValue::Integer(0))
            },
    )
}

pub proof fn lemma_views_of_push(vs: Seq<Bencoding>, b: Bencoding)
    ensures
        views_of(vs.push(b)) == views_of(vs).push(b@),
{
    assert(views_of(vs.push(b)) =~= views_of(vs).push(b@));
}

pub proof fn lemma_pair_views_of_push(prs: Seq<(Vec<u8>, Bencoding)>, k: Vec<u8>, b: Bencoding)
    ensures
        pair_views_of(prs.push((k, b))) == pair_views_of(prs).push((k@, b@)),
{
    assert(pair_views_of(prs.push((k, b))) =~= pair_views_of(prs).push((k@, b@)));
}

/// Whether some pair of the sequence has the given key.
pub open spec fn has_key(prs: Seq<(Seq<u8>, SpecValue)>, k: Seq<u8>) -> bool {
    exists|i: int| 0 <= i < prs.len() && prs[i].0 == k
}

/// The position of the first pair with the given key.
pub open spec fn first_key_index(prs: Seq<(Seq<u8>, SpecValue)>, k: Seq<u8>) -> int
    decreases prs.len(),
{
    if prs.len() == 0 {
        0
    } else if prs[0].0 == k {
        0
    } else {
        1 + first_key_index(prs.skip(1), k)
    }
}

/// Last write wins: a pair whose key is already present overwrites the value
/// of the first pair with that key, in place; a new key is appended.
pub open spec fn upsert(prs: Seq<(Seq<u8>, SpecValue)>, k: Seq<u8>, v: SpecValue) -> Seq<
    (Seq<u8>, SpecValue),
> {
    if has_key(prs, k) {
        prs.update(first_key_index(prs, k), (k, v))
    } else {
        prs.push((k, v))
    }
}

/// Whether the keys of a pair sequence are pairwise distinct.
pub open spec fn keys_unique(prs: Seq<(Seq<u8>, SpecValue)>) -> bool {
    forall|i: int, j: int| 0 <= i < j < prs.len() ==> prs[i].0 != prs[j].0
}

/// When a key is present, `first_key_index` points at its first pair.
pub proof fn lemma_first_key_index_props(prs: Seq<(Seq<u8>, SpecValue)>, k: Seq<u8>)
    requires
        has_key(prs, k),
    ensures
        0 <= first_key_index(prs, k) < prs.len(),
        prs[first_key_index(prs, k)].0 == k,
    decreases prs.len(),
{
    if prs.len() > 0 && prs[0].0 != k {
        let tail = prs.skip(1);
        let i = choose|i: int| 0 <= i < prs.len() && prs[i].0 == k;
        assert(tail[i - 1] == prs[i]);
        assert(has_key(tail, k));
        lemma_first_key_index_props(tail, k);
        assert(prs[first_key_index(tail, k) + 1] == tail[first_key_index(tail, k)]);
    }
}

/// Law: inserting with last write wins keeps the keys pairwise distinct.
pub proof fn lemma_upsert_keys_unique(prs: Seq<(Seq<u8>, SpecValue)>, k: Seq<u8>, v: SpecValue)
    requires
        keys_unique(prs),
    ensures
        keys_unique(upsert(prs, k, v)),
{
    if has_key(prs, k) {
        lemma_first_key_index_props(prs, k);
        let f = first_key_index(prs, k);
        let u = prs.update(f, (k, v));
        assert forall|i: int, j: int| 0 <= i < j < u.len() implies u[i].0 != u[j].0 by {
            if i == f {
                assert(u[j] == prs[j] && prs[f].0 == k);
            } else if j == f {
                assert(u[i] == prs[i] && prs[f].0 == k);
            } else {
                assert(u[i] == prs[i] && u[j] == prs[j]);
            }
        }
    } else {
        let u = prs.push((k, v));
        assert forall|i: int, j: int| 0 <= i < j < u.len() implies u[i].0 != u[j].0 by {
            if j == prs.len() {
                assert(u[i] == prs[i]);
                assert(!(0 <= i < prs.len() && prs[i].0 == k));
            } else {
                assert(u[i] == prs[i] && u[j] == prs[j]);
            }
        }
    }
}

/// A structurally well-formed value: every dictionary anywhere inside it
/// keeps its keys pairwise distinct.
pub open spec fn value_wf(v: SpecValue) -> bool
    decreases v,
{
    match v {
        SpecValue::Text(t) => true,
        SpecValue::Integer(n) => true,
        SpecValue::List(vs) => values_wf(vs),
        SpecValue::Dictionary(prs) => keys_unique(prs) && pairs_wf(prs),
    }
}

/// Every element of the sequence is a well-formed value.
pub open spec fn values_wf(vs: Seq<SpecValue>) -> bool
    decreases vs,
{
    vs.len() == 0 || (value_wf(vs[0]) && values_wf(vs.skip(1)))
}

/// Every value of the pair sequence is well-formed.
pub open spec fn pairs_wf(prs: Seq<(Seq<u8>, SpecValue)>) -> bool
    decreases prs,
{
    prs.len() == 0 || (value_wf(prs[0].1) && pairs_wf(prs.skip(1)))
}

pub proof fn lemma_values_wf_push(vs: Seq<SpecValue>, v: SpecValue)
    requires
        values_wf(vs),
        value_wf(v),
    ensures
        values_wf(vs.push(v)),
    decreases vs.len(),
{
    let u = vs.push(v);
    if vs.len() == 0 {
        assert(u[0] == v);
        assert(u.skip(1) =~= Seq::<SpecValue>::empty());
        assert(values_wf(u.skip(1)));
    } else {
        assert(u[0] == vs[0]);
        assert(value_wf(vs[0]));
        assert(u.skip(1) =~= vs.skip(1).push(v));
        lemma_values_wf_push(vs.skip(1), v);
        assert(values_wf(u.skip(1)));
    }
}

pub proof fn lemma_pairs_wf_push(prs: Seq<(Seq<u8>, SpecValue)>, k: Seq<u8>, v: SpecValue)
    requires
        pairs_wf(prs),
        value_wf(v),
    ensures
        pairs_wf(prs.push((k, v))),
    decreases prs.len(),
{
    let u = prs.push((k, v));
    if prs.len() == 0 {
        assert(u[0] == (k, v));
        assert(u.skip(1) =~= Seq::<(Seq<u8>, SpecValue)>::empty());
        assert(pairs_wf(u.skip(1)));
    } else {
        assert(u[0] == prs[0]);
        assert(value_wf(prs[0].1));
        assert(u.skip(1) =~= prs.skip(1).push((k, v)));
        lemma_pairs_wf_push(prs.skip(1), k, v);
        assert(pairs_wf(u.skip(1)));
    }
}

pub proof fn lemma_pairs_wf_update(prs: Seq<(Seq<u8>, SpecValue)>, f: int, k: Seq<u8>, v: SpecValue)
    requires
        pairs_wf(prs),
        value_wf(v),
        0 <= f < prs.len(),
    ensures
        pairs_wf(prs.update(f, (k, v))),
    decreases prs.len(),
{
    let u = prs.update(f, (k, v));
    if f == 0 {
        assert(u[0] == (k, v));
        assert(u.skip(1) =~= prs.skip(1));
    } else {
        assert(u[0] == prs[0]);
        assert(u.skip(1) =~= prs.skip(1).update(f - 1, (k, v)));
        lemma_pairs_wf_update(prs.skip(1), f - 1, k, v);
    }
}

/// Law: inserting a well-formed value with last write wins keeps every value
/// of the pair sequence well-formed.
pub proof fn lemma_upsert_pairs_wf(prs: Seq<(Seq<u8>, SpecValue)>, k: Seq<u8>, v: SpecValue)
    requires
        pairs_wf(prs),
        value_wf(v),
    ensures
        pairs_wf(upsert(prs, k, v)),
{
    if has_key(prs, k) {
        lemma_first_key_index_props(prs, k);
        lemma_pairs_wf_update(prs, first_key_index(prs, k), k, v);
    } else {
        lemma_pairs_wf_push(prs, k, v);
    }
}

pub proof fn lemma_first_key_index(prs: Seq<(Seq<u8>, SpecValue)>, k: Seq<u8>, i: int)
    requires
        0 <= i < prs.len(),
        prs[i].0 == k,
        forall|j: int| 0 <= j < i ==> prs[j].0 != k,
    ensures
        first_key_index(prs, k) == i,
    decreases i,
{
    if i > 0 {
        let tail = prs.skip(1);
        assert(tail[i - 1] == prs[i]);
        assert forall|j: int| 0 <= j < i - 1 implies tail[j].0 != k by {
            assert(tail[j] == prs[j + 1]);
        }
        lemma_first_key_index(tail, k, i - 1);
    }
}

pub proof fn lemma_digits_val_nonneg(s: Seq<u8>)
    requires
        all_digits(s),
    ensures
        digits_val(s) >= 0,
    decreases s.len(),
{
    if s.len() > 0 {
        lemma_digits_val_nonneg(s.drop_last());
        assert(is_digit_byte(s.last()));
    }
}

/// Reading more digits never shrinks the value: any digit prefix denotes at
/// most what the whole string denotes.
pub proof fn lemma_digits_val_prefix(s: Seq<u8>, m: int)
    requires
        all_digits(s),
        0 <= m <= s.len(),
    ensures
        digits_val(s.take(m)) <= digits_val(s),
    decreases s.len(),
{
    if m < s.len() {
        let front = s.drop_last();
        assert(all_digits(front));
        assert(s.take(m) =~= front.take(m));
        lemma_digits_val_prefix(front, m);
        lemma_digits_val_nonneg(front);
        assert(is_digit_byte(s.last()));
        assert(digits_val(s) == digits_val(front) * 10 + (s.last() - 48));
        assert(digits_val(front) * 10 >= digits_val(front));
    } else {
        assert(s.take(m) =~= s);
    }
}

} // verus!
