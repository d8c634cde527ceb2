//! The structural decoder for the wire grammar
//!
//! ```text
//! value      := integer | string | list | dictionary
//! integer    := 'i' ['-'] digit+ 'e'
//! string     := length ':' byte{length}
//! list       := 'l' value* 'e'
//! dictionary := 'd' (string value)* 'e'
//! ```
//!
//! The mathematical decoder (`spec_parse_value` and friends) is the reference
//! the executable parser is proved against: each executable function returns
//! `Ok` with exactly the value and remainder the mathematical decoder gives,
//! and `Err` exactly when it gives none.

use vstd::prelude::*;

use crate::value::BigNum;
use crate::value::Bencoding;
use crate::value::SpecValue;
use crate::value::all_digits;
use crate::value::digits_val;
use crate::value::is_digit_byte;
use crate::value::lemma_digits_val_prefix;
use crate::value::lemma_first_key_index;
use crate::value::lemma_pair_views_of_push;
use crate::value::lemma_views_of_push;
use crate::value::pair_views_of;
use crate::value::views_of;
use crate::value::upsert;
use crate::value::has_key;
use crate::value::keys_unique;
use crate::value::lemma_upsert_keys_unique;
use crate::value::lemma_upsert_pairs_wf;
use crate::value::lemma_values_wf_push;
use crate::value::value_wf;
use crate::value::values_wf;
use crate::value::pairs_wf;

verus! {

/// The leading byte of an integer.
pub const TOKEN_INTEGER: u8 = 105;

/// The leading byte of a list.
pub const TOKEN_LIST: u8 = 108;

/// The leading byte of a dictionary.
pub const TOKEN_DICTIONARY: u8 = 100;

/// The terminator of integers, lists and dictionaries.
pub const TOKEN_END: u8 = 101;

/// The separator between a string's length and its payload.
pub const TOKEN_COLON: u8 = 58;

/// The optional sign in front of an integer's digits.
pub const TOKEN_MINUS: u8 = 45;

/// The largest string length a decoder accepts: the length prefix must fit an
/// unsigned 32-bit quantity.
pub const MAX_LENGTH: u64 = 0xFFFF_FFFF;

/// Splits a byte string into its longest prefix of ASCII decimal digits and
/// the rest.
pub open spec fn spec_digits(s: Seq<u8>) -> (Seq<u8>, Seq<u8>)
    decreases s.len(),
{
    if s.len() > 0 && is_digit_byte(s[0]) {
        let rec = spec_digits(s.skip(1));
        (seq![s[0]] + rec.0, rec.1)
    } else {
        (Seq::empty(), s)
    }
}

/// One string production: a decimal length with no sign, a colon, then
/// exactly that many payload bytes; the length must fit 32 unsigned bits.
pub open spec fn spec_parse_text(s: Seq<u8>) -> Option<(Seq<u8>, Seq<u8>)> {
    let ds = spec_digits(s).0;
    let r1 = spec_digits(s).1;
    if ds.len() == 0 {
        None
    } else if digits_val(ds) > MAX_LENGTH {
        None
    } else {
        let n = digits_val(ds);
        if r1.len() == 0 || r1[0] != TOKEN_COLON {
            None
        } else {
            let body = r1.skip(1);
            if body.len() < n {
                None
            } else {
                Some((body.take(n), body.skip(n)))
            }
        }
    }
}

/// An integer literal: an optional minus sign then one or more digits.
pub open spec fn spec_parse_int(s: Seq<u8>) -> Option<(int, Seq<u8>)> {
    if s.len() > 0 && s[0] == TOKEN_MINUS {
        let ds = spec_digits(s.skip(1)).0;
        let r = spec_digits(s.skip(1)).1;
        if ds.len() == 0 {
            None
        } else {
            Some((-digits_val(ds), r))
        }
    } else {
        let ds = spec_digits(s).0;
        let r = spec_digits(s).1;
        if ds.len() == 0 {
            None
        } else {
            Some((digits_val(ds), r))
        }
    }
}

/// One value production, dispatched on the leading byte, with the unconsumed
/// remainder; `None` exactly when no value of the grammar starts the input.
pub open spec fn spec_parse_value(s: Seq<u8>) -> Option<(SpecValue, Seq<u8>)>
    decreases s.len(), 0int,
{
    if s.len() == 0 {
        None
    } else if s[0] == TOKEN_INTEGER {
        match spec_parse_int(s.skip(1)) {
            None => None,
            Some((n, r)) => if r.len() > 0 && r[0] == TOKEN_END {
                Some((SpecValue::Integer(n), r.skip(1)))
            } else {
                None
            },
        }
    } else if s[0] == TOKEN_LIST {
        match spec_parse_items(s.skip(1), Seq::empty()) {
            None => None,
            Some((vs, r)) => Some((SpecValue::List(vs), r)),
        }
    } else if s[0] == TOKEN_DICTIONARY {
        match spec_parse_pairs(s.skip(1), Seq::empty()) {
            None => None,
            Some((prs, r)) => Some((SpecValue::Dictionary(prs), r)),
        }
    } else if is_digit_byte(s[0]) {
        match spec_parse_text(s) {
            None => None,
            Some((t, r)) => Some((SpecValue::Text(t), r)),
        }
    } else {
        None
    }
}

/// List elements up to the terminator, appended to the accumulator.
pub open spec fn spec_parse_items(s: Seq<u8>, acc: Seq<SpecValue>) -> Option<
    (Seq<SpecValue>, Seq<u8>),
>
    decreases s.len(), 1int,
{
    if s.len() == 0 {
        None
    } else if s[0] == TOKEN_END {
        Some((acc, s.skip(1)))
    } else {
        match spec_parse_value(s) {
            None => None,
            Some((v, r)) => if r.len() < s.len() {
                spec_parse_items(r, acc.push(v))
            } else {
                None
            },
        }
    }
}

/// Dictionary entries up to the terminator: each a string key then a value,
/// folded into the accumulator with last write wins.
pub open spec fn spec_parse_pairs(s: Seq<u8>, acc: Seq<(Seq<u8>, SpecValue)>) -> Option<
    (Seq<(Seq<u8>, SpecValue)>, Seq<u8>),
>
    decreases s.len(), 1int,
{
    if s.len() == 0 {
        None
    } else if s[0] == TOKEN_END {
        Some((acc, s.skip(1)))
    } else {
        match spec_parse_text(s) {
            None => None,
            Some((k, r1)) => if r1.len() < s.len() {
                match spec_parse_value(r1) {
                    None => None,
                    Some((v, r2)) => if r2.len() < s.len() {
                        spec_parse_pairs(r2, upsert(acc, k, v))
                    } else {
                        None
                    },
                }
            } else {
                None
            },
        }
    }
}

proof fn lemma_parse_pairs_keys_unique(s: Seq<u8>, acc: Seq<(Seq<u8>, SpecValue)>)
    requires
        keys_unique(acc),
        spec_parse_pairs(s, acc) is Some,
    ensures
        keys_unique(spec_parse_pairs(s, acc)->Some_0.0),
    decreases s.len(),
{
    if s[0] == TOKEN_END {
    } else {
        let (k, r1) = spec_parse_text(s)->Some_0;
        let (v, r2) = spec_parse_value(r1)->Some_0;
        lemma_upsert_keys_unique(acc, k, v);
        lemma_parse_pairs_keys_unique(r2, upsert(acc, k, v));
    }
}

proof fn lemma_parse_items_wf(s: Seq<u8>, acc: Seq<SpecValue>)
    requires
        values_wf(acc),
        spec_parse_items(s, acc) is Some,
    ensures
        values_wf(spec_parse_items(s, acc)->Some_0.0),
    decreases s.len(), 1int,
{
    if s[0] == TOKEN_END {
    } else {
        let (v, r1) = spec_parse_value(s)->Some_0;
        lemma_parse_value_wf(s, v, r1);
        lemma_values_wf_push(acc, v);
        lemma_parse_items_wf(r1, acc.push(v));
    }
}

proof fn lemma_parse_pairs_wf(s: Seq<u8>, acc: Seq<(Seq<u8>, SpecValue)>)
    requires
        pairs_wf(acc),
        spec_parse_pairs(s, acc) is Some,
    ensures
        pairs_wf(spec_parse_pairs(s, acc)->Some_0.0),
    decreases s.len(), 1int,
{
    if s[0] == TOKEN_END {
    } else {
        let (k, r1) = spec_parse_text(s)->Some_0;
        let (v, r2) = spec_parse_value(r1)->Some_0;
        lemma_parse_value_wf(r1, v, r2);
        lemma_upsert_pairs_wf(acc, k, v);
        lemma_parse_pairs_wf(r2, upsert(acc, k, v));
    }
}

proof fn lemma_parse_value_wf(s: Seq<u8>, v: SpecValue, r: Seq<u8>)
    requires
        spec_parse_value(s) == Some((v, r)),
    ensures
        value_wf(v),
    decreases s.len(), 0int,
{
    if s[0] == TOKEN_LIST {
        lemma_parse_items_wf(s.skip(1), Seq::empty());
    } else if s[0] == TOKEN_DICTIONARY {
        lemma_parse_pairs_wf(s.skip(1), Seq::empty());
        lemma_parse_pairs_keys_unique(s.skip(1), Seq::empty());
    }
}

/// Law: every value the decoder yields is structurally well-formed: each
/// dictionary anywhere inside it keeps its keys pairwise distinct.
pub proof fn lemma_decoded_value_wf(s: Seq<u8>, v: SpecValue, r: Seq<u8>)
    requires
        spec_parse_value(s) == Some((v, r)),
    ensures
        value_wf(v),
{
    lemma_parse_value_wf(s, v, r);
}

/// Law: every dictionary the decoder yields keeps its keys pairwise
/// distinct; a duplicate key on the wire overwrote the value in place.
pub proof fn lemma_decoded_dictionary_keys_unique(
    s: Seq<u8>,
    prs: Seq<(Seq<u8>, SpecValue)>,
    r: Seq<u8>,
)
    requires
        spec_parse_value(s) == Some((SpecValue::Dictionary(prs), r)),
    ensures
        keys_unique(prs),
{
    lemma_parse_pairs_keys_unique(s.skip(1), Seq::empty());
}

proof fn lemma_skip_skip(s: Seq<u8>, a: int, b: int)
    requires
        0 <= a,
        0 <= b,
        a + b <= s.len(),
    ensures
        s.skip(a).skip(b) == s.skip(a + b),
{
    assert(s.skip(a).skip(b) =~= s.skip(a + b));
}

/// The longest digit prefix of a string, characterized by its length: all
/// bytes before the cut are digits and the byte at the cut, if any, is not.
pub(crate) proof fn lemma_spec_digits(s: Seq<u8>)
    ensures
        spec_digits(s).0.len() <= s.len(),
        spec_digits(s).0 == s.take(spec_digits(s).0.len() as int),
        spec_digits(s).1 == s.skip(spec_digits(s).0.len() as int),
        all_digits(spec_digits(s).0),
        spec_digits(s).0.len() == s.len() || !is_digit_byte(s[spec_digits(s).0.len() as int]),
    decreases s.len(),
{
    if s.len() > 0 && is_digit_byte(s[0]) {
        let tail = s.skip(1);
        lemma_spec_digits(tail);
        let k = spec_digits(tail).0.len() as int;
        assert(spec_digits(s).0 =~= s.take(k + 1));
        assert(spec_digits(s).1 =~= s.skip(k + 1));
        assert forall|i: int| 0 <= i < k + 1 implies is_digit_byte(#[trigger] s.take(k + 1)[i]) by {
            if i > 0 {
                assert(tail.take(k)[i - 1] == s[i]);
            }
        }
        if k + 1 < s.len() {
            assert(tail[k] == s[k + 1]);
        }
    } else {
        assert(spec_digits(s).0 =~= s.take(0));
        assert(spec_digits(s).1 =~= s.skip(0));
    }
}

/// A failed parse: the input does not start with (or, at the top entry point,
/// consist exactly of) one well-formed value of the wire grammar.
#[derive(Debug, PartialEq, Eq, Clone)]
pub struct BencodingParseError;

/// Copies `input[from..to]` into a fresh vector.
fn copy_range(input: &[u8], from: usize, to: usize) -> (r: Vec<u8>)
    requires
        from <= to <= input@.len(),
    ensures
        r@ == input@.subrange(from as int, to as int),
{
    let mut r: Vec<u8> = Vec::new();
    let mut i: usize = from;
    while i < to
        invariant
            from <= i <= to <= input@.len(),
            r@ == input@.subrange(from as int, i as int),
        decreases to - i,
    {
        r.push(input[i]);
        proof {
            assert(r@ =~= input@.subrange(from as int, i + 1));
        }
        i += 1;
    }
    r
}

/// Advances over the longest run of ASCII decimal digits starting at `pos`.
fn scan_digits(input: &[u8], pos: usize) -> (end: usize)
    requires
        pos <= input@.len(),
    ensures
        pos <= end <= input@.len(),
        spec_digits(input@.skip(pos as int)).0 == input@.subrange(pos as int, end as int),
        spec_digits(input@.skip(pos as int)).1 == input@.skip(end as int),
        all_digits(input@.subrange(pos as int, end as int)),
        end == input@.len() || !is_digit_byte(input@[end as int]),
    decreases input@.len() - pos,
{
    let n = input.len();
    let mut i: usize = pos;
    while i < n && input[i] >= 48 && input[i] <= 57
        invariant
            pos <= i <= n,
            n == input@.len(),
            forall|j: int| pos <= j < i ==> is_digit_byte(input@[j]),
        decreases n - i,
    {
        i += 1;
    }
    proof {
        let s = input@.skip(pos as int);
        lemma_spec_digits(s);
        let k = spec_digits(s).0.len() as int;
        let m = i - pos;
        assert forall|j: int| 0 <= j < s.len() implies s[j] == input@[pos + j] by {}
        if k < m {
            assert(s[k] == input@[pos + k]);
            assert(is_digit_byte(input@[pos + k]));
        }
        if m < k {
            assert(is_digit_byte(s.take(k)[m]));
            assert(s.take(k)[m] == s[m]);
            assert(s[m] == input@[i as int]);
        }
        assert(k == m);
        assert(s.take(k) =~= input@.subrange(pos as int, i as int));
        lemma_skip_skip(input@, pos as int, k);
    }
    i
}

/// Reads one string production at `pos`: length digits with no sign, a
/// colon, then exactly that many payload bytes.
fn parse_text_at(input: &[u8], pos: usize) -> (r: Result<(Vec<u8>, usize), BencodingParseError>)
    requires
        pos <= input@.len(),
    ensures
        match r {
            Ok((t, end)) => pos < end <= input@.len() && spec_parse_text(input@.skip(pos as int))
                == Some((t@, input@.skip(end as int))),
            Err(e) => spec_parse_text(input@.skip(pos as int)) is None,
        },
{
    let n = input.len();
    let dend = scan_digits(input, pos);
    if dend == pos {
        return Err(BencodingParseError);
    }
    let ghost ds = input@.subrange(pos as int, dend as int);
    let mut acc: u64 = 0;
    let mut i: usize = pos;
    while i < dend
        invariant
            pos <= i <= dend <= input@.len(),
            pos < dend,
            spec_digits(input@.skip(pos as int)).0 == input@.subrange(pos as int, dend as int),
            all_digits(input@.subrange(pos as int, dend as int)),
            acc <= MAX_LENGTH,
            acc == digits_val(input@.subrange(pos as int, i as int)),
        decreases dend - i,
    {
        let ghost full = input@.subrange(pos as int, dend as int);
        proof {
            assert(is_digit_byte(full[i - pos]));
            assert(full[i - pos] == input@[i as int]);
        }
        let d = input[i];
        let next: u64 = acc * 10 + ((d - 48) as u64);
        proof {
            let pre = input@.subrange(pos as int, i as int);
            let now = input@.subrange(pos as int, i + 1);
            assert(now.drop_last() =~= pre);
            assert(now.last() == input@[i as int]);
            assert(digits_val(now) == digits_val(pre) * 10 + (input@[i as int] - 48));
        }
        if next > 4294967295 {
            proof {
                lemma_digits_val_prefix(full, i + 1 - pos);
                assert(full.take(i + 1 - pos) =~= input@.subrange(pos as int, i + 1));
            }
            return Err(BencodingParseError);
        }
        acc = next;
        i += 1;
    }
    if dend == n {
        return Err(BencodingParseError);
    }
    if input[dend] != TOKEN_COLON {
        proof {
            assert(input@.skip(dend as int)[0] == input@[dend as int]);
        }
        return Err(BencodingParseError);
    }
    let length = acc as usize;
    let body_start = dend + 1;
    proof {
        lemma_skip_skip(input@, dend as int, 1);
    }
    if n - body_start < length {
        return Err(BencodingParseError);
    }
    let t = copy_range(input, body_start, body_start + length);
    proof {
        let body = input@.skip(body_start as int);
        assert(body.take(length as int) =~= input@.subrange(
            body_start as int,
            body_start + length,
        ));
        assert(body.skip(length as int) =~= input@.skip(body_start + length));
    }
    Ok((t, body_start + length))
}

/// Inserts a key/value pair into a dictionary's pair vector: the first pair
/// with the same key is overwritten in place, a new key is appended.
fn upsert_pair(pairs: &mut Vec<(Vec<u8>, Bencoding)>, key: Vec<u8>, value: Bencoding)
    ensures
        pair_views_of(final(pairs)@) == upsert(pair_views_of(old(pairs)@), key@, value@),
{
    let ghost orig = pair_views_of(pairs@);
    let n = pairs.len();
    let mut i: usize = 0;
    while i < n
        invariant
            i <= n,
            n == pairs@.len(),
            orig == pair_views_of(pairs@),
            orig == pair_views_of(old(pairs)@),
            forall|j: int| 0 <= j < i ==> pair_views_of(pairs@)[j].0 != key@,
        decreases n - i,
    {
        if bytes_eq(&pairs[i].0, &key) {
            proof {
                assert(orig[i as int].0 == key@);
                lemma_first_key_index(orig, key@, i as int);
            }
            let ghost before = pairs@;
            pairs.remove(i);
            pairs.insert(i, (key, value));
            proof {
                before.remove_ensures(i as int);
                before.remove(i as int).insert_ensures(i as int, (key, value));
                assert(pairs@ =~= before.update(i as int, (key, value)));
                assert(pair_views_of(pairs@) =~= upsert(orig, key@, value@));
            }
            return ;
        }
        proof {
            assert(pair_views_of(pairs@)[i as int].0 == pairs@[i as int].0@);
        }
        i += 1;
    }
    proof {
        assert(!has_key(orig, key@));
    }
    pairs.push((key, value));
    proof {
        lemma_pair_views_of_push(old(pairs)@, key, value);
    }
}

/// Reads one value of the grammar at `pos`, dispatching on the leading byte:
/// `i` starts an integer, `l` a list, `d` a dictionary, a decimal digit a
/// string; anything else, or running out of input, is a parse failure.
fn parse_value_at(input: &[u8], pos: usize) -> (r: Result<
    (Bencoding, usize),
    BencodingParseError,
>)
    requires
        pos <= input@.len(),
    ensures
        match r {
            Ok((v, end)) => pos < end <= input@.len() && spec_parse_value(input@.skip(pos as int))
                == Some((v@, input@.skip(end as int))),
            Err(e) => spec_parse_value(input@.skip(pos as int)) is None,
        },
    decreases input@.len() - pos,
{
    let n = input.len();
    if pos == n {
        return Err(BencodingParseError);
    }
    proof {
        assert(input@.skip(pos as int)[0] == input@[pos as int]);
    }
    let head = input[pos];
    if head == TOKEN_INTEGER {
        let mut dpos = pos + 1;
        proof {
            lemma_skip_skip(input@, pos as int, 1);
            if dpos < n {
                assert(input@.skip(dpos as int)[0] == input@[dpos as int]);
            }
        }
        let negative = dpos < n && input[dpos] == TOKEN_MINUS;
        if negative {
            dpos = dpos + 1;
            proof {
                lemma_skip_skip(input@, pos + 1, 1);
            }
        }
        let dend = scan_digits(input, dpos);
        if dend == dpos {
            return Err(BencodingParseError);
        }
        if dend == n {
            return Err(BencodingParseError);
        }
        proof {
            assert(input@.skip(dend as int)[0] == input@[dend as int]);
        }
        if input[dend] != TOKEN_END {
            return Err(BencodingParseError);
        }
        let digits = copy_range(input, dpos, dend);
        let number = BigNum::new(negative, digits);
        proof {
            lemma_skip_skip(input@, dend as int, 1);
        }
        Ok((Bencoding::Integer(number), dend + 1))
    } else if head == TOKEN_LIST {
        let mut elems: Vec<Bencoding> = Vec::new();
        let mut cur = pos + 1;
        proof {
            lemma_skip_skip(input@, pos as int, 1);
            assert(views_of(elems@) =~= Seq::<SpecValue>::empty());
        }
        loop
            invariant
                pos < cur <= n,
                n == input@.len(),
                pos < n,
                input@[pos as int] == TOKEN_LIST,
                spec_parse_items(input@.skip(pos + 1), Seq::empty()) == spec_parse_items(
                    input@.skip(cur as int),
                    views_of(elems@),
                ),
            decreases n - cur,
        {
            proof {
                lemma_skip_skip(input@, pos as int, 1);
                assert(input@.skip(pos as int)[0] == input@[pos as int]);
                assert(input@.skip(cur as int).len() == n - cur);
            }
            if cur == n {
                return Err(BencodingParseError);
            }
            proof {
                assert(input@.skip(cur as int)[0] == input@[cur as int]);
            }
            if input[cur] == TOKEN_END {
                proof {
                    lemma_skip_skip(input@, cur as int, 1);
                }
                return Ok((Bencoding::List(elems), cur + 1));
            }
            match parse_value_at(input, cur) {
                Err(e) => {
                    return Err(e);
                },
                Ok((v, vend)) => {
                    proof {
                        assert(input@.skip(vend as int).len() < input@.skip(cur as int).len());
                        lemma_views_of_push(elems@, v);
                    }
                    elems.push(v);
                    cur = vend;
                },
            }
        }
    } else if head == TOKEN_DICTIONARY {
        let mut pairs: Vec<(Vec<u8>, Bencoding)> = Vec::new();
        let mut cur = pos + 1;
        proof {
            lemma_skip_skip(input@, pos as int, 1);
            assert(pair_views_of(pairs@) =~= Seq::<(Seq<u8>, SpecValue)>::empty());
        }
        loop
            invariant
                pos < cur <= n,
                n == input@.len(),
                pos < n,
                input@[pos as int] == TOKEN_DICTIONARY,
                spec_parse_pairs(input@.skip(pos + 1), Seq::empty()) == spec_parse_pairs(
                    input@.skip(cur as int),
                    pair_views_of(pairs@),
                ),
            decreases n - cur,
        {
            proof {
                lemma_skip_skip(input@, pos as int, 1);
                assert(input@.skip(pos as int)[0] == input@[pos as int]);
                assert(input@.skip(cur as int).len() == n - cur);
            }
            if cur == n {
                return Err(BencodingParseError);
            }
            proof {
                assert(input@.skip(cur as int)[0] == input@[cur as int]);
            }
            if input[cur] == TOKEN_END {
                proof {
                    lemma_skip_skip(input@, cur as int, 1);
                }
                return Ok((Bencoding::Dictionary(pairs), cur + 1));
            }
            match parse_text_at(input, cur) {
                Err(e) => {
                    return Err(e);
                },
                Ok((key, kend)) => {
                    proof {
                        assert(input@.skip(kend as int).len() < input@.skip(cur as int).len());
                    }
                    match parse_value_at(input, kend) {
                        Err(e) => {
                            return Err(e);
                        },
                        Ok((v, vend)) => {
                            proof {
                                assert(input@.skip(vend as int).len() < input@.skip(
                                    cur as int,
                                ).len());
                            }
                            upsert_pair(&mut pairs, key, v);
                            cur = vend;
                        },
                    }
                },
            }
        }
    } else if head >= 48 && head <= 57 {
        match parse_text_at(input, pos) {
            Err(e) => Err(e),
            Ok((t, end)) => Ok((Bencoding::Text(t), end)),
        }
    } else {
        Err(BencodingParseError)
    }
}

impl Bencoding {
    /// Decodes one value from the front of the input, yielding the
    /// unconsumed remainder beside it; fails exactly when no value of the
    /// wire grammar starts the input.
    pub fn parse(input: &[u8]) -> (r: Result<(Vec<u8>, Bencoding), BencodingParseError>)
        ensures
            match r {
                Ok((rest, v)) => spec_parse_value(input@) == Some((v@, rest@)),
                Err(e) => spec_parse_value(input@) is None,
            },
    {
        proof {
            assert(input@.skip(0) =~= input@);
        }
        match parse_value_at(input, 0) {
            Ok((v, end)) => {
                let rest = copy_range(input, end, input.len());
                proof {
                    assert(input@.subrange(end as int, input@.len() as int) =~= input@.skip(
                        end as int,
                    ));
                }
                Ok((rest, v))
            },
            Err(e) => Err(e),
        }
    }

    /// Decodes a buffer that must hold exactly one value with nothing after
    /// it; fails exactly when parsing fails or bytes trail the value.
    pub fn from_slice(input: &[u8]) -> (r: Result<Bencoding, BencodingParseError>)
        ensures
            match r {
                Ok(v) => spec_parse_value(input@) == Some((v@, Seq::<u8>::empty())),
                Err(e) => ({
                    let d = spec_parse_value(input@);
                    d is None || (d->Some_0).1.len() != 0
                }),
            },
    {
        proof {
            assert(input@.skip(0) =~= input@);
        }
        match parse_value_at(input, 0) {
            Ok((v, end)) => {
                if end == input.len() {
                    proof {
                        assert(input@.skip(end as int) =~= Seq::<u8>::empty());
                    }
                    Ok(v)
                } else {
                    Err(BencodingParseError)
                }
            },
            Err(e) => Err(e),
        }
    }
}

/// Whether two byte vectors hold the same bytes.
fn bytes_eq(a: &Vec<u8>, b: &Vec<u8>) -> (r: bool)
    ensures
        r == (a@ == b@),
{
    let n = a.len();
    if n != b.len() {
        proof {
            assert(a@ !~= b@);
        }
        return false;
    }
    let mut i: usize = 0;
    while i < n
        invariant
            i <= n,
            n == a@.len(),
            a@.len() == b@.len(),
            forall|j: int| 0 <= j < i ==> a@[j] == b@[j],
        decreases n - i,
    {
        if a[i] != b[i] {
            return false;
        }
        i += 1;
    }
    proof {
        assert(a@ =~= b@);
    }
    true
}

} // verus!

