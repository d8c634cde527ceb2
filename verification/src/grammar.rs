//! The wire grammar as a relation between byte strings and values, and the
//! proof that the decoder accepts every valid encoding.
//!
//! A `Wire` tree is a derivation of the grammar: it fixes every choice the
//! grammar leaves open (the digits of each numeral, so a length may carry
//! leading zeros, and the raw run of dictionary pairs, which may repeat
//! keys). `render` spells a tree out as bytes and `value_of` is the value it
//! denotes; `is_encoding(e, v)` says some well-formed tree renders as `e`
//! and denotes `v`. The decoding laws below state that parsing any such `e`
//! yields exactly `v` and consumes exactly `e`, and conversely that whatever
//! the decoder parses is a valid encoding of the value it returns.

use vstd::prelude::*;

use crate::decode::MAX_LENGTH;
use crate::decode::TOKEN_COLON;
use crate::decode::TOKEN_DICTIONARY;
use crate::decode::TOKEN_END;
use crate::decode::TOKEN_INTEGER;
use crate::decode::TOKEN_LIST;
use crate::decode::TOKEN_MINUS;
use crate::decode::spec_digits;
use crate::decode::lemma_spec_digits;
use crate::decode::spec_parse_int;
use crate::decode::spec_parse_items;
use crate::decode::spec_parse_pairs;
use crate::decode::spec_parse_text;
use crate::decode::spec_parse_value;
use crate::value::SpecValue;
use crate::value::all_digits;
use crate::value::digits_val;
use crate::value::lemma_digits_val_nonneg;
use crate::value::is_digit_byte;
use crate::value::upsert;

verus! {

/// One string production of a derivation: the digits of the length numeral,
/// and the payload bytes.
pub struct WireStr {
    pub numeral: Seq<u8>,
    pub payload: Seq<u8>,
}

/// One derivation of the wire grammar.
pub enum Wire {
    /// A string: its length numeral and payload.
    Text(WireStr),
    /// An integer: whether a minus sign is written, and the magnitude digits.
    Integer(bool, Seq<u8>),
    /// A list of derivations.
    List(Seq<Wire>),
    /// A run of key/value pairs as they stand on the wire, repeats allowed.
    Dictionary(Seq<(WireStr, Wire)>),
}

/// A well-formed string production: a nonempty numeral of decimal digits
/// that denotes the payload's length, which fits 32 unsigned bits.
pub open spec fn str_ok(ts: WireStr) -> bool {
    &&& ts.numeral.len() >= 1
    &&& all_digits(ts.numeral)
    &&& digits_val(ts.numeral) == ts.payload.len()
    &&& ts.payload.len() <= MAX_LENGTH
}

/// A well-formed derivation: every numeral is nonempty, digit-only and
/// consistent with its payload.
pub open spec fn wire_ok(w: Wire) -> bool
    decreases w,
{
    match w {
        Wire::Text(ts) => str_ok(ts),
        Wire::Integer(negative, digits) => digits.len() >= 1 && all_digits(digits),
        Wire::List(ws) => items_ok(ws),
        Wire::Dictionary(ps) => pairs_ok(ps),
    }
}

/// Every derivation of a list's elements is well-formed.
pub open spec fn items_ok(ws: Seq<Wire>) -> bool
    decreases ws,
{
    ws.len() == 0 || (wire_ok(ws[0]) && items_ok(ws.skip(1)))
}

/// Every key and value derivation of a dictionary's pair run is well-formed.
pub open spec fn pairs_ok(ps: Seq<(WireStr, Wire)>) -> bool
    decreases ps,
{
    ps.len() == 0 || (str_ok(ps[0].0) && wire_ok(ps[0].1) && pairs_ok(ps.skip(1)))
}

/// The bytes of one string production: numeral, colon, payload.
pub open spec fn render_str(ts: WireStr) -> Seq<u8> {
    ts.numeral + seq![TOKEN_COLON] + ts.payload
}

/// The bytes a derivation spells out on the wire.
pub open spec fn render(w: Wire) -> Seq<u8>
    decreases w,
{
    match w {
        Wire::Text(ts) => render_str(ts),
        Wire::Integer(negative, digits) => seq![TOKEN_INTEGER] + (if negative {
            seq![TOKEN_MINUS]
        } else {
            Seq::empty()
        }) + digits + seq![TOKEN_END],
        Wire::List(ws) => seq![TOKEN_LIST] + render_items(ws) + seq![TOKEN_END],
        Wire::Dictionary(ps) => seq![TOKEN_DICTIONARY] + render_pairs(ps) + seq![TOKEN_END],
    }
}

/// The concatenated bytes of a list's element derivations.
pub open spec fn render_items(ws: Seq<Wire>) -> Seq<u8>
    decreases ws,
{
    if ws.len() == 0 {
        Seq::empty()
    } else {
        render(ws[0]) + render_items(ws.skip(1))
    }
}

/// The concatenated bytes of a dictionary's pair derivations.
pub open spec fn render_pairs(ps: Seq<(WireStr, Wire)>) -> Seq<u8>
    decreases ps,
{
    if ps.len() == 0 {
        Seq::empty()
    } else {
        render_str(ps[0].0) + render(ps[0].1) + render_pairs(ps.skip(1))
    }
}

/// The value a derivation denotes.
pub open spec fn value_of(w: Wire) -> SpecValue
    decreases w,
{
    match w {
        Wire::Text(ts) => SpecValue::Text(ts.payload),
        Wire::Integer(negative, digits) => SpecValue::Integer(
            if negative {
                -digits_val(digits)
            } else {
                digits_val(digits)
            },
        ),
        Wire::List(ws) => SpecValue::List(values_of(ws)),
        Wire::Dictionary(ps) => SpecValue::Dictionary(dict_value_of(ps, Seq::empty())),
    }
}

/// The values a list's element derivations denote, in order.
pub open spec fn values_of(ws: Seq<Wire>) -> Seq<SpecValue>
    decreases ws,
{
    if ws.len() == 0 {
        Seq::empty()
    } else {
        seq![value_of(ws[0])] + values_of(ws.skip(1))
    }
}

/// The dictionary a pair run denotes: each pair folded into the accumulator
/// in order, last write wins.
pub open spec fn dict_value_of(
    ps: Seq<(WireStr, Wire)>,
    acc: Seq<(Seq<u8>, SpecValue)>,
) -> Seq<(Seq<u8>, SpecValue)>
    decreases ps,
{
    if ps.len() == 0 {
        acc
    } else {
        dict_value_of(ps.skip(1), upsert(acc, ps[0].0.payload, value_of(ps[0].1)))
    }
}

/// Whether `e` is a valid encoding of the value `v` under the wire grammar:
/// some well-formed derivation spells out `e` and denotes `v`.
pub open spec fn is_encoding(e: Seq<u8>, v: SpecValue) -> bool {
    exists|w: Wire| wire_ok(w) && render(w) == e && value_of(w) == v
}

/// The longest digit prefix of a digit run followed by a non-digit is the
/// run itself.
proof fn lemma_spec_digits_concat(d: Seq<u8>, r: Seq<u8>)
    requires
        all_digits(d),
        r.len() == 0 || !is_digit_byte(r[0]),
    ensures
        spec_digits(d + r).0 == d,
        spec_digits(d + r).1 == r,
    decreases d.len(),
{
    if d.len() == 0 {
        assert(d + r =~= r);
        assert(spec_digits(r).0 =~= d);
    } else {
        assert((d + r)[0] == d[0]);
        assert(is_digit_byte(d[0]));
        assert((d + r).skip(1) =~= d.skip(1) + r);
        assert(all_digits(d.skip(1)));
        lemma_spec_digits_concat(d.skip(1), r);
        assert(spec_digits(d + r).0 =~= d);
    }
}

proof fn lemma_decode_str(ts: WireStr, rest: Seq<u8>)
    requires
        str_ok(ts),
    ensures
        spec_parse_text(render_str(ts) + rest) == Some((ts.payload, rest)),
{
    let s = render_str(ts) + rest;
    let after = seq![TOKEN_COLON] + ts.payload + rest;
    assert(s =~= ts.numeral + after);
    lemma_spec_digits_concat(ts.numeral, after);
    assert(after[0] == TOKEN_COLON);
    let body = after.skip(1);
    assert(body =~= ts.payload + rest);
    assert(body.take(ts.payload.len() as int) =~= ts.payload);
    assert(body.skip(ts.payload.len() as int) =~= rest);
}

/// No rendering of a well-formed derivation is empty or starts with the
/// terminator byte.
proof fn lemma_render_head(w: Wire)
    requires
        wire_ok(w),
    ensures
        render(w).len() > 0,
        render(w)[0] != TOKEN_END,
{
    match w {
        Wire::Text(ts) => {
            assert(render(w)[0] == ts.numeral[0]);
            assert(is_digit_byte(ts.numeral[0]));
        },
        Wire::Integer(negative, digits) => {
            assert(render(w)[0] == TOKEN_INTEGER);
        },
        Wire::List(ws) => {
            assert(render(w)[0] == TOKEN_LIST);
        },
        Wire::Dictionary(ps) => {
            assert(render(w)[0] == TOKEN_DICTIONARY);
        },
    }
}

/// Decoding the rendering of a well-formed derivation, with anything at all
/// appended, yields exactly the value it denotes and the appended bytes as
/// the remainder.
pub proof fn lemma_decode_wire(w: Wire, rest: Seq<u8>)
    requires
        wire_ok(w),
    ensures
        spec_parse_value(render(w) + rest) == Some((value_of(w), rest)),
    decreases w,
{
    let s = render(w) + rest;
    match w {
        Wire::Text(ts) => {
            assert(s[0] == ts.numeral[0]);
            assert(is_digit_byte(ts.numeral[0]));
            assert(s =~= render_str(ts) + rest);
            lemma_decode_str(ts, rest);
        },
        Wire::Integer(negative, digits) => {
            assert(s[0] == TOKEN_INTEGER);
            let close = seq![TOKEN_END] + rest;
            assert(close[0] == TOKEN_END);
            assert(close.skip(1) =~= rest);
            if negative {
                let tail = seq![TOKEN_MINUS] + digits + close;
                assert(s.skip(1) =~= tail);
                assert(tail[0] == TOKEN_MINUS);
                assert(tail.skip(1) =~= digits + close);
                lemma_spec_digits_concat(digits, close);
                assert(spec_parse_int(tail) == Some((-digits_val(digits), close)));
            } else {
                let tail = digits + close;
                assert(s.skip(1) =~= tail);
                lemma_spec_digits_concat(digits, close);
                assert(is_digit_byte(digits[0]));
                assert(tail[0] == digits[0]);
                assert(spec_parse_int(tail) == Some((digits_val(digits), close)));
            }
        },
        Wire::List(ws) => {
            assert(s[0] == TOKEN_LIST);
            assert(s.skip(1) =~= render_items(ws) + seq![TOKEN_END] + rest);
            lemma_decode_items_wire(ws, rest, Seq::empty());
            assert(Seq::<SpecValue>::empty() + values_of(ws) =~= values_of(ws));
        },
        Wire::Dictionary(ps) => {
            assert(s[0] == TOKEN_DICTIONARY);
            assert(s.skip(1) =~= render_pairs(ps) + seq![TOKEN_END] + rest);
            lemma_decode_pairs_wire(ps, rest, Seq::empty());
        },
    }
}

proof fn lemma_decode_items_wire(ws: Seq<Wire>, rest: Seq<u8>, acc: Seq<SpecValue>)
    requires
        items_ok(ws),
    ensures
        spec_parse_items(render_items(ws) + seq![TOKEN_END] + rest, acc) == Some(
            (acc + values_of(ws), rest),
        ),
    decreases ws,
{
    let s = render_items(ws) + seq![TOKEN_END] + rest;
    if ws.len() == 0 {
        assert(s =~= seq![TOKEN_END] + rest);
        assert(s[0] == TOKEN_END);
        assert(s.skip(1) =~= rest);
        assert(acc + values_of(ws) =~= acc);
    } else {
        let head = render(ws[0]);
        let mid = render_items(ws.skip(1)) + seq![TOKEN_END] + rest;
        assert(s =~= head + mid);
        lemma_render_head(ws[0]);
        assert(s[0] == head[0]);
        lemma_decode_wire(ws[0], mid);
        assert(spec_parse_value(s) == Some((value_of(ws[0]), mid)));
        assert(mid.len() < s.len());
        lemma_decode_items_wire(ws.skip(1), rest, acc.push(value_of(ws[0])));
        assert(acc.push(value_of(ws[0])) + values_of(ws.skip(1)) =~= acc + values_of(ws));
    }
}

proof fn lemma_decode_pairs_wire(
    ps: Seq<(WireStr, Wire)>,
    rest: Seq<u8>,
    acc: Seq<(Seq<u8>, SpecValue)>,
)
    requires
        pairs_ok(ps),
    ensures
        spec_parse_pairs(render_pairs(ps) + seq![TOKEN_END] + rest, acc) == Some(
            (dict_value_of(ps, acc), rest),
        ),
    decreases ps,
{
    let s = render_pairs(ps) + seq![TOKEN_END] + rest;
    if ps.len() == 0 {
        assert(s =~= seq![TOKEN_END] + rest);
        assert(s[0] == TOKEN_END);
        assert(s.skip(1) =~= rest);
    } else {
        let key = render_str(ps[0].0);
        let mid1 = render(ps[0].1) + render_pairs(ps.skip(1)) + seq![TOKEN_END] + rest;
        assert(s =~= key + mid1);
        assert(s[0] == key[0]);
        assert(key[0] == ps[0].0.numeral[0]);
        assert(is_digit_byte(ps[0].0.numeral[0]));
        lemma_decode_str(ps[0].0, mid1);
        assert(spec_parse_text(s) == Some((ps[0].0.payload, mid1)));
        assert(mid1.len() < s.len());
        let mid2 = render_pairs(ps.skip(1)) + seq![TOKEN_END] + rest;
        assert(mid1 =~= render(ps[0].1) + mid2);
        lemma_decode_wire(ps[0].1, mid2);
        assert(spec_parse_value(mid1) == Some((value_of(ps[0].1), mid2)));
        assert(mid2.len() < s.len());
        lemma_decode_pairs_wire(ps.skip(1), rest, upsert(acc, ps[0].0.payload, value_of(ps[0].1)));
    }
}

/// Law: every valid encoding of a value, with no trailing bytes, decodes to
/// exactly that value with an empty remainder.
pub proof fn lemma_decode_of_encoding(e: Seq<u8>, v: SpecValue)
    requires
        is_encoding(e, v),
    ensures
        spec_parse_value(e) == Some((v, Seq::<u8>::empty())),
{
    let w = choose|w: Wire| wire_ok(w) && render(w) == e && value_of(w) == v;
    lemma_decode_wire(w, Seq::empty());
    assert(render(w) + Seq::<u8>::empty() =~= render(w));
}

/// Law: an encoding determines its value: two values that share a valid
/// encoding are equal.
pub proof fn lemma_encoding_unambiguous(e: Seq<u8>, v1: SpecValue, v2: SpecValue)
    requires
        is_encoding(e, v1),
        is_encoding(e, v2),
    ensures
        v1 == v2,
{
    lemma_decode_of_encoding(e, v1);
    lemma_decode_of_encoding(e, v2);
}

/// A derivation accounting for a successful parse of `s`: it is well-formed,
/// spells out exactly the consumed bytes, and denotes the parsed value.
pub open spec fn parse_witness(s: Seq<u8>, w: Wire, v: SpecValue, r: Seq<u8>) -> bool {
    wire_ok(w) && s == render(w) + r && value_of(w) == v
}

spec fn text_witness(s: Seq<u8>, ts: WireStr, t: Seq<u8>, r: Seq<u8>) -> bool {
    str_ok(ts) && s == render_str(ts) + r && ts.payload == t
}

spec fn items_witness(
    s: Seq<u8>,
    acc: Seq<SpecValue>,
    ws: Seq<Wire>,
    vs: Seq<SpecValue>,
    r: Seq<u8>,
) -> bool {
    items_ok(ws) && s == render_items(ws) + seq![TOKEN_END] + r && vs == acc + values_of(ws)
}

spec fn pairs_witness(
    s: Seq<u8>,
    acc: Seq<(Seq<u8>, SpecValue)>,
    ps: Seq<(WireStr, Wire)>,
    prs: Seq<(Seq<u8>, SpecValue)>,
    r: Seq<u8>,
) -> bool {
    pairs_ok(ps) && s == render_pairs(ps) + seq![TOKEN_END] + r && prs == dict_value_of(ps, acc)
}

proof fn lemma_parse_text_sound(s: Seq<u8>, t: Seq<u8>, r: Seq<u8>)
    requires
        spec_parse_text(s) == Some((t, r)),
    ensures
        exists|ts: WireStr| text_witness(s, ts, t, r),
{
    lemma_spec_digits(s);
    let ds = spec_digits(s).0;
    let k = ds.len() as int;
    let r1 = spec_digits(s).1;
    let body = r1.skip(1);
    let n = digits_val(ds);
    let ts = WireStr { numeral: ds, payload: body.take(n) };
    lemma_digits_val_nonneg(ds);
    assert(body.take(n).len() == n);
    assert(str_ok(ts));
    assert(s =~= s.take(k) + r1);
    assert(r1 =~= seq![TOKEN_COLON] + body);
    assert(body =~= body.take(n) + body.skip(n));
    assert(s =~= render_str(ts) + r);
    assert(text_witness(s, ts, t, r));
}

/// Whatever the decoder parses out of `s` is the rendering of a well-formed
/// derivation denoting the parsed value, followed by the remainder.
pub proof fn lemma_parse_value_sound(s: Seq<u8>, v: SpecValue, r: Seq<u8>)
    requires
        spec_parse_value(s) == Some((v, r)),
    ensures
        exists|w: Wire| parse_witness(s, w, v, r),
    decreases s.len(), 0int,
{
    if s[0] == TOKEN_INTEGER {
        let tail = s.skip(1);
        let negative = tail.len() > 0 && tail[0] == TOKEN_MINUS;
        let dseq = if negative {
            tail.skip(1)
        } else {
            tail
        };
        lemma_spec_digits(dseq);
        let ds = spec_digits(dseq).0;
        let k = ds.len() as int;
        let r0 = spec_digits(dseq).1;
        let w = Wire::Integer(negative, ds);
        assert(wire_ok(w));
        assert(r0[0] == TOKEN_END);
        assert(dseq =~= ds + r0);
        assert(r0 =~= seq![TOKEN_END] + r);
        if negative {
            assert(s =~= seq![TOKEN_INTEGER] + seq![TOKEN_MINUS] + ds + seq![TOKEN_END] + r);
        } else {
            assert(s =~= seq![TOKEN_INTEGER] + Seq::<u8>::empty() + ds + seq![TOKEN_END] + r);
        }
        assert(s =~= render(w) + r);
        assert(parse_witness(s, w, v, r));
    } else if s[0] == TOKEN_LIST {
        lemma_parse_items_sound(s.skip(1), Seq::empty());
        let (vs, ri) = spec_parse_items(s.skip(1), Seq::empty())->Some_0;
        let ws = choose|ws: Seq<Wire>|
            items_witness(s.skip(1), Seq::empty(), ws, vs, ri);
        let w = Wire::List(ws);
        assert(Seq::<SpecValue>::empty() + values_of(ws) =~= values_of(ws));
        assert(s =~= seq![TOKEN_LIST] + s.skip(1));
        assert(s =~= render(w) + r);
        assert(parse_witness(s, w, v, r));
    } else if s[0] == TOKEN_DICTIONARY {
        lemma_parse_pairs_sound(s.skip(1), Seq::empty());
        let (prs, ri) = spec_parse_pairs(s.skip(1), Seq::empty())->Some_0;
        let ps = choose|ps: Seq<(WireStr, Wire)>|
            pairs_witness(s.skip(1), Seq::empty(), ps, prs, ri);
        let w = Wire::Dictionary(ps);
        assert(s =~= seq![TOKEN_DICTIONARY] + s.skip(1));
        assert(s =~= render(w) + r);
        assert(parse_witness(s, w, v, r));
    } else {
        let (t, ri) = spec_parse_text(s)->Some_0;
        lemma_parse_text_sound(s, t, ri);
        let ts = choose|ts: WireStr| text_witness(s, ts, t, ri);
        let w = Wire::Text(ts);
        assert(parse_witness(s, w, v, r));
    }
}

proof fn lemma_parse_items_sound(s: Seq<u8>, acc: Seq<SpecValue>)
    requires
        spec_parse_items(s, acc) is Some,
    ensures
        ({
            let (vs, r) = spec_parse_items(s, acc)->Some_0;
            exists|ws: Seq<Wire>| items_witness(s, acc, ws, vs, r)
        }),
    decreases s.len(), 1int,
{
    let (vs, r) = spec_parse_items(s, acc)->Some_0;
    if s[0] == TOKEN_END {
        let ws = Seq::<Wire>::empty();
        assert(s =~= render_items(ws) + seq![TOKEN_END] + r);
        assert(acc + values_of(ws) =~= acc);
        assert(items_witness(s, acc, ws, vs, r));
    } else {
        let (v, r1) = spec_parse_value(s)->Some_0;
        lemma_parse_value_sound(s, v, r1);
        let w0 = choose|w: Wire| parse_witness(s, w, v, r1);
        lemma_parse_items_sound(r1, acc.push(v));
        let ws1 = choose|ws: Seq<Wire>| items_witness(r1, acc.push(v), ws, vs, r);
        let ws = seq![w0] + ws1;
        assert(ws[0] == w0);
        assert(ws.skip(1) =~= ws1);
        assert(items_ok(ws));
        assert(render_items(ws) == render(w0) + render_items(ws1));
        assert(values_of(ws) == seq![value_of(w0)] + values_of(ws1));
        assert(s =~= render_items(ws) + seq![TOKEN_END] + r);
        assert(acc + values_of(ws) =~= acc.push(v) + values_of(ws1));
        assert(items_witness(s, acc, ws, vs, r));
    }
}

proof fn lemma_parse_pairs_sound(s: Seq<u8>, acc: Seq<(Seq<u8>, SpecValue)>)
    requires
        spec_parse_pairs(s, acc) is Some,
    ensures
        ({
            let (prs, r) = spec_parse_pairs(s, acc)->Some_0;
            exists|ps: Seq<(WireStr, Wire)>| pairs_witness(s, acc, ps, prs, r)
        }),
    decreases s.len(), 1int,
{
    let (prs, r) = spec_parse_pairs(s, acc)->Some_0;
    if s[0] == TOKEN_END {
        let ps = Seq::<(WireStr, Wire)>::empty();
        assert(s =~= render_pairs(ps) + seq![TOKEN_END] + r);
        assert(pairs_witness(s, acc, ps, prs, r));
    } else {
        let (t, r1) = spec_parse_text(s)->Some_0;
        lemma_parse_text_sound(s, t, r1);
        let ts = choose|ts: WireStr| text_witness(s, ts, t, r1);
        let (v, r2) = spec_parse_value(r1)->Some_0;
        lemma_parse_value_sound(r1, v, r2);
        let w0 = choose|w: Wire| parse_witness(r1, w, v, r2);
        lemma_parse_pairs_sound(r2, upsert(acc, t, v));
        let ps1 = choose|ps: Seq<(WireStr, Wire)>|
            pairs_witness(r2, upsert(acc, t, v), ps, prs, r);
        let ps = seq![(ts, w0)] + ps1;
        assert(ps[0] == (ts, w0));
        assert(ps.skip(1) =~= ps1);
        assert(pairs_ok(ps));
        assert(render_pairs(ps) == render_str(ts) + render(w0) + render_pairs(ps1));
        assert(s =~= render_pairs(ps) + seq![TOKEN_END] + r);
        assert(dict_value_of(ps, acc) == dict_value_of(ps1, upsert(acc, ts.payload, value_of(w0))));
        assert(pairs_witness(s, acc, ps, prs, r));
    }
}

/// Law: the decoder accepts nothing outside the grammar: whatever it parses
/// out of a buffer is a valid encoding of the value it returns, and exactly
/// the bytes before the remainder were consumed.
pub proof fn lemma_decode_is_encoding(s: Seq<u8>, v: SpecValue, r: Seq<u8>)
    requires
        spec_parse_value(s) == Some((v, r)),
    ensures
        r.len() <= s.len(),
        is_encoding(s.take(s.len() - r.len()), v),
        s.skip(s.len() - r.len()) == r,
{
    lemma_parse_value_sound(s, v, r);
    let w = choose|w: Wire| parse_witness(s, w, v, r);
    assert(s.len() == render(w).len() + r.len());
    assert(s.take(s.len() - r.len()) =~= render(w));
    assert(s.skip(s.len() - r.len()) =~= r);
}

} // verus!
