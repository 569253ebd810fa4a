use vstd::prelude::*;
use vstd::arithmetic::div_mod::lemma_fundamental_div_mod;
use vstd::arithmetic::div_mod::lemma_fundamental_div_mod_converse;
use crate::EngineError;

verus! {

/// Whether `b` is an ASCII decimal digit.
pub open spec fn is_digit(b: u8) -> bool {
    48 <= b <= 57
}

/// The numeric value of a decimal digit string.
pub open spec fn dec_val(s: Seq<u8>) -> int
    decreases s.len(),
{
    if s.len() == 0 {
        0
    } else {
        dec_val(s.drop_last()) * 10 + (s.last() - 48)
    }
}

/// A bencoded value: an integer, a byte string, a list, or a dictionary
/// with byte-string keys. Tracker responses arrive in this encoding.
#[derive(Debug)]
pub enum BValue {
    /// `i<decimal>e`.
    Integer(i64),
    /// `<length>:<bytes>`.
    Bytes(Vec<u8>),
    /// `l<values>e`.
    List(Vec<BValue>),
    /// `d<key value pairs>e`, keys byte strings.
    Dict(Vec<(Vec<u8>, BValue)>),
}

/// The decimal digits of a non-negative number.
pub open spec fn dec_bytes(n: int) -> Seq<u8>
    decreases n,
{
    if n < 10 {
        seq![(48 + if 0 <= n { n } else { 0 }) as u8]
    } else {
        dec_bytes(n / 10).push((48 + n % 10) as u8)
    }
}

/// The decimal digits of a number, with a leading minus when negative.
pub open spec fn int_dec_bytes(n: int) -> Seq<u8> {
    if n < 0 {
        seq![45u8] + dec_bytes(-n)
    } else {
        dec_bytes(n)
    }
}

/// The exact bencoding of a value.
pub open spec fn enc(v: BValue) -> Seq<u8>
    decreases v,
{
    match v {
        BValue::Integer(i) => seq![105u8] + int_dec_bytes(i as int) + seq![101u8],
        BValue::Bytes(b) => dec_bytes(b@.len() as int) + seq![58u8] + b@,
        BValue::List(items) => seq![108u8] + enc_items(items@) + seq![101u8],
        BValue::Dict(pairs) => seq![100u8] + enc_pairs(pairs@) + seq![101u8],
    }
}

/// The bencoding of a list's elements, in order.
pub open spec fn enc_items(items: Seq<BValue>) -> Seq<u8>
    decreases items,
{
    if items.len() == 0 {
        Seq::empty()
    } else {
        enc(items[0]) + enc_items(items.subrange(1, items.len() as int))
    }
}

/// The bencoding of one dictionary pair: the key as a byte string, then
/// the value.
pub open spec fn enc_pair(p: (Vec<u8>, BValue)) -> Seq<u8>
    decreases p,
{
    dec_bytes(p.0@.len() as int) + seq![58u8] + p.0@ + enc(p.1)
}

/// The bencoding of a dictionary's pairs, in order.
pub open spec fn enc_pairs(pairs: Seq<(Vec<u8>, BValue)>) -> Seq<u8>
    decreases pairs,
{
    if pairs.len() == 0 {
        Seq::empty()
    } else {
        enc_pair(pairs[0]) + enc_pairs(pairs.subrange(1, pairs.len() as int))
    }
}

/// Appending an element encodes as the encoding so far followed by the
/// element's encoding.
pub proof fn lemma_enc_items_push(items: Seq<BValue>, v: BValue)
    ensures
        enc_items(items.push(v)) == enc_items(items) + enc(v),
    decreases items.len(),
{
    let p = items.push(v);
    if items.len() == 0 {
        assert(p[0] == v);
        assert(p.subrange(1, p.len() as int) =~= Seq::<BValue>::empty());
        assert(enc_items(p) == enc(p[0]) + enc_items(p.subrange(1, p.len() as int)));
        assert(enc_items(Seq::<BValue>::empty()) == Seq::<u8>::empty());
        assert(enc_items(items) == Seq::<u8>::empty());
        assert(enc(v) + Seq::<u8>::empty() =~= enc(v));
        assert(Seq::<u8>::empty() + enc(v) =~= enc(v));
    } else {
        let tail = items.subrange(1, items.len() as int);
        assert(p[0] == items[0]);
        assert(p.subrange(1, p.len() as int) =~= tail.push(v));
        lemma_enc_items_push(tail, v);
        assert(enc_items(p) == enc(p[0]) + enc_items(p.subrange(1, p.len() as int)));
        assert(enc_items(items) == enc(items[0]) + enc_items(tail));
        assert(enc(items[0]) + (enc_items(tail) + enc(v))
            =~= (enc(items[0]) + enc_items(tail)) + enc(v));
    }
}

/// Appending a pair encodes as the encoding so far followed by the
/// pair's encoding.
pub proof fn lemma_enc_pairs_push(pairs: Seq<(Vec<u8>, BValue)>, kv: (Vec<u8>, BValue))
    ensures
        enc_pairs(pairs.push(kv)) == enc_pairs(pairs) + enc_pair(kv),
    decreases pairs.len(),
{
    let p = pairs.push(kv);
    if pairs.len() == 0 {
        assert(p[0] == kv);
        assert(p.subrange(1, p.len() as int) =~= Seq::<(Vec<u8>, BValue)>::empty());
        assert(enc_pairs(p) == enc_pair(p[0]) + enc_pairs(p.subrange(1, p.len() as int)));
        assert(enc_pairs(Seq::<(Vec<u8>, BValue)>::empty()) == Seq::<u8>::empty());
        assert(enc_pairs(pairs) == Seq::<u8>::empty());
        assert(enc_pair(kv) + Seq::<u8>::empty() =~= enc_pair(kv));
        assert(Seq::<u8>::empty() + enc_pair(kv) =~= enc_pair(kv));
    } else {
        let tail = pairs.subrange(1, pairs.len() as int);
        assert(p[0] == pairs[0]);
        assert(p.subrange(1, p.len() as int) =~= tail.push(kv));
        lemma_enc_pairs_push(tail, kv);
        assert(enc_pairs(p) == enc_pair(p[0]) + enc_pairs(p.subrange(1, p.len() as int)));
        assert(enc_pairs(pairs) == enc_pair(pairs[0]) + enc_pairs(tail));
        assert(enc_pair(pairs[0]) + (enc_pairs(tail) + enc_pair(kv))
            =~= (enc_pair(pairs[0]) + enc_pairs(tail)) + enc_pair(kv));
    }
}

/// A number's decimal text is nonempty, all digits, starts with `0`
/// only for zero itself, and reads back to the number.
pub proof fn lemma_dec_bytes_shape(n: int)
    requires
        n >= 0,
    ensures
        dec_bytes(n).len() >= 1,
        forall|k: int| 0 <= k < dec_bytes(n).len() ==> is_digit(#[trigger] dec_bytes(n)[k]),
        dec_bytes(n)[0] == 48 ==> n == 0,
        n == 0 ==> dec_bytes(n) == seq![48u8],
        dec_val(dec_bytes(n)) == n,
    decreases n,
{
    if n < 10 {
        assert(dec_bytes(n).drop_last() =~= Seq::<u8>::empty());
        assert(dec_val(Seq::<u8>::empty()) == 0);
        assert(dec_bytes(n).last() == (48 + n) as u8);
        assert(dec_val(dec_bytes(n)) == dec_val(dec_bytes(n).drop_last()) * 10 + (dec_bytes(n).last() - 48));
        if n == 0 {
            assert(dec_bytes(n) =~= seq![48u8]);
        }
    } else {
        lemma_dec_bytes_shape(n / 10);
        lemma_fundamental_div_mod(n, 10);
        let prev = dec_bytes(n / 10);
        let d = (48 + n % 10) as u8;
        assert(dec_bytes(n) == prev.push(d));
        assert(prev.push(d).drop_last() =~= prev);
        assert(dec_bytes(n)[0] == prev[0]);
        assert forall|k: int| 0 <= k < dec_bytes(n).len() implies is_digit(#[trigger] dec_bytes(n)[k]) by {
            if k < prev.len() {
                assert(dec_bytes(n)[k] == prev[k]);
            } else {
                assert(dec_bytes(n)[k] == d);
            }
        }
        assert(dec_val(dec_bytes(n)) == dec_val(prev) * 10 + (d - 48));
        assert(n / 10 >= 1);
    }
}

/// A digit string never reads to a negative number.
pub proof fn lemma_dec_val_nonneg(s: Seq<u8>)
    requires
        forall|k: int| 0 <= k < s.len() ==> is_digit(#[trigger] s[k]),
    ensures
        dec_val(s) >= 0,
    decreases s.len(),
{
    if s.len() > 0 {
        assert forall|k: int| 0 <= k < s.drop_last().len() implies is_digit(#[trigger] s.drop_last()[k]) by {
            assert(s.drop_last()[k] == s[k]);
        }
        lemma_dec_val_nonneg(s.drop_last());
        assert(is_digit(s.last()));
    }
}

/// A digit string reads to at least what any of its prefixes reads to.
pub proof fn lemma_dec_val_prefix(s: Seq<u8>, j: int)
    requires
        0 <= j <= s.len(),
        forall|k: int| 0 <= k < s.len() ==> is_digit(#[trigger] s[k]),
    ensures
        dec_val(s) >= dec_val(s.subrange(0, j)),
        dec_val(s.subrange(0, j)) >= 0,
    decreases s.len() - j,
{
    assert forall|k: int| 0 <= k < s.subrange(0, j).len() implies is_digit(#[trigger] s.subrange(0, j)[k]) by {
        assert(s.subrange(0, j)[k] == s[k]);
    }
    lemma_dec_val_nonneg(s.subrange(0, j));
    if j == s.len() {
        assert(s.subrange(0, j) =~= s);
    } else {
        lemma_dec_val_prefix(s, j + 1);
        assert(s.subrange(0, j + 1).drop_last() =~= s.subrange(0, j));
        assert(s.subrange(0, j + 1).last() == s[j]);
        assert(dec_val(s.subrange(0, j + 1)) == dec_val(s.subrange(0, j)) * 10 + (s[j] - 48));
        assert(is_digit(s[j]));
    }
}

/// Two decimal texts that start at one position and are each followed by
/// the input's end or a non-digit name the same number and end together.
/// The first text comes with `parse_number`'s leading-zero and
/// termination facts; the second is any claimed canonical rendering.
pub proof fn lemma_number_at_unique(data: Seq<u8>, pos: int, v1: int, e1: int, v2: int, e2: int)
    requires
        0 <= v1,
        0 <= v2,
        0 <= pos < e1 <= data.len(),
        pos < e2 <= data.len(),
        data.subrange(pos, e1) == dec_bytes(v1),
        data.subrange(pos, e2) == dec_bytes(v2),
        data[pos] == 48 ==> e1 == pos + 1,
        data[pos] != 48 ==> (e1 == data.len() || !is_digit(data[e1])),
        e2 == data.len() || !is_digit(data[e2]),
    ensures
        v1 == v2,
        e1 == e2,
{
    lemma_dec_bytes_shape(v1);
    lemma_dec_bytes_shape(v2);
    assert(data[pos] == dec_bytes(v1)[0]);
    assert(data[pos] == dec_bytes(v2)[0]);
    if data[pos] == 48 {
        assert(v1 == 0 && v2 == 0);
        assert(dec_bytes(v2).len() == 1);
        assert(e2 == pos + 1);
    } else {
        if e1 < e2 {
            assert(data[e1] == dec_bytes(v2)[e1 - pos]);
            assert(is_digit(dec_bytes(v2)[e1 - pos]));
            assert(false);
        }
        if e2 < e1 {
            assert(data[e2] == dec_bytes(v1)[e2 - pos]);
            assert(is_digit(dec_bytes(v1)[e2 - pos]));
            assert(false);
        }
        assert(dec_bytes(v1) == dec_bytes(v2));
        assert(dec_val(dec_bytes(v1)) == dec_val(dec_bytes(v2)));
    }
}

/// `p` is the first part of `t`.
pub open spec fn starts_with(t: Seq<u8>, p: Seq<u8>) -> bool {
    p.len() <= t.len() && p == t.subrange(0, p.len() as int)
}

/// A byte of a leading part is that byte of the whole.
pub proof fn lemma_starts_with_index(t: Seq<u8>, p: Seq<u8>, k: int)
    requires
        starts_with(t, p),
        0 <= k < p.len(),
    ensures
        t[k] == p[k],
{
    assert(p[k] == t.subrange(0, p.len() as int)[k]);
}

/// A slice of a leading part is that slice of the whole.
pub proof fn lemma_starts_with_sub(t: Seq<u8>, p: Seq<u8>, i: int, j: int)
    requires
        starts_with(t, p),
        0 <= i <= j <= p.len(),
    ensures
        t.subrange(i, j) == p.subrange(i, j),
{
    assert forall|k: int| 0 <= k < j - i implies t.subrange(i, j)[k] == p.subrange(i, j)[k] by {
        lemma_starts_with_index(t, p, i + k);
    }
    assert(t.subrange(i, j) =~= p.subrange(i, j));
}

/// A prefix made of two parts splits: the first part leads `t`, and the
/// second leads the rest.
pub proof fn lemma_starts_with_concat(t: Seq<u8>, a: Seq<u8>, b: Seq<u8>)
    requires
        starts_with(t, a + b),
    ensures
        starts_with(t, a),
        starts_with(t.subrange(a.len() as int, t.len() as int), b),
{
    assert forall|k: int| 0 <= k < a.len() implies a[k] == t[k] by {
        assert((a + b)[k] == a[k]);
        lemma_starts_with_index(t, a + b, k);
    }
    assert(a =~= t.subrange(0, a.len() as int));
    assert forall|k: int| 0 <= k < b.len() implies
        b[k] == t.subrange(a.len() as int, t.len() as int)[k] by {
        assert((a + b)[a.len() + k] == b[k]);
        lemma_starts_with_index(t, a + b, a.len() + k);
    }
    assert(b =~= t.subrange(a.len() as int, t.len() as int).subrange(0, b.len() as int));
}

/// An encoding is at least two bytes, and its first byte names its
/// variant: `i` an integer, a digit a byte string, `l` a list, `d` a
/// dictionary; never the terminator `e`.
pub proof fn lemma_enc_first(v: BValue)
    ensures
        enc(v).len() >= 2,
        v is Integer ==> enc(v)[0] == 105,
        v is Bytes ==> is_digit(enc(v)[0]),
        v is List ==> enc(v)[0] == 108,
        v is Dict ==> enc(v)[0] == 100,
        enc(v)[0] != 101,
{
    match v {
        BValue::Integer(i) => {
            if i >= 0 {
                lemma_dec_bytes_shape(i as int);
            } else {
                lemma_dec_bytes_shape(-(i as int));
            }
        },
        BValue::Bytes(b) => {
            lemma_dec_bytes_shape(b@.len() as int);
            assert(enc(v)[0] == dec_bytes(b@.len() as int)[0]);
        },
        BValue::List(items) => {},
        BValue::Dict(pairs) => {},
    }
}

/// Two byte-string encodings leading the same sequence are the same
/// encoding.
pub proof fn lemma_bytes_form_unique(t: Seq<u8>, b1: Seq<u8>, b2: Seq<u8>)
    requires
        starts_with(t, dec_bytes(b1.len() as int) + seq![58u8] + b1),
        starts_with(t, dec_bytes(b2.len() as int) + seq![58u8] + b2),
    ensures
        dec_bytes(b1.len() as int) + seq![58u8] + b1 == dec_bytes(b2.len() as int) + seq![58u8] + b2,
        b1.len() == b2.len(),
{
    let l1 = b1.len() as int;
    let l2 = b2.len() as int;
    lemma_dec_bytes_shape(l1);
    lemma_dec_bytes_shape(l2);
    let d1 = dec_bytes(l1).len() as int;
    let d2 = dec_bytes(l2).len() as int;
    let w1 = dec_bytes(l1) + seq![58u8] + b1;
    let w2 = dec_bytes(l2) + seq![58u8] + b2;
    lemma_starts_with_sub(t, w1, 0, d1);
    assert(t.subrange(0, d1) =~= dec_bytes(l1)) by {
        assert(w1.subrange(0, d1) =~= dec_bytes(l1));
    }
    lemma_starts_with_sub(t, w2, 0, d2);
    assert(t.subrange(0, d2) =~= dec_bytes(l2)) by {
        assert(w2.subrange(0, d2) =~= dec_bytes(l2));
    }
    assert(t[d1] == 58) by {
        assert(w1[d1] == 58);
        lemma_starts_with_index(t, w1, d1);
    }
    assert(t[d2] == 58) by {
        assert(w2[d2] == 58);
        lemma_starts_with_index(t, w2, d2);
    }
    lemma_number_at_unique(t, 0, l1, d1, l2, d2);
    assert(dec_bytes(l1) + seq![58u8] + b1
        =~= dec_bytes(l2) + seq![58u8] + b2);
}

/// Two encodings leading the same sequence are the same encoding: the
/// bencoding is a prefix code.
pub proof fn lemma_enc_prefix_free(v1: BValue, v2: BValue, t: Seq<u8>)
    requires
        starts_with(t, enc(v1)),
        starts_with(t, enc(v2)),
    ensures
        enc(v1) == enc(v2),
    decreases v1,
{
    lemma_enc_first(v1);
    lemma_enc_first(v2);
    assert(enc(v1)[0] == t[0]);
    assert(enc(v2)[0] == t[0]);
    match v1 {
        BValue::Integer(i1) => {
            match v2 {
                BValue::Integer(i2) => {
                    let m1 = if i1 < 0 { -(i1 as int) } else { i1 as int };
                    let m2 = if i2 < 0 { -(i2 as int) } else { i2 as int };
                    lemma_dec_bytes_shape(m1);
                    lemma_dec_bytes_shape(m2);
                    lemma_starts_with_index(t, enc(v1), 1);
                    lemma_starts_with_index(t, enc(v2), 1);
                    if i1 < 0 {
                        assert(t[1] == 45);
                        if i2 >= 0 {
                            assert(enc(v2)[1] == dec_bytes(m2)[0]);
                            assert(false);
                        }
                        let e1 = 2 + dec_bytes(m1).len() as int;
                        let e2 = 2 + dec_bytes(m2).len() as int;
                        lemma_starts_with_sub(t, enc(v1), 2, e1);
                        assert(t.subrange(2, e1) =~= dec_bytes(m1)) by {
                            assert(enc(v1).subrange(2, e1) =~= dec_bytes(m1));
                        }
                        lemma_starts_with_sub(t, enc(v2), 2, e2);
                        assert(t.subrange(2, e2) =~= dec_bytes(m2)) by {
                            assert(enc(v2).subrange(2, e2) =~= dec_bytes(m2));
                        }
                        assert(t[e1] == 101) by {
                            assert(enc(v1)[e1] == 101);
                            lemma_starts_with_index(t, enc(v1), e1);
                        }
                        assert(t[e2] == 101) by {
                            assert(enc(v2)[e2] == 101);
                            lemma_starts_with_index(t, enc(v2), e2);
                        }
                        lemma_number_at_unique(t, 2, m1, e1, m2, e2);
                        assert(enc(v1) =~= enc(v2));
                    } else {
                        assert(enc(v1)[1] == dec_bytes(m1)[0]);
                        if i2 < 0 {
                            assert(t[1] == 45);
                            assert(false);
                        }
                        let e1 = 1 + dec_bytes(m1).len() as int;
                        let e2 = 1 + dec_bytes(m2).len() as int;
                        lemma_starts_with_sub(t, enc(v1), 1, e1);
                        assert(t.subrange(1, e1) =~= dec_bytes(m1)) by {
                            assert(enc(v1).subrange(1, e1) =~= dec_bytes(m1));
                        }
                        lemma_starts_with_sub(t, enc(v2), 1, e2);
                        assert(t.subrange(1, e2) =~= dec_bytes(m2)) by {
                            assert(enc(v2).subrange(1, e2) =~= dec_bytes(m2));
                        }
                        assert(t[e1] == 101) by {
                            assert(enc(v1)[e1] == 101);
                            lemma_starts_with_index(t, enc(v1), e1);
                        }
                        assert(t[e2] == 101) by {
                            assert(enc(v2)[e2] == 101);
                            lemma_starts_with_index(t, enc(v2), e2);
                        }
                        lemma_number_at_unique(t, 1, m1, e1, m2, e2);
                        assert(enc(v1) =~= enc(v2));
                    }
                },
                _ => {
                    assert(false);
                },
            }
        },
        BValue::Bytes(b1) => {
            match v2 {
                BValue::Bytes(b2) => {
                    lemma_bytes_form_unique(t, b1@, b2@);
                },
                _ => {
                    assert(false);
                },
            }
        },
        BValue::List(items1) => {
            match v2 {
                BValue::List(items2) => {
                    let t2 = t.subrange(1, t.len() as int);
                    assert(starts_with(t, seq![108u8] + (enc_items(items1@) + seq![101u8]))) by {
                        assert(seq![108u8] + (enc_items(items1@) + seq![101u8]) =~= enc(v1));
                    }
                    lemma_starts_with_concat(t, seq![108u8], enc_items(items1@) + seq![101u8]);
                    assert(starts_with(t, seq![108u8] + (enc_items(items2@) + seq![101u8]))) by {
                        assert(seq![108u8] + (enc_items(items2@) + seq![101u8]) =~= enc(v2));
                    }
                    lemma_starts_with_concat(t, seq![108u8], enc_items(items2@) + seq![101u8]);
                    lemma_enc_items_prefix_free(items1@, items2@, t2);
                    assert(enc(v1) =~= enc(v2));
                },
                _ => {
                    assert(false);
                },
            }
        },
        BValue::Dict(pairs1) => {
            match v2 {
                BValue::Dict(pairs2) => {
                    let t2 = t.subrange(1, t.len() as int);
                    assert(starts_with(t, seq![100u8] + (enc_pairs(pairs1@) + seq![101u8]))) by {
                        assert(seq![100u8] + (enc_pairs(pairs1@) + seq![101u8]) =~= enc(v1));
                    }
                    lemma_starts_with_concat(t, seq![100u8], enc_pairs(pairs1@) + seq![101u8]);
                    assert(starts_with(t, seq![100u8] + (enc_pairs(pairs2@) + seq![101u8]))) by {
                        assert(seq![100u8] + (enc_pairs(pairs2@) + seq![101u8]) =~= enc(v2));
                    }
                    lemma_starts_with_concat(t, seq![100u8], enc_pairs(pairs2@) + seq![101u8]);
                    lemma_enc_pairs_prefix_free(pairs1@, pairs2@, t2);
                    assert(enc(v1) =~= enc(v2));
                },
                _ => {
                    assert(false);
                },
            }
        },
    }
}

/// Two terminated element lists leading the same sequence encode alike.
pub proof fn lemma_enc_items_prefix_free(items1: Seq<BValue>, items2: Seq<BValue>, t: Seq<u8>)
    requires
        starts_with(t, enc_items(items1) + seq![101u8]),
        starts_with(t, enc_items(items2) + seq![101u8]),
    ensures
        enc_items(items1) == enc_items(items2),
    decreases items1,
{
    if items1.len() == 0 && items2.len() == 0 {
        assert(enc_items(items1) =~= enc_items(items2));
    } else if items1.len() == 0 {
        assert(t[0] == (enc_items(items1) + seq![101u8])[0]);
        let h2 = items2[0];
        lemma_enc_first(h2);
        assert(starts_with(t, (enc(h2) + enc_items(items2.subrange(1, items2.len() as int))) + seq![101u8])) by {
            assert((enc(h2) + enc_items(items2.subrange(1, items2.len() as int))) + seq![101u8]
                =~= enc_items(items2) + seq![101u8]);
        }
        assert(starts_with(t, enc(h2) + (enc_items(items2.subrange(1, items2.len() as int)) + seq![101u8]))) by {
            assert(enc(h2) + (enc_items(items2.subrange(1, items2.len() as int)) + seq![101u8])
                =~= (enc(h2) + enc_items(items2.subrange(1, items2.len() as int))) + seq![101u8]);
        }
        lemma_starts_with_concat(t, enc(h2), enc_items(items2.subrange(1, items2.len() as int)) + seq![101u8]);
        assert(enc(h2)[0] == t[0]);
        assert(false);
    } else if items2.len() == 0 {
        assert(t[0] == (enc_items(items2) + seq![101u8])[0]);
        let h1 = items1[0];
        lemma_enc_first(h1);
        assert(starts_with(t, enc(h1) + (enc_items(items1.subrange(1, items1.len() as int)) + seq![101u8]))) by {
            assert(enc(h1) + (enc_items(items1.subrange(1, items1.len() as int)) + seq![101u8])
                =~= enc_items(items1) + seq![101u8]);
        }
        lemma_starts_with_concat(t, enc(h1), enc_items(items1.subrange(1, items1.len() as int)) + seq![101u8]);
        assert(enc(h1)[0] == t[0]);
        assert(false);
    } else {
        let h1 = items1[0];
        let h2 = items2[0];
        let tail1 = items1.subrange(1, items1.len() as int);
        let tail2 = items2.subrange(1, items2.len() as int);
        assert(starts_with(t, enc(h1) + (enc_items(tail1) + seq![101u8]))) by {
            assert(enc(h1) + (enc_items(tail1) + seq![101u8]) =~= enc_items(items1) + seq![101u8]);
        }
        lemma_starts_with_concat(t, enc(h1), enc_items(tail1) + seq![101u8]);
        assert(starts_with(t, enc(h2) + (enc_items(tail2) + seq![101u8]))) by {
            assert(enc(h2) + (enc_items(tail2) + seq![101u8]) =~= enc_items(items2) + seq![101u8]);
        }
        lemma_starts_with_concat(t, enc(h2), enc_items(tail2) + seq![101u8]);
        lemma_enc_prefix_free(h1, h2, t);
        let t2 = t.subrange(enc(h1).len() as int, t.len() as int);
        lemma_enc_items_prefix_free(tail1, tail2, t2);
        assert(enc_items(items1) =~= enc_items(items2));
    }
}

/// Two terminated pair lists leading the same sequence encode alike.
pub proof fn lemma_enc_pairs_prefix_free(pairs1: Seq<(Vec<u8>, BValue)>, pairs2: Seq<(Vec<u8>, BValue)>, t: Seq<u8>)
    requires
        starts_with(t, enc_pairs(pairs1) + seq![101u8]),
        starts_with(t, enc_pairs(pairs2) + seq![101u8]),
    ensures
        enc_pairs(pairs1) == enc_pairs(pairs2),
    decreases pairs1,
{
    if pairs1.len() == 0 && pairs2.len() == 0 {
        assert(enc_pairs(pairs1) =~= enc_pairs(pairs2));
    } else if pairs1.len() == 0 {
        assert(t[0] == (enc_pairs(pairs1) + seq![101u8])[0]);
        let kv2 = pairs2[0];
        lemma_dec_bytes_shape(kv2.0@.len() as int);
        assert(starts_with(t, enc_pair(kv2) + (enc_pairs(pairs2.subrange(1, pairs2.len() as int)) + seq![101u8]))) by {
            assert(enc_pair(kv2) + (enc_pairs(pairs2.subrange(1, pairs2.len() as int)) + seq![101u8])
                =~= enc_pairs(pairs2) + seq![101u8]);
        }
        lemma_starts_with_concat(t, enc_pair(kv2), enc_pairs(pairs2.subrange(1, pairs2.len() as int)) + seq![101u8]);
        assert(enc_pair(kv2)[0] == dec_bytes(kv2.0@.len() as int)[0]);
        assert(enc_pair(kv2)[0] == t[0]);
        assert(false);
    } else if pairs2.len() == 0 {
        assert(t[0] == (enc_pairs(pairs2) + seq![101u8])[0]);
        let kv1 = pairs1[0];
        lemma_dec_bytes_shape(kv1.0@.len() as int);
        assert(starts_with(t, enc_pair(kv1) + (enc_pairs(pairs1.subrange(1, pairs1.len() as int)) + seq![101u8]))) by {
            assert(enc_pair(kv1) + (enc_pairs(pairs1.subrange(1, pairs1.len() as int)) + seq![101u8])
                =~= enc_pairs(pairs1) + seq![101u8]);
        }
        lemma_starts_with_concat(t, enc_pair(kv1), enc_pairs(pairs1.subrange(1, pairs1.len() as int)) + seq![101u8]);
        assert(enc_pair(kv1)[0] == dec_bytes(kv1.0@.len() as int)[0]);
        assert(enc_pair(kv1)[0] == t[0]);
        assert(false);
    } else {
        let kv1 = pairs1[0];
        let kv2 = pairs2[0];
        let tail1 = pairs1.subrange(1, pairs1.len() as int);
        let tail2 = pairs2.subrange(1, pairs2.len() as int);
        assert(starts_with(t, enc_pair(kv1) + (enc_pairs(tail1) + seq![101u8]))) by {
            assert(enc_pair(kv1) + (enc_pairs(tail1) + seq![101u8]) =~= enc_pairs(pairs1) + seq![101u8]);
        }
        lemma_starts_with_concat(t, enc_pair(kv1), enc_pairs(tail1) + seq![101u8]);
        assert(starts_with(t, enc_pair(kv2) + (enc_pairs(tail2) + seq![101u8]))) by {
            assert(enc_pair(kv2) + (enc_pairs(tail2) + seq![101u8]) =~= enc_pairs(pairs2) + seq![101u8]);
        }
        lemma_starts_with_concat(t, enc_pair(kv2), enc_pairs(tail2) + seq![101u8]);
        let kf1 = dec_bytes(kv1.0@.len() as int) + seq![58u8] + kv1.0@;
        let kf2 = dec_bytes(kv2.0@.len() as int) + seq![58u8] + kv2.0@;
        assert(starts_with(t, kf1 + enc(kv1.1))) by {
            assert(kf1 + enc(kv1.1) =~= enc_pair(kv1));
        }
        lemma_starts_with_concat(t, kf1, enc(kv1.1));
        assert(starts_with(t, kf2 + enc(kv2.1))) by {
            assert(kf2 + enc(kv2.1) =~= enc_pair(kv2));
        }
        lemma_starts_with_concat(t, kf2, enc(kv2.1));
        lemma_bytes_form_unique(t, kv1.0@, kv2.0@);
        let tk = t.subrange(kf1.len() as int, t.len() as int);
        lemma_enc_prefix_free(kv1.1, kv2.1, tk);
        assert(enc_pair(kv1) =~= enc_pair(kv2));
        let t2 = t.subrange(enc_pair(kv1).len() as int, t.len() as int);
        assert(starts_with(t2, enc_pairs(tail1) + seq![101u8]));
        assert(starts_with(t2, enc_pairs(tail2) + seq![101u8]));
        lemma_enc_pairs_prefix_free(tail1, tail2, t2);
        assert(enc_pairs(pairs1) =~= enc_pairs(pairs2));
    }
}

/// Past a consumed well-formed prefix of a terminated element list,
/// either the terminator stands next or another element's encoding
/// starts there.
pub proof fn lemma_items_extend(t: Seq<u8>, consumed: Seq<BValue>, items2: Seq<BValue>)
    requires
        starts_with(t, enc_items(consumed)),
        starts_with(t, enc_items(items2) + seq![101u8]),
    ensures
        enc_items(consumed).len() < t.len(),
        t[enc_items(consumed).len() as int] == 101
            || exists|x: BValue| starts_with(t.subrange(enc_items(consumed).len() as int, t.len() as int), enc(x)),
    decreases consumed.len(),
{
    if consumed.len() == 0 {
        if items2.len() == 0 {
            assert(t[0] == (enc_items(items2) + seq![101u8])[0]);
        } else {
            let h2 = items2[0];
            assert(starts_with(t, enc(h2) + (enc_items(items2.subrange(1, items2.len() as int)) + seq![101u8]))) by {
                assert(enc(h2) + (enc_items(items2.subrange(1, items2.len() as int)) + seq![101u8])
                    =~= enc_items(items2) + seq![101u8]);
            }
            lemma_starts_with_concat(t, enc(h2), enc_items(items2.subrange(1, items2.len() as int)) + seq![101u8]);
            assert(t.subrange(0, t.len() as int) =~= t);
            assert(starts_with(t.subrange(0, t.len() as int), enc(h2)));
        }
    } else {
        let h1 = consumed[0];
        let ctail = consumed.subrange(1, consumed.len() as int);
        assert(starts_with(t, enc(h1) + enc_items(ctail))) by {
            assert(enc(h1) + enc_items(ctail) =~= enc_items(consumed));
        }
        lemma_starts_with_concat(t, enc(h1), enc_items(ctail));
        if items2.len() == 0 {
            lemma_enc_first(h1);
            assert(t[0] == (enc_items(items2) + seq![101u8])[0]);
            assert(enc(h1)[0] == t[0]);
            assert(false);
        }
        let h2 = items2[0];
        let tail2 = items2.subrange(1, items2.len() as int);
        assert(starts_with(t, enc(h2) + (enc_items(tail2) + seq![101u8]))) by {
            assert(enc(h2) + (enc_items(tail2) + seq![101u8]) =~= enc_items(items2) + seq![101u8]);
        }
        lemma_starts_with_concat(t, enc(h2), enc_items(tail2) + seq![101u8]);
        lemma_enc_prefix_free(h1, h2, t);
        let l0 = enc(h1).len() as int;
        let t2 = t.subrange(l0, t.len() as int);
        assert(starts_with(t2, enc_items(ctail)));
        assert(starts_with(t2, enc_items(tail2) + seq![101u8]));
        lemma_items_extend(t2, ctail, tail2);
        let lc = enc_items(ctail).len() as int;
        assert(enc_items(consumed).len() == l0 + lc);
        assert(t2[lc] == t[l0 + lc]);
        if !(t[l0 + lc] == 101) {
            let x = choose|x: BValue| starts_with(t2.subrange(lc, t2.len() as int), enc(x));
            assert(t2.subrange(lc, t2.len() as int) =~= t.subrange(l0 + lc, t.len() as int));
            assert(starts_with(t.subrange(l0 + lc, t.len() as int), enc(x)));
        }
    }
}

/// Past a consumed well-formed prefix of a terminated pair list, either
/// the terminator stands next or another pair's encoding starts there.
pub proof fn lemma_pairs_extend(t: Seq<u8>, consumed: Seq<(Vec<u8>, BValue)>, pairs2: Seq<(Vec<u8>, BValue)>)
    requires
        starts_with(t, enc_pairs(consumed)),
        starts_with(t, enc_pairs(pairs2) + seq![101u8]),
    ensures
        enc_pairs(consumed).len() < t.len(),
        t[enc_pairs(consumed).len() as int] == 101
            || exists|kv: (Vec<u8>, BValue)| starts_with(t.subrange(enc_pairs(consumed).len() as int, t.len() as int), enc_pair(kv)),
    decreases consumed.len(),
{
    if consumed.len() == 0 {
        if pairs2.len() == 0 {
            assert(t[0] == (enc_pairs(pairs2) + seq![101u8])[0]);
        } else {
            let kv2 = pairs2[0];
            assert(starts_with(t, enc_pair(kv2) + (enc_pairs(pairs2.subrange(1, pairs2.len() as int)) + seq![101u8]))) by {
                assert(enc_pair(kv2) + (enc_pairs(pairs2.subrange(1, pairs2.len() as int)) + seq![101u8])
                    =~= enc_pairs(pairs2) + seq![101u8]);
            }
            lemma_starts_with_concat(t, enc_pair(kv2), enc_pairs(pairs2.subrange(1, pairs2.len() as int)) + seq![101u8]);
            assert(t.subrange(0, t.len() as int) =~= t);
            assert(starts_with(t.subrange(0, t.len() as int), enc_pair(kv2)));
        }
    } else {
        let kv1 = consumed[0];
        let ctail = consumed.subrange(1, consumed.len() as int);
        assert(starts_with(t, enc_pair(kv1) + enc_pairs(ctail))) by {
            assert(enc_pair(kv1) + enc_pairs(ctail) =~= enc_pairs(consumed));
        }
        lemma_starts_with_concat(t, enc_pair(kv1), enc_pairs(ctail));
        if pairs2.len() == 0 {
            lemma_dec_bytes_shape(kv1.0@.len() as int);
            assert(t[0] == (enc_pairs(pairs2) + seq![101u8])[0]);
            assert(enc_pair(kv1)[0] == dec_bytes(kv1.0@.len() as int)[0]);
            assert(enc_pair(kv1)[0] == t[0]);
            assert(false);
        }
        let kv2 = pairs2[0];
        let tail2 = pairs2.subrange(1, pairs2.len() as int);
        assert(starts_with(t, enc_pair(kv2) + (enc_pairs(tail2) + seq![101u8]))) by {
            assert(enc_pair(kv2) + (enc_pairs(tail2) + seq![101u8]) =~= enc_pairs(pairs2) + seq![101u8]);
        }
        lemma_starts_with_concat(t, enc_pair(kv2), enc_pairs(tail2) + seq![101u8]);
        let kf1 = dec_bytes(kv1.0@.len() as int) + seq![58u8] + kv1.0@;
        let kf2 = dec_bytes(kv2.0@.len() as int) + seq![58u8] + kv2.0@;
        assert(starts_with(t, kf1 + enc(kv1.1))) by {
            assert(kf1 + enc(kv1.1) =~= enc_pair(kv1));
        }
        lemma_starts_with_concat(t, kf1, enc(kv1.1));
        assert(starts_with(t, kf2 + enc(kv2.1))) by {
            assert(kf2 + enc(kv2.1) =~= enc_pair(kv2));
        }
        lemma_starts_with_concat(t, kf2, enc(kv2.1));
        lemma_bytes_form_unique(t, kv1.0@, kv2.0@);
        let tk = t.subrange(kf1.len() as int, t.len() as int);
        lemma_enc_prefix_free(kv1.1, kv2.1, tk);
        assert(enc_pair(kv1) =~= enc_pair(kv2));
        let l0 = enc_pair(kv1).len() as int;
        let t2 = t.subrange(l0, t.len() as int);
        assert(starts_with(t2, enc_pairs(ctail)));
        assert(starts_with(t2, enc_pairs(tail2) + seq![101u8]));
        lemma_pairs_extend(t2, ctail, tail2);
        let lc = enc_pairs(ctail).len() as int;
        assert(enc_pairs(consumed).len() == l0 + lc);
        assert(t2[lc] == t[l0 + lc]);
        if !(t[l0 + lc] == 101) {
            let kv = choose|kv: (Vec<u8>, BValue)| starts_with(t2.subrange(lc, t2.len() as int), enc_pair(kv));
            assert(t2.subrange(lc, t2.len() as int) =~= t.subrange(l0 + lc, t.len() as int));
            assert(starts_with(t.subrange(l0 + lc, t.len() as int), enc_pair(kv)));
        }
    }
}

/// Parse an unsigned decimal number starting at `pos`: one or more
/// digits, no leading zero unless the number is exactly `0`. Ends at the
/// first non-digit; the consumed bytes are exactly the value's decimal
/// digits. Fails when no digit stands at `pos` or the value overflows —
/// and then no number's canonical text, within counter range and
/// followed by the input's end or a non-digit, stands at `pos` at all.
pub(crate) fn parse_number(data: &Vec<u8>, pos: usize) -> (r: Result<(u64, usize), EngineError>)
    requires
        pos <= data@.len(),
    ensures
        match r {
            Ok(vp) => {
                &&& pos < vp.1 <= data@.len()
                &&& data@.subrange(pos as int, vp.1 as int) == dec_bytes(vp.0 as int)
                &&& forall|k: int| pos <= k < vp.1 ==> is_digit(#[trigger] data@[k])
                &&& data@[pos as int] == 48 ==> vp.1 == pos + 1
                &&& data@[pos as int] != 48 ==> (vp.1 == data@.len() || !is_digit(data@[vp.1 as int]))
            },
            Err(e) => {
                &&& e == EngineError::DecodeError
                &&& forall|m: int, e2: int|
                    (0 <= m <= u64::MAX && pos < e2 <= data@.len()
                        && (e2 == data@.len() || !is_digit(data@[e2]))
                        && #[trigger] data@.subrange(pos as int, e2) == #[trigger] dec_bytes(m))
                    ==> false
            },
        },
{
    let n = data.len();
    if pos >= n || !(48 <= data[pos] && data[pos] <= 57) {
        proof {
            assert forall|m: int, e2: int|
                (0 <= m <= u64::MAX && pos < e2 <= data@.len()
                    && (e2 == data@.len() || !is_digit(data@[e2]))
                    && #[trigger] data@.subrange(pos as int, e2) == #[trigger] dec_bytes(m))
                implies false by {
                lemma_dec_bytes_shape(m);
                assert(data@[pos as int] == data@.subrange(pos as int, e2)[0]);
                assert(is_digit(dec_bytes(m)[0]));
            }
        }
        return Err(EngineError::DecodeError);
    }
    let d0 = (data[pos] - 48) as u64;
    let mut value: u64 = d0;
    let mut p: usize = pos + 1;
    proof {
        assert(data@.subrange(pos as int, pos + 1) =~= seq![data@[pos as int]]);
    }
    if d0 == 0 {
        return Ok((0, p));
    }
    while p < n && 48 <= data[p] && data[p] <= 57
        invariant
            pos < p <= n,
            n == data@.len(),
            1 <= value,
            data@[pos as int] != 48,
            forall|k: int| pos <= k < p ==> is_digit(#[trigger] data@[k]),
            data@.subrange(pos as int, p as int) == dec_bytes(value as int),
        decreases n - p,
    {
        let d = (data[p] - 48) as u64;
        if value > (u64::MAX - d) / 10 {
            proof {
                lemma_dec_bytes_shape(value as int);
                let mx = u64::MAX as int;
                lemma_fundamental_div_mod(mx - d, 10);
                let q = (mx - d) / 10;
                let rr = (mx - d) % 10;
                assert(value as int * 10 + d > mx) by (nonlinear_arith)
                    requires
                        value as int >= q + 1,
                        mx - (d as int) == 10 * q + rr,
                        0 <= rr < 10,
                        0 <= d as int;
                assert forall|m: int, e2: int|
                    (0 <= m <= u64::MAX && pos < e2 <= data@.len()
                        && (e2 == data@.len() || !is_digit(data@[e2]))
                        && #[trigger] data@.subrange(pos as int, e2) == #[trigger] dec_bytes(m))
                    implies false by {
                    lemma_dec_bytes_shape(m);
                    if e2 <= p {
                        assert(is_digit(data@[e2]));
                        assert(e2 < data@.len());
                    } else {
                        let run = data@.subrange(pos as int, e2);
                        assert forall|k: int| 0 <= k < run.len() implies is_digit(#[trigger] run[k]) by {
                            assert(run[k] == dec_bytes(m)[k]);
                        }
                        lemma_dec_val_prefix(run, p + 1 - pos);
                        assert(run.subrange(0, p + 1 - pos) =~= data@.subrange(pos as int, p + 1));
                        assert(data@.subrange(pos as int, p + 1).drop_last()
                            =~= data@.subrange(pos as int, p as int));
                        assert(data@.subrange(pos as int, p + 1).last() == data@[p as int]);
                        assert(dec_val(data@.subrange(pos as int, p + 1))
                            == dec_val(dec_bytes(value as int)) * 10 + d);
                        assert(m == dec_val(run));
                        assert(m >= value as int * 10 + d);
                    }
                }
            }
            return Err(EngineError::DecodeError);
        }
        proof {
            assert(value * 10 + d <= u64::MAX) by (nonlinear_arith)
                requires value <= (u64::MAX - d) / 10, d <= u64::MAX;
            lemma_fundamental_div_mod_converse(
                value as int * 10 + d as int, 10, value as int, d as int);
            assert(dec_bytes(value as int * 10 + d as int)
                == dec_bytes(value as int).push((48 + d as int) as u8));
            assert(data@.subrange(pos as int, p + 1)
                =~= data@.subrange(pos as int, p as int).push(data@[p as int]));
        }
        value = value * 10 + d;
        p = p + 1;
    }
    Ok((value, p))
}

/// From a claimed byte-string encoding at `pos`, the length text and
/// the separator stand at fixed positions of the data.
proof fn lemma_bytes_hyp(data: Seq<u8>, pos: int, bs: Seq<u8>, e2: int)
    requires
        0 <= pos < e2 <= data.len(),
        data.subrange(pos, e2) == dec_bytes(bs.len() as int) + seq![58u8] + bs,
    ensures
        ({
            let dl = dec_bytes(bs.len() as int).len() as int;
            &&& pos + dl < e2
            &&& e2 == pos + dl + 1 + bs.len()
            &&& data.subrange(pos, pos + dl) == dec_bytes(bs.len() as int)
            &&& data[pos + dl] == 58
        }),
{
    lemma_dec_bytes_shape(bs.len() as int);
    let w = dec_bytes(bs.len() as int) + seq![58u8] + bs;
    let t = data.subrange(pos, data.len() as int);
    assert forall|k: int| 0 <= k < w.len() implies w[k] == t.subrange(0, w.len() as int)[k] by {
        assert(w[k] == data.subrange(pos, e2)[k]);
    }
    assert(w =~= t.subrange(0, w.len() as int));
    let dl = dec_bytes(bs.len() as int).len() as int;
    lemma_starts_with_sub(t, w, 0, dl);
    assert(data.subrange(pos, pos + dl) =~= t.subrange(0, dl));
    assert(w.subrange(0, dl) =~= dec_bytes(bs.len() as int));
    lemma_starts_with_index(t, w, dl);
    assert(w[dl] == 58);
    assert(data[pos + dl] == t[dl]);
}

/// Parse a byte string `<length>:<bytes>` starting at `pos`. On success
/// the consumed bytes are exactly the returned bytes' encoding; on
/// failure no byte string's encoding stands at `pos` at all.
fn parse_bytes(data: &Vec<u8>, pos: usize) -> (r: Result<(Vec<u8>, usize), EngineError>)
    requires
        pos <= data@.len(),
    ensures
        match r {
            Ok(vp) => {
                &&& pos < vp.1 <= data@.len()
                &&& data@.subrange(pos as int, vp.1 as int)
                    == dec_bytes(vp.0@.len() as int) + seq![58u8] + vp.0@
            },
            Err(e) => {
                &&& e == EngineError::DecodeError
                &&& forall|bs: Seq<u8>, e2: int|
                    (bs.len() <= usize::MAX && pos < e2 <= data@.len()
                        && #[trigger] data@.subrange(pos as int, e2)
                            == (#[trigger] dec_bytes(bs.len() as int)) + seq![58u8] + bs)
                    ==> false
            },
        },
{
    let n = data.len();
    let (len, p) = match parse_number(data, pos) {
        Ok(vp) => vp,
        Err(e) => {
            proof {
                assert forall|bs: Seq<u8>, e2: int|
                    (bs.len() <= usize::MAX && pos < e2 <= data@.len()
                        && #[trigger] data@.subrange(pos as int, e2)
                            == (#[trigger] dec_bytes(bs.len() as int)) + seq![58u8] + bs)
                    implies false by {
                    lemma_bytes_hyp(data@, pos as int, bs, e2);
                }
            }
            return Err(e);
        },
    };
    if p >= n || data[p] != 58 {
        proof {
            assert forall|bs: Seq<u8>, e2: int|
                (bs.len() <= usize::MAX && pos < e2 <= data@.len()
                    && #[trigger] data@.subrange(pos as int, e2)
                        == (#[trigger] dec_bytes(bs.len() as int)) + seq![58u8] + bs)
                implies false by {
                lemma_bytes_hyp(data@, pos as int, bs, e2);
                let dl = dec_bytes(bs.len() as int).len() as int;
                lemma_number_at_unique(
                    data@, pos as int, len as int, p as int, bs.len() as int, pos + dl);
            }
        }
        return Err(EngineError::DecodeError);
    }
    let start = p + 1;
    if len > (n - start) as u64 {
        proof {
            assert forall|bs: Seq<u8>, e2: int|
                (bs.len() <= usize::MAX && pos < e2 <= data@.len()
                    && #[trigger] data@.subrange(pos as int, e2)
                        == (#[trigger] dec_bytes(bs.len() as int)) + seq![58u8] + bs)
                implies false by {
                lemma_bytes_hyp(data@, pos as int, bs, e2);
                let dl = dec_bytes(bs.len() as int).len() as int;
                lemma_number_at_unique(
                    data@, pos as int, len as int, p as int, bs.len() as int, pos + dl);
            }
        }
        return Err(EngineError::DecodeError);
    }
    let len_us = len as usize;
    let mut bytes: Vec<u8> = Vec::new();
    let mut i: usize = 0;
    while i < len_us
        invariant
            start + len_us <= n,
            n == data@.len(),
            0 <= i <= len_us,
            bytes@.len() == i,
            bytes@ == data@.subrange(start as int, start + i),
        decreases len_us - i,
    {
        let b = data[start + i];
        bytes.push(b);
        proof {
            assert(bytes@ =~= data@.subrange(start as int, start + i + 1));
        }
        i = i + 1;
    }
    let end = start + len_us;
    proof {
        assert(data@.subrange(pos as int, end as int)
            =~= dec_bytes(len as int) + seq![58u8] + bytes@);
        assert(bytes@.len() as int == len as int);
    }
    Ok((bytes, end))
}

/// No value's encoding stands at `pos` of `data`.
pub open spec fn no_value_at(data: Seq<u8>, pos: int) -> bool {
    forall|v: BValue, end: int|
        (pos < end <= data.len() && #[trigger] enc(v) == #[trigger] data.subrange(pos, end))
        ==> false
}

/// An encoding placed at `pos` leads the data's suffix at `pos`.
proof fn lemma_enc_at_starts(data: Seq<u8>, pos: int, v: BValue, end: int)
    requires
        0 <= pos < end <= data.len(),
        enc(v) == data.subrange(pos, end),
    ensures
        starts_with(data.subrange(pos, data.len() as int), enc(v)),
{
    let t = data.subrange(pos, data.len() as int);
    assert forall|k: int| 0 <= k < enc(v).len() implies enc(v)[k] == t.subrange(0, enc(v).len() as int)[k] by {
        assert(enc(v)[k] == data.subrange(pos, end)[k]);
    }
    assert(enc(v) =~= t.subrange(0, enc(v).len() as int));
}

/// An integer opener whose sign is not followed by a number's canonical
/// text opens no value.
proof fn lemma_no_int_no_number(data: Seq<u8>, pos: int, p: int, negative: bool)
    requires
        0 <= pos < data.len(),
        data[pos] == 105,
        negative ==> pos + 1 < data.len() && data[pos + 1] == 45 && p == pos + 2,
        !negative ==> p == pos + 1 && (pos + 1 < data.len() ==> data[pos + 1] != 45),
        p <= data.len(),
        forall|m: int, e2: int|
            (0 <= m <= u64::MAX && p < e2 <= data.len()
                && (e2 == data.len() || !is_digit(data[e2]))
                && #[trigger] data.subrange(p, e2) == #[trigger] dec_bytes(m))
            ==> false,
    ensures
        no_value_at(data, pos),
{
    assert forall|v: BValue, end: int|
        (pos < end <= data.len() && #[trigger] enc(v) == #[trigger] data.subrange(pos, end))
        implies false by {
        lemma_enc_first(v);
        lemma_enc_at_starts(data, pos, v, end);
        let t = data.subrange(pos, data.len() as int);
        lemma_starts_with_index(t, enc(v), 0);
        match v {
            BValue::Integer(i) => {
                let m = if i < 0 { -(i as int) } else { i as int };
                lemma_dec_bytes_shape(m);
                lemma_starts_with_index(t, enc(v), 1);
                assert(data[pos + 1] == t[1]);
                if i < 0 {
                    assert(enc(v)[1] == 45);
                    let e = 2 + dec_bytes(m).len() as int;
                    lemma_starts_with_sub(t, enc(v), 2, e);
                    assert(t.subrange(2, e) =~= dec_bytes(m)) by {
                        assert(enc(v).subrange(2, e) =~= dec_bytes(m));
                    }
                    assert(data.subrange(pos + 2, pos + e) =~= t.subrange(2, e));
                    lemma_starts_with_index(t, enc(v), e);
                    assert(enc(v)[e] == 101);
                    assert(data[pos + e] == t[e]);
                    assert(data.subrange(p, pos + e) == dec_bytes(m));
                    assert(!is_digit(data[pos + e]));
                    assert(false);
                } else {
                    assert(enc(v)[1] == dec_bytes(m)[0]);
                    assert(is_digit(data[pos + 1]));
                    let e = 1 + dec_bytes(m).len() as int;
                    lemma_starts_with_sub(t, enc(v), 1, e);
                    assert(t.subrange(1, e) =~= dec_bytes(m)) by {
                        assert(enc(v).subrange(1, e) =~= dec_bytes(m));
                    }
                    assert(data.subrange(pos + 1, pos + e) =~= t.subrange(1, e));
                    lemma_starts_with_index(t, enc(v), e);
                    assert(enc(v)[e] == 101);
                    assert(data[pos + e] == t[e]);
                    assert(data.subrange(p, pos + e) == dec_bytes(m));
                    assert(!is_digit(data[pos + e]));
                    assert(false);
                }
            },
            _ => {
                assert(data[pos] == t[0]);
                assert(false);
            },
        }
    }
}

/// A parsed integer form that misses its terminator, or reads `-0` or a
/// magnitude no counter value carries, opens no value.
proof fn lemma_no_int_bad(data: Seq<u8>, pos: int, p: int, negative: bool, mag: int, q: int)
    requires
        0 <= pos < data.len(),
        data[pos] == 105,
        negative ==> pos + 1 < data.len() && data[pos + 1] == 45 && p == pos + 2,
        !negative ==> p == pos + 1 && (pos + 1 < data.len() ==> data[pos + 1] != 45),
        0 <= mag,
        p < q <= data.len(),
        data.subrange(p, q) == dec_bytes(mag),
        data[p] == 48 ==> q == p + 1,
        data[p] != 48 ==> (q == data.len() || !is_digit(data[q])),
        (q == data.len() || data[q] != 101)
            || (negative && mag == 0)
            || (negative && mag > 9223372036854775808)
            || (!negative && mag > i64::MAX),
    ensures
        no_value_at(data, pos),
{
    assert forall|v: BValue, end: int|
        (pos < end <= data.len() && #[trigger] enc(v) == #[trigger] data.subrange(pos, end))
        implies false by {
        lemma_enc_first(v);
        lemma_enc_at_starts(data, pos, v, end);
        let t = data.subrange(pos, data.len() as int);
        lemma_starts_with_index(t, enc(v), 0);
        match v {
            BValue::Integer(i) => {
                let m = if i < 0 { -(i as int) } else { i as int };
                lemma_dec_bytes_shape(m);
                lemma_starts_with_index(t, enc(v), 1);
                assert(data[pos + 1] == t[1]);
                let off: int = if i < 0 { 2 } else { 1 };
                if i < 0 {
                    assert(enc(v)[1] == 45);
                } else {
                    assert(enc(v)[1] == dec_bytes(m)[0]);
                    assert(is_digit(data[pos + 1]));
                }
                let e = off + dec_bytes(m).len() as int;
                lemma_starts_with_sub(t, enc(v), off, e);
                assert(t.subrange(off, e) =~= dec_bytes(m)) by {
                    assert(enc(v).subrange(off, e) =~= dec_bytes(m));
                }
                assert(data.subrange(pos + off, pos + e) =~= t.subrange(off, e));
                lemma_starts_with_index(t, enc(v), e);
                assert(enc(v)[e] == 101);
                assert(data[pos + e] == t[e]);
                assert(data.subrange(p, pos + e) == dec_bytes(m));
                lemma_number_at_unique(data, p, mag, q, m, pos + e);
                assert(data[q] == 101 && q < data.len());
                if i < 0 {
                    assert(m >= 1);
                    assert(m <= 9223372036854775808);
                } else {
                    assert(m <= i64::MAX);
                }
                assert(false);
            },
            _ => {
                assert(data[pos] == t[0]);
                assert(false);
            },
        }
    }
}

/// A digit opener with no byte string's encoding opens no value: only
/// byte strings start with a digit.
proof fn lemma_no_bytes_here(data: Seq<u8>, pos: int)
    requires
        0 <= pos < data.len(),
        is_digit(data[pos]),
        forall|bs: Seq<u8>, e2: int|
            (bs.len() <= usize::MAX && pos < e2 <= data.len()
                && #[trigger] data.subrange(pos, e2)
                    == (#[trigger] dec_bytes(bs.len() as int)) + seq![58u8] + bs)
            ==> false,
    ensures
        no_value_at(data, pos),
{
    assert forall|v: BValue, end: int|
        (pos < end <= data.len() && #[trigger] enc(v) == #[trigger] data.subrange(pos, end))
        implies false by {
        lemma_enc_first(v);
        lemma_enc_at_starts(data, pos, v, end);
        let t = data.subrange(pos, data.len() as int);
        lemma_starts_with_index(t, enc(v), 0);
        match v {
            BValue::Bytes(b) => {
                assert(vstd::std_specs::vec::spec_vec_len(&b) == b@.len());
                assert(data.subrange(pos, end) == dec_bytes(b@.len() as int) + seq![58u8] + b@);
                assert(false);
            },
            _ => {
                assert(data[pos] == t[0]);
                assert(false);
            },
        }
    }
}

/// Inside a list whose consumed elements are well formed, where neither
/// the terminator stands nor any value parses, no list completes.
proof fn lemma_no_list_here(data: Seq<u8>, pos: int, p: int, consumed: Seq<BValue>)
    requires
        0 <= pos < p <= data.len(),
        data[pos] == 108,
        data.subrange(pos + 1, p) == enc_items(consumed),
        p < data.len() ==> data[p] != 101,
        p < data.len() ==> no_value_at(data, p),
    ensures
        no_value_at(data, pos),
{
    assert forall|v: BValue, end: int|
        (pos < end <= data.len() && #[trigger] enc(v) == #[trigger] data.subrange(pos, end))
        implies false by {
        lemma_enc_first(v);
        lemma_enc_at_starts(data, pos, v, end);
        let t = data.subrange(pos, data.len() as int);
        lemma_starts_with_index(t, enc(v), 0);
        match v {
            BValue::List(items2) => {
                assert(starts_with(t, seq![108u8] + (enc_items(items2@) + seq![101u8]))) by {
                    assert(seq![108u8] + (enc_items(items2@) + seq![101u8]) =~= enc(v));
                }
                lemma_starts_with_concat(t, seq![108u8], enc_items(items2@) + seq![101u8]);
                let t1 = data.subrange(pos + 1, data.len() as int);
                assert(t.subrange(1, t.len() as int) =~= t1);
                assert(starts_with(t1, enc_items(consumed))) by {
                    assert forall|k: int| 0 <= k < enc_items(consumed).len() implies
                        enc_items(consumed)[k] == t1.subrange(0, enc_items(consumed).len() as int)[k] by {
                        assert(enc_items(consumed)[k] == data.subrange(pos + 1, p)[k]);
                    }
                    assert(enc_items(consumed) =~= t1.subrange(0, enc_items(consumed).len() as int));
                }
                lemma_items_extend(t1, consumed, items2@);
                let ll = enc_items(consumed).len() as int;
                assert(ll == p - pos - 1);
                assert(p < data.len());
                if t1[ll] == 101 {
                    assert(data[p] == 101);
                    assert(false);
                } else {
                    let x = choose|x: BValue| starts_with(t1.subrange(ll, t1.len() as int), enc(x));
                    lemma_enc_first(x);
                    let tp = data.subrange(p, data.len() as int);
                    assert(t1.subrange(ll, t1.len() as int) =~= tp);
                    assert(starts_with(tp, enc(x)));
                    lemma_starts_with_sub(tp, enc(x), 0, enc(x).len() as int);
                    assert(enc(x) =~= data.subrange(p, p + enc(x).len() as int)) by {
                        assert(enc(x).subrange(0, enc(x).len() as int) =~= enc(x));
                        assert(tp.subrange(0, enc(x).len() as int)
                            =~= data.subrange(p, p + enc(x).len() as int));
                    }
                    assert(false);
                }
            },
            _ => {
                assert(data[pos] == t[0]);
                assert(false);
            },
        }
    }
}

/// Inside a dictionary whose consumed pairs are well formed, where
/// neither the terminator stands nor any key parses, no dictionary
/// completes.
proof fn lemma_no_dict_here_key(data: Seq<u8>, pos: int, p: int, consumed: Seq<(Vec<u8>, BValue)>)
    requires
        0 <= pos < p <= data.len(),
        data[pos] == 100,
        data.subrange(pos + 1, p) == enc_pairs(consumed),
        p < data.len() ==> data[p] != 101,
        p < data.len() ==> forall|bs: Seq<u8>, e2: int|
            (bs.len() <= usize::MAX && p < e2 <= data.len()
                && (#[trigger] data.subrange(p, e2))
                    == (#[trigger] dec_bytes(bs.len() as int)) + seq![58u8] + bs)
            ==> false,
    ensures
        no_value_at(data, pos),
{
    assert forall|v: BValue, end: int|
        (pos < end <= data.len() && #[trigger] enc(v) == #[trigger] data.subrange(pos, end))
        implies false by {
        lemma_enc_first(v);
        lemma_enc_at_starts(data, pos, v, end);
        let t = data.subrange(pos, data.len() as int);
        lemma_starts_with_index(t, enc(v), 0);
        match v {
            BValue::Dict(pairs2) => {
                assert(starts_with(t, seq![100u8] + (enc_pairs(pairs2@) + seq![101u8]))) by {
                    assert(seq![100u8] + (enc_pairs(pairs2@) + seq![101u8]) =~= enc(v));
                }
                lemma_starts_with_concat(t, seq![100u8], enc_pairs(pairs2@) + seq![101u8]);
                let t1 = data.subrange(pos + 1, data.len() as int);
                assert(t.subrange(1, t.len() as int) =~= t1);
                assert(starts_with(t1, enc_pairs(consumed))) by {
                    assert forall|k: int| 0 <= k < enc_pairs(consumed).len() implies
                        enc_pairs(consumed)[k] == t1.subrange(0, enc_pairs(consumed).len() as int)[k] by {
                        assert(enc_pairs(consumed)[k] == data.subrange(pos + 1, p)[k]);
                    }
                    assert(enc_pairs(consumed) =~= t1.subrange(0, enc_pairs(consumed).len() as int));
                }
                lemma_pairs_extend(t1, consumed, pairs2@);
                let ll = enc_pairs(consumed).len() as int;
                assert(ll == p - pos - 1);
                assert(p < data.len());
                if t1[ll] == 101 {
                    assert(data[p] == 101);
                    assert(false);
                } else {
                    let kv = choose|kv: (Vec<u8>, BValue)| starts_with(t1.subrange(ll, t1.len() as int), enc_pair(kv));
                    let tp = data.subrange(p, data.len() as int);
                    assert(t1.subrange(ll, t1.len() as int) =~= tp);
                    assert(starts_with(tp, enc_pair(kv)));
                    let kf = dec_bytes(kv.0@.len() as int) + seq![58u8] + kv.0@;
                    assert(starts_with(tp, kf + enc(kv.1))) by {
                        assert(kf + enc(kv.1) =~= enc_pair(kv));
                    }
                    lemma_starts_with_concat(tp, kf, enc(kv.1));
                    lemma_starts_with_sub(tp, kf, 0, kf.len() as int);
                    assert(vstd::std_specs::vec::spec_vec_len(&kv.0) == kv.0@.len());
                    lemma_dec_bytes_shape(kv.0@.len() as int);
                    assert(data.subrange(p, p + kf.len() as int) == kf) by {
                        assert(kf.subrange(0, kf.len() as int) =~= kf);
                        assert(tp.subrange(0, kf.len() as int)
                            =~= data.subrange(p, p + kf.len() as int));
                    }
                    assert(false);
                }
            },
            _ => {
                assert(data[pos] == t[0]);
                assert(false);
            },
        }
    }
}

/// Inside a dictionary, where a key parses but no value follows it, no
/// dictionary completes.
proof fn lemma_no_dict_here_value(data: Seq<u8>, pos: int, p: int, kp: int, consumed: Seq<(Vec<u8>, BValue)>, key: Seq<u8>)
    requires
        0 <= pos < p < kp <= data.len(),
        data[pos] == 100,
        data.subrange(pos + 1, p) == enc_pairs(consumed),
        data.subrange(p, kp) == dec_bytes(key.len() as int) + seq![58u8] + key,
        no_value_at(data, kp),
    ensures
        no_value_at(data, pos),
{
    assert forall|v: BValue, end: int|
        (pos < end <= data.len() && #[trigger] enc(v) == #[trigger] data.subrange(pos, end))
        implies false by {
        lemma_enc_first(v);
        lemma_enc_at_starts(data, pos, v, end);
        let t = data.subrange(pos, data.len() as int);
        lemma_starts_with_index(t, enc(v), 0);
        match v {
            BValue::Dict(pairs2) => {
                assert(starts_with(t, seq![100u8] + (enc_pairs(pairs2@) + seq![101u8]))) by {
                    assert(seq![100u8] + (enc_pairs(pairs2@) + seq![101u8]) =~= enc(v));
                }
                lemma_starts_with_concat(t, seq![100u8], enc_pairs(pairs2@) + seq![101u8]);
                let t1 = data.subrange(pos + 1, data.len() as int);
                assert(t.subrange(1, t.len() as int) =~= t1);
                assert(starts_with(t1, enc_pairs(consumed))) by {
                    assert forall|k: int| 0 <= k < enc_pairs(consumed).len() implies
                        enc_pairs(consumed)[k] == t1.subrange(0, enc_pairs(consumed).len() as int)[k] by {
                        assert(enc_pairs(consumed)[k] == data.subrange(pos + 1, p)[k]);
                    }
                    assert(enc_pairs(consumed) =~= t1.subrange(0, enc_pairs(consumed).len() as int));
                }
                lemma_pairs_extend(t1, consumed, pairs2@);
                let ll = enc_pairs(consumed).len() as int;
                assert(ll == p - pos - 1);
                let ourkf = dec_bytes(key.len() as int) + seq![58u8] + key;
                lemma_dec_bytes_shape(key.len() as int);
                if t1[ll] == 101 {
                    assert(data[p] == 101);
                    assert(data[p] == ourkf[0]) by {
                        assert(data.subrange(p, kp)[0] == ourkf[0]);
                    }
                    assert(ourkf[0] == dec_bytes(key.len() as int)[0]);
                    assert(false);
                } else {
                    let kv = choose|kv: (Vec<u8>, BValue)| starts_with(t1.subrange(ll, t1.len() as int), enc_pair(kv));
                    let tp = data.subrange(p, data.len() as int);
                    assert(t1.subrange(ll, t1.len() as int) =~= tp);
                    assert(starts_with(tp, enc_pair(kv)));
                    let kf = dec_bytes(kv.0@.len() as int) + seq![58u8] + kv.0@;
                    assert(starts_with(tp, kf + enc(kv.1))) by {
                        assert(kf + enc(kv.1) =~= enc_pair(kv));
                    }
                    lemma_starts_with_concat(tp, kf, enc(kv.1));
                    assert(starts_with(tp, ourkf)) by {
                        assert forall|k: int| 0 <= k < ourkf.len() implies
                            ourkf[k] == tp.subrange(0, ourkf.len() as int)[k] by {
                            assert(ourkf[k] == data.subrange(p, kp)[k]);
                        }
                        assert(ourkf =~= tp.subrange(0, ourkf.len() as int));
                    }
                    lemma_bytes_form_unique(tp, key, kv.0@);
                    assert(kf.len() == ourkf.len());
                    assert(kp == p + kf.len());
                    let tkp = data.subrange(kp, data.len() as int);
                    assert(tp.subrange(kf.len() as int, tp.len() as int) =~= tkp);
                    assert(starts_with(tkp, enc(kv.1)));
                    lemma_enc_first(kv.1);
                    lemma_starts_with_sub(tkp, enc(kv.1), 0, enc(kv.1).len() as int);
                    assert(enc(kv.1) =~= data.subrange(kp, kp + enc(kv.1).len() as int)) by {
                        assert(enc(kv.1).subrange(0, enc(kv.1).len() as int) =~= enc(kv.1));
                        assert(tkp.subrange(0, enc(kv.1).len() as int)
                            =~= data.subrange(kp, kp + enc(kv.1).len() as int));
                    }
                    assert(false);
                }
            },
            _ => {
                assert(data[pos] == t[0]);
                assert(false);
            },
        }
    }
}

/// A byte that opens no encoding form opens no value.
proof fn lemma_no_value_bad_first(data: Seq<u8>, pos: int)
    requires
        0 <= pos < data.len(),
        data[pos] != 105,
        data[pos] != 108,
        data[pos] != 100,
        !is_digit(data[pos]),
    ensures
        no_value_at(data, pos),
{
    assert forall|v: BValue, end: int|
        (pos < end <= data.len() && #[trigger] enc(v) == #[trigger] data.subrange(pos, end))
        implies false by {
        lemma_enc_first(v);
        lemma_enc_at_starts(data, pos, v, end);
        let t = data.subrange(pos, data.len() as int);
        lemma_starts_with_index(t, enc(v), 0);
        assert(data[pos] == t[0]);
    }
}

/// Parse one bencoded value starting at `pos`. On success the consumed
/// bytes `[pos, end)` are exactly the returned value's encoding: what
/// was parsed is what those bytes say, nothing reordered or invented.
/// On failure no value's encoding stands at `pos` at all. Integers and
/// lengths must be canonical (no leading zeros, no `-0`).
pub fn parse_value(data: &Vec<u8>, pos: usize) -> (r: Result<(BValue, usize), EngineError>)
    requires
        pos <= data@.len(),
    ensures
        match r {
            Ok(vp) => {
                &&& pos < vp.1 <= data@.len()
                &&& enc(vp.0) == data@.subrange(pos as int, vp.1 as int)
            },
            Err(e) => {
                &&& e == EngineError::DecodeError
                &&& no_value_at(data@, pos as int)
            },
        },
    decreases data@.len() - pos,
{
    let n = data.len();
    if pos >= n {
        return Err(EngineError::DecodeError);
    }
    let c = data[pos];
    if c == 105 {
        // 'i': integer, optional leading '-'
        let mut p = pos + 1;
        let negative = if p < n && data[p] == 45 {
            p = p + 1;
            true
        } else {
            false
        };
        let (mag, q) = match parse_number(data, p) {
            Ok(vp) => vp,
            Err(e) => {
                proof {
                    lemma_no_int_no_number(data@, pos as int, p as int, negative);
                }
                return Err(e);
            },
        };
        if q >= n || data[q] != 101 {
            proof {
                lemma_no_int_bad(data@, pos as int, p as int, negative, mag as int, q as int);
            }
            return Err(EngineError::DecodeError);
        }
        if negative && mag == 0 {
            proof {
                lemma_no_int_bad(data@, pos as int, p as int, negative, mag as int, q as int);
            }
            return Err(EngineError::DecodeError);
        }
        let value: i64;
        if negative {
            if mag > 9223372036854775808u64 {
                proof {
                    lemma_no_int_bad(data@, pos as int, p as int, negative, mag as int, q as int);
                }
                return Err(EngineError::DecodeError);
            }
            value = if mag == 9223372036854775808u64 {
                i64::MIN
            } else {
                -(mag as i64)
            };
        } else {
            if mag > i64::MAX as u64 {
                proof {
                    lemma_no_int_bad(data@, pos as int, p as int, negative, mag as int, q as int);
                }
                return Err(EngineError::DecodeError);
            }
            value = mag as i64;
        }
        proof {
            assert(data@.subrange(pos as int, q + 1)
                =~= seq![105u8] + int_dec_bytes(value as int) + seq![101u8]);
        }
        Ok((BValue::Integer(value), q + 1))
    } else if c == 108 {
        // 'l': list of values until 'e'
        let mut items: Vec<BValue> = Vec::new();
        let mut p = pos + 1;
        proof {
            assert(data@.subrange(pos + 1, pos + 1) =~= enc_items(items@));
        }
        loop
            invariant
                pos < p <= n,
                n == data@.len(),
                data@[pos as int] == 108,
                data@.subrange(pos + 1, p as int) == enc_items(items@),
            decreases n - p,
        {
            if p >= n {
                proof {
                    lemma_no_list_here(data@, pos as int, p as int, items@);
                }
                return Err(EngineError::DecodeError);
            }
            if data[p] == 101 {
                proof {
                    assert(data@.subrange(pos as int, p + 1)
                        =~= seq![108u8] + enc_items(items@) + seq![101u8]);
                }
                return Ok((BValue::List(items), p + 1));
            }
            let (v, np) = match parse_value(data, p) {
                Ok(vp) => vp,
                Err(e) => {
                    proof {
                        lemma_no_list_here(data@, pos as int, p as int, items@);
                    }
                    return Err(e);
                },
            };
            proof {
                lemma_enc_items_push(items@, v);
                assert(data@.subrange(pos + 1, np as int)
                    =~= data@.subrange(pos + 1, p as int) + data@.subrange(p as int, np as int));
            }
            items.push(v);
            p = np;
        }
    } else if c == 100 {
        // 'd': key/value pairs until 'e'
        let mut pairs: Vec<(Vec<u8>, BValue)> = Vec::new();
        let mut p = pos + 1;
        proof {
            assert(data@.subrange(pos + 1, pos + 1) =~= enc_pairs(pairs@));
        }
        loop
            invariant
                pos < p <= n,
                n == data@.len(),
                data@[pos as int] == 100,
                data@.subrange(pos + 1, p as int) == enc_pairs(pairs@),
            decreases n - p,
        {
            if p >= n {
                proof {
                    lemma_no_dict_here_key(data@, pos as int, p as int, pairs@);
                }
                return Err(EngineError::DecodeError);
            }
            if data[p] == 101 {
                proof {
                    assert(data@.subrange(pos as int, p + 1)
                        =~= seq![100u8] + enc_pairs(pairs@) + seq![101u8]);
                }
                return Ok((BValue::Dict(pairs), p + 1));
            }
            let (key, kp) = match parse_bytes(data, p) {
                Ok(vp) => vp,
                Err(e) => {
                    proof {
                        lemma_no_dict_here_key(data@, pos as int, p as int, pairs@);
                    }
                    return Err(e);
                },
            };
            let (v, np) = match parse_value(data, kp) {
                Ok(vp) => vp,
                Err(e) => {
                    proof {
                        lemma_no_dict_here_value(data@, pos as int, p as int, kp as int, pairs@, key@);
                    }
                    return Err(e);
                },
            };
            proof {
                lemma_enc_pairs_push(pairs@, (key, v));
                assert(enc_pair((key, v))
                    =~= data@.subrange(p as int, kp as int) + data@.subrange(kp as int, np as int));
                assert(data@.subrange(pos + 1, np as int)
                    =~= data@.subrange(pos + 1, p as int)
                        + (data@.subrange(p as int, kp as int) + data@.subrange(kp as int, np as int)));
            }
            pairs.push((key, v));
            p = np;
        }
    } else if 48 <= c && c <= 57 {
        match parse_bytes(data, pos) {
            Ok((bytes, end)) => Ok((BValue::Bytes(bytes), end)),
            Err(e) => {
                proof {
                    lemma_no_bytes_here(data@, pos as int);
                }
                Err(e)
            },
        }
    } else {
        proof {
            lemma_no_value_bad_first(data@, pos as int);
        }
        Err(EngineError::DecodeError)
    }
}

/// Whether a vector and a byte slice hold the same bytes.
pub fn bytes_match(a: &Vec<u8>, b: &[u8]) -> (r: bool)
    ensures
        r == (a@ == b@),
{
    if a.len() != b.len() {
        return false;
    }
    let n = a.len();
    let mut i: usize = 0;
    while i < n
        invariant
            n == a@.len(),
            n == b@.len(),
            0 <= i <= n,
            forall|j: int| 0 <= j < i ==> a@[j] == b@[j],
        decreases n - i,
    {
        if a[i] != b[i] {
            return false;
        }
        i = i + 1;
    }
    proof {
        assert(a@ =~= b@);
    }
    true
}

/// The value of the first pair whose key holds exactly `key`, if any.
pub open spec fn dict_first(pairs: Seq<(Vec<u8>, BValue)>, key: Seq<u8>) -> Option<BValue>
    decreases pairs.len(),
{
    if pairs.len() == 0 {
        None
    } else if pairs[0].0@ == key {
        Some(pairs[0].1)
    } else {
        dict_first(pairs.subrange(1, pairs.len() as int), key)
    }
}

/// Look `key` up in a parsed dictionary: exactly the first-match lookup
/// `dict_first`.
pub fn dict_get<'a>(pairs: &'a Vec<(Vec<u8>, BValue)>, key: &[u8]) -> (r: Option<&'a BValue>)
    ensures
        match r {
            Some(v) => dict_first(pairs@, key@) == Some(*v),
            None => dict_first(pairs@, key@) is None,
        },
{
    let n = pairs.len();
    proof {
        assert(pairs@.subrange(0, n as int) =~= pairs@);
    }
    let mut i: usize = 0;
    while i < n
        invariant
            n == pairs@.len(),
            0 <= i <= n,
            dict_first(pairs@, key@) == dict_first(pairs@.subrange(i as int, n as int), key@),
        decreases n - i,
    {
        proof {
            assert(pairs@.subrange(i as int, n as int)[0] == pairs@[i as int]);
            assert(pairs@.subrange(i as int, n as int)
                .subrange(1, pairs@.subrange(i as int, n as int).len() as int)
                =~= pairs@.subrange(i + 1, n as int));
        }
        if bytes_match(&pairs[i].0, key) {
            let v = &pairs[i].1;
            return Some(v);
        }
        i = i + 1;
    }
    proof {
        assert(pairs@.subrange(n as int, n as int).len() == 0);
    }
    None
}

} // verus!
