//! The laws relating the encoder and the decoder: decoding inverts encoding
//! on well-formed values, and every decoded value is canonical.

use vstd::prelude::*;

use crate::digits::dec_digits;
use crate::digits::digits_val;
use crate::digits::lemma_dec_digits;
use crate::encode::enc;
use crate::encode::enc_bytes;
use crate::encode::enc_entries;
use crate::encode::enc_items;
use crate::encode::int_digits;
use crate::model::keys_sorted;
use crate::model::lemma_dict_put_append;
use crate::model::wf;
use crate::model::BVal;
use crate::model::ErrModel;
use crate::spec_dec::lemma_scan_exact;
use crate::spec_dec::lemma_sp_element_ok;
use crate::spec_dec::sp_dict_items;
use crate::spec_dec::sp_element;
use crate::spec_dec::sp_int;
use crate::spec_dec::sp_list_items;
use crate::spec_dec::sp_string;

verus! {

/// Bytes of a window of `s` equal the window's own bytes, index by index.
proof fn lemma_window_index(s: Seq<u8>, i: int, w: Seq<u8>)
    requires
        0 <= i,
        i + w.len() <= s.len(),
        s.subrange(i, i + w.len()) == w,
    ensures
        forall|k: int| 0 <= k < w.len() ==> s[i + k] == w[k],
{
    assert forall|k: int| 0 <= k < w.len() implies s[i + k] == w[k] by {
        assert(w[k] == s.subrange(i, i + w.len())[k]);
    }
}

/// The first byte of an encoding names its shape and is never a terminator
/// or separator.
proof fn lemma_enc_first(v: BVal)
    ensures
        enc(v).len() >= 1,
        match v {
            BVal::Bytes(_) => 48 <= enc(v)[0] <= 57,
            BVal::Int(_) => enc(v)[0] == 105,
            BVal::List(_) => enc(v)[0] == 108,
            BVal::Dict(_) => enc(v)[0] == 100,
        },
{
    match v {
        BVal::Bytes(b) => {
            lemma_dec_digits(b.len());
            assert(enc(v)[0] == dec_digits(b.len())[0]);
        },
        BVal::Int(_) => {},
        BVal::List(_) => {},
        BVal::Dict(_) => {},
    }
}

/// A byte-string encoding standing at `i` parses back to exactly its
/// payload, the cursor stopping right after it.
proof fn lemma_string_rt(s: Seq<u8>, i: int, b: Seq<u8>)
    requires
        b.len() <= usize::MAX,
        0 <= i,
        i + enc_bytes(b).len() <= s.len(),
        s.subrange(i, i + enc_bytes(b).len()) == enc_bytes(b),
    ensures
        sp_string(s, i) == Ok::<(Seq<u8>, int), (ErrModel, int)>((b, i + enc_bytes(b).len())),
{
    let w = enc_bytes(b);
    let dd = dec_digits(b.len());
    lemma_dec_digits(b.len());
    lemma_window_index(s, i, w);
    let dl = dd.len() as int;
    let l = w.len() as int;
    assert(l == dl + 1 + b.len());
    assert forall|t: int| 0 <= t < dl implies s[i + t] == dd[t] by {
        assert(w[t] == dd[t]);
    }
    assert(s[i + dl] == 58) by {
        assert(w[dl] == 58);
    }
    assert(s[i] == dd[0]);
    assert forall|k: int| i <= k < i + dl implies s[k] != 58 by {
        assert(s[i + (k - i)] == dd[k - i]);
    }
    lemma_scan_exact(s, i, i + dl, 58);
    let tok = s.subrange(i, i + dl);
    assert(tok =~= dd);
    assert(digits_val(tok) == b.len());
    assert forall|t: int| 0 <= t < b.len() implies s[i + dl + 1 + t] == b[t] by {
        assert(w[dl + 1 + t] == b[t]);
    }
    assert(s.subrange(i + dl + 1, i + l) =~= b);
}

/// An integer encoding standing at `i` parses back to exactly its value.
proof fn lemma_int_rt(s: Seq<u8>, i: int, n: int)
    requires
        i64::MIN <= n <= i64::MAX,
        0 <= i,
        i + enc(BVal::Int(n)).len() <= s.len(),
        s.subrange(i, i + enc(BVal::Int(n)).len()) == enc(BVal::Int(n)),
    ensures
        sp_int(s, i) == Ok::<(BVal, int), (ErrModel, int)>((BVal::Int(n), i + enc(BVal::Int(n)).len())),
{
    let w = enc(BVal::Int(n));
    let neg = n < 0;
    let a: nat = if neg {
        (-n) as nat
    } else {
        n as nat
    };
    let dd = dec_digits(a);
    lemma_dec_digits(a);
    lemma_window_index(s, i, w);
    let dl = dd.len() as int;
    let off: int = if neg {
        2
    } else {
        1
    };
    let l = w.len() as int;
    assert(l == off + dl + 1);
    assert(s[i] == 105) by {
        assert(w[0] == 105);
    }
    if neg {
        assert(s[i + 1] == 45) by {
            assert(w[1] == int_digits(n)[0]);
        }
    } else {
        assert(s[i + 1] == dd[0]) by {
            assert(w[1] == int_digits(n)[0]);
        }
    }
    let d0 = i + off;
    assert forall|t: int| 0 <= t < dl implies s[d0 + t] == dd[t] by {
        assert(w[off + t] == int_digits(n)[off - 1 + t]);
        assert(int_digits(n)[off - 1 + t] == dd[t]);
    }
    assert(s[d0 + dl] == 101) by {
        assert(w[l - 1] == 101);
    }
    assert forall|k: int| d0 <= k < d0 + dl implies s[k] != 101 by {
        assert(s[d0 + (k - d0)] == dd[k - d0]);
    }
    lemma_scan_exact(s, d0, d0 + dl, 101);
    let tok = s.subrange(d0, d0 + dl);
    assert(tok =~= dd);
    assert(digits_val(tok) == a);
    if neg {
        assert(a >= 1);
    }
    assert(sp_int(s, i) == Ok::<(BVal, int), (ErrModel, int)>((BVal::Int(n), i + l)));
}

/// An element encoding standing anywhere in a larger input parses back to
/// exactly the encoded value, the cursor stopping right after it.
proof fn lemma_elem_rt(s: Seq<u8>, i: int, v: BVal)
    requires
        wf(v),
        0 <= i,
        i + enc(v).len() <= s.len(),
        s.subrange(i, i + enc(v).len()) == enc(v),
    ensures
        sp_element(s, i) == Ok::<(BVal, int), (ErrModel, int)>((v, i + enc(v).len())),
    decreases v, 0int, 0int,
{
    let w = enc(v);
    let l = w.len() as int;
    lemma_enc_first(v);
    lemma_window_index(s, i, w);
    assert(s[i] == w[0]);
    match v {
        BVal::Bytes(b) => {
            lemma_string_rt(s, i, b);
        },
        BVal::Int(n) => {
            lemma_int_rt(s, i, n);
        },
        BVal::List(items) => {
            let body = enc_items(items, 0);
            assert forall|t: int| 0 <= t < body.len() + 1 implies s[i + 1 + t] == (body + seq![
                101u8,
            ])[t] by {
                assert(w[1 + t] == (body + seq![101u8])[t]);
            }
            assert(s.subrange(i + 1, i + l) =~= body + seq![101u8]);
            lemma_list_rt(s, i + 1, items, 0, Seq::empty());
            assert(Seq::empty() + items.subrange(0, items.len() as int) =~= items);
        },
        BVal::Dict(es) => {
            let body = enc_entries(es, 0);
            assert forall|t: int| 0 <= t < body.len() + 1 implies s[i + 1 + t] == (body + seq![
                101u8,
            ])[t] by {
                assert(w[1 + t] == (body + seq![101u8])[t]);
            }
            assert(s.subrange(i + 1, i + l) =~= body + seq![101u8]);
            assert(es.subrange(0, 0) =~= Seq::<(Seq<u8>, BVal)>::empty());
            lemma_dict_rt(s, i + 1, es, 0, Seq::empty());
        },
    }
}

/// The tail of a list encoding, from element `idx` to the closing `e`,
/// drives the item loop to completion, appending the remaining elements.
proof fn lemma_list_rt(s: Seq<u8>, p: int, items: Seq<BVal>, idx: int, acc: Seq<BVal>)
    requires
        forall|m: int| 0 <= m < items.len() ==> wf(#[trigger] items[m]),
        0 <= idx <= items.len(),
        0 <= p,
        p + enc_items(items, idx).len() + 1 <= s.len(),
        s.subrange(p, p + enc_items(items, idx).len() + 1) == enc_items(items, idx) + seq![101u8],
    ensures
        sp_list_items(s, p, acc) == Ok::<(BVal, int), (ErrModel, int)>(
            (
                BVal::List(acc + items.subrange(idx, items.len() as int)),
                p + enc_items(items, idx).len() + 1,
            ),
        ),
    decreases items, 1int, items.len() - idx,
{
    let body = enc_items(items, idx);
    lemma_window_index(s, p, body + seq![101u8]);
    if idx == items.len() {
        assert(s[p] == 101) by {
            assert(s[p + 0] == (body + seq![101u8])[0]);
        }
        assert(acc + items.subrange(idx, items.len() as int) =~= acc);
    } else {
        let head = enc(items[idx]);
        let rest = enc_items(items, idx + 1);
        assert(body == head + rest);
        lemma_enc_first(items[idx]);
        assert(s[p] == head[0]) by {
            assert((body + seq![101u8])[0] == head[0]);
        }
        assert(s[p] != 101);
        assert forall|t: int| 0 <= t < head.len() implies s[p + t] == head[t] by {
            assert((body + seq![101u8])[t] == head[t]);
        }
        assert(s.subrange(p, p + head.len()) =~= head);
        lemma_elem_rt(s, p, items[idx]);
        let p1 = p + head.len();
        assert forall|t: int| 0 <= t < rest.len() + 1 implies s[p1 + t] == (rest + seq![
            101u8,
        ])[t] by {
            assert((body + seq![101u8])[head.len() + t] == (rest + seq![101u8])[t]);
        }
        assert(s.subrange(p1, p1 + rest.len() + 1) =~= rest + seq![101u8]);
        lemma_list_rt(s, p1, items, idx + 1, acc.push(items[idx]));
        assert(acc.push(items[idx]) + items.subrange(idx + 1, items.len() as int) =~= acc
            + items.subrange(idx, items.len() as int));
    }
}

/// The tail of a dictionary encoding, from entry `idx` to the closing `e`,
/// drives the pair loop to completion: since the stored keys ascend, each
/// insertion appends, and the accumulated entries come out exactly as stored.
proof fn lemma_dict_rt(s: Seq<u8>, p: int, es: Seq<(Seq<u8>, BVal)>, idx: int, acc: Seq<
    (Seq<u8>, BVal),
>)
    requires
        keys_sorted(es),
        forall|m: int|
            0 <= m < es.len() ==> (#[trigger] es[m]).0.len() <= usize::MAX && wf(es[m].1),
        0 <= idx <= es.len(),
        acc == es.subrange(0, idx),
        0 <= p,
        p + enc_entries(es, idx).len() + 1 <= s.len(),
        s.subrange(p, p + enc_entries(es, idx).len() + 1) == enc_entries(es, idx) + seq![101u8],
    ensures
        sp_dict_items(s, p, acc) == Ok::<(BVal, int), (ErrModel, int)>(
            (BVal::Dict(es), p + enc_entries(es, idx).len() + 1),
        ),
    decreases es, 1int, es.len() - idx,
{
    let body = enc_entries(es, idx);
    lemma_window_index(s, p, body + seq![101u8]);
    if idx == es.len() {
        assert(s[p] == 101) by {
            assert(s[p + 0] == (body + seq![101u8])[0]);
        }
        assert(acc =~= es);
    } else {
        let k = es[idx].0;
        let v = es[idx].1;
        let kw = enc_bytes(k);
        let vw = enc(v);
        let rest = enc_entries(es, idx + 1);
        assert(body == kw + vw + rest);
        lemma_dec_digits(k.len());
        assert(s[p] == kw[0]) by {
            assert((body + seq![101u8])[0] == kw[0]);
        }
        assert(48 <= s[p] <= 57) by {
            assert(kw[0] == dec_digits(k.len())[0]);
        }
        assert(s[p] != 101);
        assert forall|t: int| 0 <= t < kw.len() implies s[p + t] == kw[t] by {
            assert((body + seq![101u8])[t] == kw[t]);
        }
        assert(s.subrange(p, p + kw.len()) =~= kw);
        lemma_string_rt(s, p, k);
        let p1 = p + kw.len();
        assert forall|t: int| 0 <= t < vw.len() implies s[p1 + t] == vw[t] by {
            assert((body + seq![101u8])[kw.len() + t] == vw[t]);
        }
        assert(s.subrange(p1, p1 + vw.len()) =~= vw);
        lemma_elem_rt(s, p1, v);
        let p2 = p1 + vw.len();
        assert forall|t: int| 0 <= t < rest.len() + 1 implies s[p2 + t] == (rest + seq![
            101u8,
        ])[t] by {
            assert((body + seq![101u8])[kw.len() + vw.len() + t] == (rest + seq![101u8])[t]);
        }
        assert(s.subrange(p2, p2 + rest.len() + 1) =~= rest + seq![101u8]);
        assert forall|m: int| 0 <= m < acc.len() implies lex_lt_of_entry(acc, m, k) by {
            assert(acc[m] == es[m]);
        }
        lemma_dict_put_append(acc, k, v);
        assert(acc.push((k, v)) =~= es.subrange(0, idx + 1));
        lemma_dict_rt(s, p2, es, idx + 1, acc.push((k, v)));
    }
}

/// Helper naming the ordering obligation on one accumulated entry.
spec fn lex_lt_of_entry(acc: Seq<(Seq<u8>, BVal)>, m: int, k: Seq<u8>) -> bool {
    crate::model::lex_lt(acc[m].0, k)
}

/// Law: decoding inverts encoding. For every well-formed value — every value
/// decode itself produces, and every value built with ascending dictionaries
/// and 64-bit integers — parsing the serialized bytes succeeds, consumes all
/// of them, and returns exactly the original value.
pub proof fn lemma_round_trip(v: BVal)
    requires
        wf(v),
    ensures
        sp_element(enc(v), 0) == Ok::<(BVal, int), (ErrModel, int)>((v, enc(v).len() as int)),
{
    let s = enc(v);
    assert(s.subrange(0, s.len() as int) =~= s);
    lemma_elem_rt(s, 0, v);
}

/// Law: the canonical form is unique — two well-formed values with the same
/// encoding are the same value, which is what sorted dictionary emission is
/// for.
pub proof fn lemma_enc_injective(v1: BVal, v2: BVal)
    requires
        wf(v1),
        wf(v2),
        enc(v1) == enc(v2),
    ensures
        v1 == v2,
{
    lemma_round_trip(v1);
    lemma_round_trip(v2);
}

/// Law: every decoded value is well formed — in particular, every decoded
/// dictionary holds strictly ascending keys, whatever order (and whatever
/// repetition) the input presented, so re-encoding is canonical.
pub proof fn lemma_decoded_canonical(s: Seq<u8>)
    ensures
        match sp_element(s, 0) {
            Ok((m, j)) => wf(m),
            Err(_) => true,
        },
{
    lemma_sp_element_ok(s, 0);
}

} // verus!

