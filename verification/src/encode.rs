//! The encoder: the canonical byte form of a value, as a specification and
//! as executable serialization.

use vstd::prelude::*;

use crate::digits::dec_digits;
use crate::digits::u64_dec_digits;
use crate::model::lemma_view_entries;
use crate::model::lemma_view_list;
use crate::model::view_entries;
use crate::model::view_list;
use crate::model::BVal;
use crate::model::Bencode;

verus! {

/// Encoding of one byte string: decimal length, `:`, the raw bytes.
pub open spec fn enc_bytes(b: Seq<u8>) -> Seq<u8> {
    dec_digits(b.len()) + seq![58u8] + b
}

/// Decimal text of an integer, with `-` for negative values.
pub open spec fn int_digits(n: int) -> Seq<u8> {
    if n < 0 {
        seq![45u8] + dec_digits((-n) as nat)
    } else {
        dec_digits(n as nat)
    }
}

/// Canonical encoding of one value.
pub open spec fn enc(v: BVal) -> Seq<u8>
    decreases v, 0int, 0int,
{
    match v {
        BVal::Bytes(b) => enc_bytes(b),
        BVal::Int(n) => seq![105u8] + int_digits(n) + seq![101u8],
        BVal::List(items) => seq![108u8] + enc_items(items, 0) + seq![101u8],
        BVal::Dict(es) => seq![100u8] + enc_entries(es, 0) + seq![101u8],
    }
}

/// Concatenated encodings of the list elements from `i` on.
pub open spec fn enc_items(items: Seq<BVal>, i: int) -> Seq<u8>
    decreases items, 1int, items.len() - i,
{
    if 0 <= i < items.len() {
        enc(items[i]) + enc_items(items, i + 1)
    } else {
        Seq::empty()
    }
}

/// Concatenated key/value encodings of the dictionary entries from `i` on.
pub open spec fn enc_entries(es: Seq<(Seq<u8>, BVal)>, i: int) -> Seq<u8>
    decreases es, 1int, es.len() - i,
{
    if 0 <= i < es.len() {
        enc_bytes(es[i].0) + enc(es[i].1) + enc_entries(es, i + 1)
    } else {
        Seq::empty()
    }
}

impl Bencode {
    /// Serializes a value to its canonical byte encoding. Total: every value
    /// serializes. A dictionary is emitted in its stored entry order, which
    /// is ascending for every well-formed value — every value `parse`
    /// returns, and every dictionary built with `dict_insert`. A `Dict`
    /// whose entry vector was assembled by hand in some other order
    /// serializes in that order; such a value is not well formed and the
    /// round-trip law, which assumes `wf`, does not speak of it.
    #[verifier::loop_isolation(false)]
    pub fn serialize(&self) -> (r: Vec<u8>)
        ensures
            r@ == enc(self@),
        decreases *self,
    {
        match self {
            Bencode::Integer(num) => {
                let mut out: Vec<u8> = Vec::new();
                out.push(105u8);
                if *num < 0 {
                    out.push(45u8);
                }
                let mag: u64 = if *num == i64::MIN {
                    9223372036854775808u64
                } else if *num < 0 {
                    (-*num) as u64
                } else {
                    *num as u64
                };
                let mut digs = u64_dec_digits(mag);
                out.append(&mut digs);
                out.push(101u8);
                proof {
                    assert(out@ =~= enc(self@));
                }
                out
            },
            Bencode::List(items) => {
                proof {
                    lemma_view_list(items@);
                }
                let ghost vs = view_list(items@);
                let mut out: Vec<u8> = Vec::new();
                out.push(108u8);
                let mut idx: usize = 0;
                proof {
                    assert(out@ + enc_items(vs, 0) =~= seq![108u8] + enc_items(vs, 0));
                }
                while idx < items.len()
                    invariant
                        idx <= items@.len(),
                        out@ + enc_items(vs, idx as int) == seq![108u8] + enc_items(vs, 0),
                    decreases items@.len() - idx,
                {
                    let mut sub = items[idx].serialize();
                    proof {
                        assert((out@ + sub@) + enc_items(vs, idx + 1) =~= out@ + enc_items(
                            vs,
                            idx as int,
                        ));
                    }
                    out.append(&mut sub);
                    idx = idx + 1;
                }
                out.push(101u8);
                proof {
                    assert(out@ =~= enc(self@));
                }
                out
            },
            Bencode::Dict(entries) => {
                proof {
                    lemma_view_entries(entries@);
                }
                let ghost es = view_entries(entries@);
                let mut out: Vec<u8> = Vec::new();
                out.push(100u8);
                let mut idx: usize = 0;
                proof {
                    assert(out@ + enc_entries(es, 0) =~= seq![100u8] + enc_entries(es, 0));
                }
                while idx < entries.len()
                    invariant
                        idx <= entries@.len(),
                        out@ + enc_entries(es, idx as int) == seq![100u8] + enc_entries(es, 0),
                    decreases entries@.len() - idx,
                {
                    let mut kb = Self::serialize_bytes(entries[idx].0.as_slice());
                    let mut vb = entries[idx].1.serialize();
                    proof {
                        assert(((out@ + kb@) + vb@) + enc_entries(es, idx + 1) =~= out@
                            + enc_entries(es, idx as int));
                    }
                    out.append(&mut kb);
                    out.append(&mut vb);
                    idx = idx + 1;
                }
                out.push(101u8);
                proof {
                    assert(out@ =~= enc(self@));
                }
                out
            },
            Bencode::Bytes(bytes) => Self::serialize_bytes(bytes.as_slice()),
        }
    }

    /// Serializes one byte string: decimal length, `:`, the raw bytes.
    pub fn serialize_bytes(bytes: &[u8]) -> (r: Vec<u8>)
        ensures
            r@ == enc_bytes(bytes@),
    {
        let mut out = u64_dec_digits(bytes.len() as u64);
        out.push(58u8);
        let ghost head = dec_digits(bytes@.len()) + seq![58u8];
        proof {
            assert(out@ =~= head + bytes@.subrange(0, 0));
        }
        let mut i: usize = 0;
        while i < bytes.len()
            invariant
                i <= bytes@.len(),
                out@ == head + bytes@.subrange(0, i as int),
            decreases bytes@.len() - i,
        {
            out.push(bytes[i]);
            proof {
                assert(out@ =~= head + bytes@.subrange(0, i + 1));
            }
            i = i + 1;
        }
        proof {
            assert(bytes@.subrange(0, bytes@.len() as int) =~= bytes@);
            assert(out@ =~= enc_bytes(bytes@));
        }
        out
    }
}

} // verus!
