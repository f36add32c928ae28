//! The decoder's specification: a functional recursive-descent parser over
//! the input bytes, which the executable parser is proved to implement
//! exactly, error messages included. Each error carries, beside the failure
//! itself, the cursor position at which parsing stopped, so the contracts
//! pin the final cursor on every path, success or failure.

use vstd::prelude::*;
use vstd::utf8::valid_utf8;

use crate::digits::all_digits;
use crate::digits::digits_val;
use crate::digits::lemma_digits_val_nonneg;
use crate::model::dict_put;
use crate::model::keys_sorted;
use crate::model::lemma_dict_put_sorted;
use crate::model::wf;
use crate::model::BVal;
use crate::model::ErrModel;
use crate::text::expect_eof_msg;
use crate::text::pos_msg;
use crate::text::wrong_byte_msg;

verus! {

/// First position at or after `i` holding `stop`, or the input length.
pub open spec fn scan(s: Seq<u8>, i: int, stop: u8) -> int
    decreases s.len() - i,
{
    if i < 0 || i >= s.len() {
        s.len() as int
    } else if s[i] == stop {
        i
    } else {
        scan(s, i + 1, stop)
    }
}

pub proof fn lemma_scan(s: Seq<u8>, i: int, stop: u8)
    requires
        0 <= i <= s.len(),
    ensures
        i <= scan(s, i, stop) <= s.len(),
        forall|k: int| i <= k < scan(s, i, stop) ==> s[k] != stop,
        scan(s, i, stop) < s.len() ==> s[scan(s, i, stop)] == stop,
    decreases s.len() - i,
{
    if i < s.len() && s[i] != stop {
        lemma_scan(s, i + 1, stop);
    }
}

/// `scan` finds exactly the position known to hold the first `stop`.
pub proof fn lemma_scan_exact(s: Seq<u8>, i: int, j: int, stop: u8)
    requires
        0 <= i <= j <= s.len(),
        forall|k: int| i <= k < j ==> s[k] != stop,
        j < s.len() ==> s[j] == stop,
    ensures
        scan(s, i, stop) == j,
    decreases j - i,
{
    if i < j {
        lemma_scan_exact(s, i + 1, j, stop);
    }
}

/// One byte must match, as `consume_expected` demands.
pub open spec fn sp_expect(s: Seq<u8>, i: int, exp: u8) -> Result<int, (ErrModel, int)> {
    if i >= s.len() {
        Err((ErrModel::Unexpected(expect_eof_msg(i, exp)), i))
    } else if s[i] == exp {
        Ok(i + 1)
    } else {
        Err((ErrModel::Unexpected(wrong_byte_msg(i, exp, s[i])), i))
    }
}

/// A byte-string length token: decimal digits up to the `:` separator.
/// Returns the length and the position of the separator.
pub open spec fn sp_len(s: Seq<u8>, i: int) -> Result<(int, int), (ErrModel, int)> {
    if i >= s.len() {
        Err((ErrModel::Unexpected(pos_msg("Unexpected end of input at index "@, i)), i))
    } else if s[i] == 45 {
        Err((ErrModel::NegativeLen(pos_msg("Negative string len at index "@, i)), i))
    } else {
        let j = scan(s, i, 58);
        let tok = s.subrange(i, j);
        if all_digits(tok) && tok.len() > 0 {
            if digits_val(tok) <= usize::MAX {
                Ok((digits_val(tok), j))
            } else {
                Err((ErrModel::Unexpected(pos_msg("Invalid string length at index "@, i)), j))
            }
        } else if !valid_utf8(tok) {
            Err((ErrModel::Utf8Error(pos_msg("Non UTF8 encoded string length at index "@, j)), j))
        } else {
            Err((ErrModel::Unexpected(pos_msg("Invalid string length at index "@, i)), j))
        }
    }
}

/// A byte string: its length, the `:` separator, then exactly that many
/// payload bytes.
pub open spec fn sp_string(s: Seq<u8>, i: int) -> Result<(Seq<u8>, int), (ErrModel, int)> {
    match sp_len(s, i) {
        Err(e) => Err(e),
        Ok((n, j)) => match sp_expect(s, j, 58) {
            Err(e) => Err(e),
            Ok(j2) => if j2 + n <= s.len() {
                Ok((s.subrange(j2, j2 + n), j2 + n))
            } else {
                Err(
                    (
                        ErrModel::Unexpected(
                            pos_msg("Unexpected end of input at index "@, s.len() as int),
                        ),
                        j2,
                    ),
                )
            },
        },
    }
}

/// An integer: `i`, an optional `-`, digits with no redundant leading zero
/// and no negative zero, then `e`. A value beyond 64 signed bits is a
/// reported failure.
pub open spec fn sp_int(s: Seq<u8>, i: int) -> Result<(BVal, int), (ErrModel, int)> {
    match sp_expect(s, i, 105) {
        Err(e) => Err(e),
        Ok(j0) => {
            let neg = j0 < s.len() && s[j0] == 45;
            let d0 = if neg {
                j0 + 1
            } else {
                j0
            };
            let j = scan(s, d0, 101);
            let tok = s.subrange(d0, j);
            if tok.len() > 1 && tok[0] == 48 {
                Err((ErrModel::Unexpected(pos_msg("Leading 0 while parsing integer at index "@, i)), j))
            } else if neg && tok.len() == 1 && tok[0] == 48 {
                Err(
                    (
                        ErrModel::Unexpected(
                            pos_msg("Negative 0 while parsing integer at index "@, i),
                        ),
                        j,
                    ),
                )
            } else if all_digits(tok) && tok.len() > 0 {
                let m = digits_val(tok);
                if (neg && m <= i64::MAX + 1) || (!neg && m <= i64::MAX) {
                    match sp_expect(s, j, 101) {
                        Err(e) => Err(e),
                        Ok(j2) => Ok(
                            (
                                BVal::Int(
                                    if neg {
                                        -m
                                    } else {
                                        m
                                    },
                                ),
                                j2,
                            ),
                        ),
                    }
                } else {
                    Err((ErrModel::Unexpected(pos_msg("Invalid integer at index "@, i)), j))
                }
            } else if !valid_utf8(tok) {
                Err(
                    (
                        ErrModel::Utf8Error(
                            pos_msg("Non UTF8 encoded integer value at index "@, i),
                        ),
                        j,
                    ),
                )
            } else {
                Err((ErrModel::Unexpected(pos_msg("Invalid integer at index "@, i)), j))
            }
        },
    }
}

/// One element, dispatched on its first byte.
pub open spec fn sp_element(s: Seq<u8>, i: int) -> Result<(BVal, int), (ErrModel, int)>
    decreases s.len() - i, 2int,
{
    if i < 0 || i >= s.len() {
        Err((ErrModel::Unexpected(pos_msg("Unexpected value type at index "@, i)), i))
    } else if s[i] == 100 {
        sp_dict(s, i)
    } else if s[i] == 108 {
        sp_list(s, i)
    } else if s[i] == 105 {
        sp_int(s, i)
    } else if 48 <= s[i] && s[i] <= 57 {
        match sp_string(s, i) {
            Ok((b, j)) => Ok((BVal::Bytes(b), j)),
            Err(e) => Err(e),
        }
    } else {
        Err((ErrModel::Unexpected(pos_msg("Unexpected value type at index "@, i)), i))
    }
}

/// A list: `l`, elements until `e`.
pub open spec fn sp_list(s: Seq<u8>, i: int) -> Result<(BVal, int), (ErrModel, int)>
    decreases s.len() - i, 1int,
{
    match sp_expect(s, i, 108) {
        Err(e) => Err(e),
        Ok(j) => sp_list_items(s, j, Seq::empty()),
    }
}

/// List elements accumulated in order until the closing `e`. Element parses
/// always advance, so the two closing error branches are unreachable; they
/// only make the recursion well founded.
pub open spec fn sp_list_items(s: Seq<u8>, i: int, acc: Seq<BVal>) -> Result<
    (BVal, int),
    (ErrModel, int),
>
    decreases s.len() - i, 3int,
{
    if i < 0 || i >= s.len() {
        Err((ErrModel::Unexpected(pos_msg("Unexpected end of input at index "@, i)), i))
    } else if s[i] == 101 {
        Ok((BVal::List(acc), i + 1))
    } else {
        match sp_element(s, i) {
            Err(e) => Err(e),
            Ok((v, j)) => if i < j <= s.len() {
                sp_list_items(s, j, acc.push(v))
            } else {
                Err((ErrModel::Unexpected(pos_msg("Unexpected end of input at index "@, j)), j))
            },
        }
    }
}

/// A dictionary: `d`, key/value pairs until `e`.
pub open spec fn sp_dict(s: Seq<u8>, i: int) -> Result<(BVal, int), (ErrModel, int)>
    decreases s.len() - i, 1int,
{
    match sp_expect(s, i, 100) {
        Err(e) => Err(e),
        Ok(j) => sp_dict_items(s, j, Seq::empty()),
    }
}

/// Dictionary pairs inserted in arrival order until the closing `e`; a later
/// pair with an equal key replaces the earlier one. Pair parses always
/// advance, so the two closing error branches are unreachable; they only
/// make the recursion well founded.
pub open spec fn sp_dict_items(s: Seq<u8>, i: int, acc: Seq<(Seq<u8>, BVal)>) -> Result<
    (BVal, int),
    (ErrModel, int),
>
    decreases s.len() - i, 3int,
{
    if i < 0 || i >= s.len() {
        Err((ErrModel::Unexpected(pos_msg("Unexpected end of input at index "@, i)), i))
    } else if s[i] == 101 {
        Ok((BVal::Dict(acc), i + 1))
    } else {
        match sp_string(s, i) {
            Err(e) => Err(e),
            Ok((k, j)) => if i < j <= s.len() {
                match sp_element(s, j) {
                    Err(e) => Err(e),
                    Ok((v, j2)) => if j < j2 <= s.len() {
                        sp_dict_items(s, j2, dict_put(acc, k, v))
                    } else {
                        Err(
                            (
                                ErrModel::Unexpected(
                                    pos_msg("Unexpected end of input at index "@, j2),
                                ),
                                j2,
                            ),
                        )
                    },
                }
            } else {
                Err((ErrModel::Unexpected(pos_msg("Unexpected end of input at index "@, j)), j))
            },
        }
    }
}

/// A successful length parse names a representable length and stops at the
/// separator position.
pub proof fn lemma_sp_len_ok(s: Seq<u8>, i: int)
    requires
        0 <= i <= s.len(),
    ensures
        match sp_len(s, i) {
            Ok((n, j)) => i < j <= s.len() && 0 <= n <= usize::MAX,
            Err(_) => true,
        },
{
    if i < s.len() && s[i] != 45 {
        lemma_scan(s, i, 58);
        let j = scan(s, i, 58);
        let tok = s.subrange(i, j);
        if all_digits(tok) && tok.len() > 0 && digits_val(tok) <= usize::MAX {
            lemma_digits_val_nonneg(tok);
        }
    }
}

/// A successful string parse advances and yields a representable payload.
pub proof fn lemma_sp_string_ok(s: Seq<u8>, i: int)
    requires
        0 <= i <= s.len(),
    ensures
        match sp_string(s, i) {
            Ok((b, j)) => i < j <= s.len() && b.len() <= usize::MAX,
            Err(_) => true,
        },
{
    lemma_sp_len_ok(s, i);
}

/// A successful integer parse advances and yields a 64-bit value.
pub proof fn lemma_sp_int_ok(s: Seq<u8>, i: int)
    requires
        0 <= i <= s.len(),
    ensures
        match sp_int(s, i) {
            Ok((v, j)) => i < j <= s.len() && wf(v),
            Err(_) => true,
        },
{
    if i < s.len() && s[i] == 105 {
        let j0 = i + 1;
        let neg = j0 < s.len() && s[j0] == 45;
        let d0 = if neg {
            j0 + 1
        } else {
            j0
        };
        lemma_scan(s, d0, 101);
        let j = scan(s, d0, 101);
        let tok = s.subrange(d0, j);
        if all_digits(tok) && tok.len() > 0 {
            lemma_digits_val_nonneg(tok);
        }
    }
}

/// A successful element parse advances and yields a well-formed value.
pub proof fn lemma_sp_element_ok(s: Seq<u8>, i: int)
    requires
        0 <= i <= s.len(),
    ensures
        match sp_element(s, i) {
            Ok((v, j)) => i < j <= s.len() && wf(v),
            Err(_) => true,
        },
    decreases s.len() - i, 2int,
{
    if 0 <= i < s.len() {
        if s[i] == 100 {
            lemma_sp_dict_ok(s, i);
        } else if s[i] == 108 {
            lemma_sp_list_ok(s, i);
        } else if s[i] == 105 {
            lemma_sp_int_ok(s, i);
        } else if 48 <= s[i] && s[i] <= 57 {
            lemma_sp_string_ok(s, i);
        }
    }
}

pub proof fn lemma_sp_list_ok(s: Seq<u8>, i: int)
    requires
        0 <= i <= s.len(),
    ensures
        match sp_list(s, i) {
            Ok((v, j)) => i < j <= s.len() && wf(v),
            Err(_) => true,
        },
    decreases s.len() - i, 1int,
{
    if i < s.len() && s[i] == 108 {
        lemma_sp_list_items_ok(s, i + 1, Seq::empty());
    }
}

pub proof fn lemma_sp_list_items_ok(s: Seq<u8>, i: int, acc: Seq<BVal>)
    requires
        0 <= i <= s.len(),
        forall|m: int| 0 <= m < acc.len() ==> wf(#[trigger] acc[m]),
    ensures
        match sp_list_items(s, i, acc) {
            Ok((v, j)) => i < j <= s.len() && wf(v),
            Err(_) => true,
        },
    decreases s.len() - i, 3int,
{
    if 0 <= i < s.len() && s[i] != 101 {
        lemma_sp_element_ok(s, i);
        match sp_element(s, i) {
            Ok((v, j)) => {
                assert forall|m: int| 0 <= m < acc.push(v).len() implies wf(
                    #[trigger] acc.push(v)[m],
                ) by {
                    if m < acc.len() {
                        assert(acc.push(v)[m] == acc[m]);
                    }
                }
                lemma_sp_list_items_ok(s, j, acc.push(v));
            },
            Err(_) => {},
        }
    }
}

pub proof fn lemma_sp_dict_ok(s: Seq<u8>, i: int)
    requires
        0 <= i <= s.len(),
    ensures
        match sp_dict(s, i) {
            Ok((v, j)) => i < j <= s.len() && wf(v),
            Err(_) => true,
        },
    decreases s.len() - i, 1int,
{
    if i < s.len() && s[i] == 100 {
        lemma_sp_dict_items_ok(s, i + 1, Seq::empty());
    }
}

pub proof fn lemma_sp_dict_items_ok(s: Seq<u8>, i: int, acc: Seq<(Seq<u8>, BVal)>)
    requires
        0 <= i <= s.len(),
        keys_sorted(acc),
        forall|m: int|
            0 <= m < acc.len() ==> (#[trigger] acc[m]).0.len() <= usize::MAX && wf(acc[m].1),
    ensures
        match sp_dict_items(s, i, acc) {
            Ok((v, j)) => i < j <= s.len() && wf(v),
            Err(_) => true,
        },
    decreases s.len() - i, 3int,
{
    if 0 <= i < s.len() && s[i] != 101 {
        lemma_sp_string_ok(s, i);
        match sp_string(s, i) {
            Ok((k, j)) => {
                lemma_sp_element_ok(s, j);
                match sp_element(s, j) {
                    Ok((v, j2)) => {
                        lemma_dict_put_sorted(acc, k, v);
                        let put = dict_put(acc, k, v);
                        assert forall|m: int| 0 <= m < put.len() implies (
                        #[trigger] put[m]).0.len() <= usize::MAX && wf(put[m].1) by {
                            if put[m] != (k, v) {
                                assert(acc.contains(put[m]));
                                let w = choose|w: int| 0 <= w < acc.len() && acc[w] == put[m];
                                assert(acc[w].0.len() <= usize::MAX && wf(acc[w].1));
                            }
                        }
                        lemma_sp_dict_items_ok(s, j2, put);
                    },
                    Err(_) => {},
                }
            },
            Err(_) => {},
        }
    }
}

} // verus!
