//! Error-message text: building the human-readable messages that decode
//! errors carry, and the byte-level text checks the decoder needs.

use vstd::prelude::*;
use vstd::string::StringExecFns;

use crate::digits::dec_chars;

verus! {

/// A message prefix followed by a decimal position.
pub open spec fn pos_msg(prefix: Seq<char>, n: int) -> Seq<char> {
    prefix + dec_chars(n as nat)
}

/// Message for a byte that differs from the expected one.
pub open spec fn wrong_byte_msg(i: int, exp: u8, found: u8) -> Seq<char> {
    "Unexpected character at index "@ + dec_chars(i as nat) + ". Expected "@ + dec_chars(
        exp as nat,
    ) + " found "@ + dec_chars(found as nat)
}

/// Message for input that ends where a particular byte was expected.
pub open spec fn expect_eof_msg(i: int, exp: u8) -> Seq<char> {
    "Unexpected end of input at index "@ + dec_chars(i as nat) + ". Expected "@ + dec_chars(
        exp as nat,
    )
}

/// Relies on the decimal `Display` of `usize` through `ToString`: the digits
/// of `n`, most significant first, with no sign and no leading zeros.
#[verifier::external_body]
fn usize_to_string(n: usize) -> (r: String)
    ensures
        r@ == dec_chars(n as nat),
{
    n.to_string()
}

/// Relies on `core::str::from_utf8`, which succeeds exactly on valid UTF-8
/// byte sequences; `vstd::utf8::valid_utf8` is the definition of validity.
#[verifier::external_body]
pub(crate) fn utf8_ok(v: &Vec<u8>) -> (r: bool)
    ensures
        r == vstd::utf8::valid_utf8(v@),
{
    core::str::from_utf8(v.as_slice()).is_ok()
}

/// A message prefix followed by the decimal text of a position.
pub(crate) fn msg_at(prefix: &str, n: usize) -> (r: String)
    ensures
        r@ == pos_msg(prefix@, n as int),
{
    let mut s: String = prefix.to_owned();
    let d = usize_to_string(n);
    s.append(d.as_str());
    s
}

/// Exec form of `wrong_byte_msg`.
pub(crate) fn msg_wrong_byte(i: usize, exp: u8, found: u8) -> (r: String)
    ensures
        r@ == wrong_byte_msg(i as int, exp, found),
{
    let mut s: String = "Unexpected character at index ".to_owned();
    let a = usize_to_string(i);
    s.append(a.as_str());
    s.append(". Expected ");
    let b = usize_to_string(exp as usize);
    s.append(b.as_str());
    s.append(" found ");
    let c = usize_to_string(found as usize);
    s.append(c.as_str());
    s
}

/// Exec form of `expect_eof_msg`.
pub(crate) fn msg_expect_eof(i: usize, exp: u8) -> (r: String)
    ensures
        r@ == expect_eof_msg(i as int, exp),
{
    let mut s: String = "Unexpected end of input at index ".to_owned();
    let a = usize_to_string(i);
    s.append(a.as_str());
    s.append(". Expected ");
    let b = usize_to_string(exp as usize);
    s.append(b.as_str());
    s
}

} // verus!
