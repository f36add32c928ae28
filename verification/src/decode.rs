//! The decoder: a cursor-based recursive-descent parser, proved to return
//! exactly what the specification parser in `spec_dec` names, error messages
//! included.

use vstd::prelude::*;
use vstd::slice::slice_subrange;
use vstd::slice::slice_to_vec;

use crate::digits::digits_to_u64;
use crate::digits::is_all_digits;
use crate::model::dict_insert;
use crate::model::dict_put;
use crate::model::lemma_view_list_push;
use crate::model::view_entries;
use crate::model::view_list;
use crate::model::BVal;
use crate::model::Bencode;
use crate::model::BencodeError;
use crate::model::ErrModel;
use crate::spec_dec::lemma_scan_exact;
use crate::spec_dec::lemma_sp_element_ok;
use crate::spec_dec::lemma_sp_len_ok;
use crate::spec_dec::scan;
use crate::spec_dec::sp_dict;
use crate::spec_dec::sp_dict_items;
use crate::spec_dec::sp_element;
use crate::spec_dec::sp_expect;
use crate::spec_dec::sp_int;
use crate::spec_dec::sp_len;
use crate::spec_dec::sp_list;
use crate::spec_dec::sp_list_items;
use crate::spec_dec::sp_string;
use crate::text::msg_at;
use crate::text::msg_expect_eof;
use crate::text::msg_wrong_byte;
use crate::text::utf8_ok;

verus! {

/// A cursor over the input bytes; the position only ever advances. Every
/// parsing method's contract pins the final cursor position on success and
/// on failure alike: the specification parser's errors carry the position at
/// which parsing stopped, and the contracts equate it with the cursor.
pub struct Parser<'a> {
    pub pos: usize,
    pub input: &'a [u8],
}

impl<'a> Parser<'a> {
    /// A parser at the start of the given input.
    pub fn new(bytes: &'a [u8]) -> (p: Parser<'a>)
        ensures
            p.input@ == bytes@,
            p.pos == 0,
    {
        Parser { input: bytes, pos: 0 }
    }

    /// Decodes one element from the current position.
    pub fn decode(&mut self) -> (r: Result<Bencode, BencodeError>)
        requires
            old(self).pos <= old(self).input@.len(),
        ensures
            final(self).input == old(self).input,
            final(self).pos <= final(self).input@.len(),
            match r {
                Ok(v) => sp_element(old(self).input@, old(self).pos as int) == Ok::<
                    (BVal, int),
                    (ErrModel, int),
                >((v@, final(self).pos as int)),
                Err(e) => sp_element(old(self).input@, old(self).pos as int) == Err::<
                    (BVal, int),
                    (ErrModel, int),
                >((e@, final(self).pos as int)),
            },
    {
        self.parse_element()
    }

    /// True when the cursor is at end of input.
    pub fn eof(&self) -> (r: bool)
        ensures
            r == (self.pos >= self.input@.len()),
    {
        self.pos >= self.input.len()
    }

    /// The byte under the cursor, which callers must know exists.
    pub fn next(&self) -> (r: u8)
        requires
            self.pos < self.input@.len(),
        ensures
            r == self.input@[self.pos as int],
    {
        self.input[self.pos]
    }

    /// Consumes and returns the byte under the cursor.
    pub fn consume(&mut self) -> (r: u8)
        requires
            old(self).pos < old(self).input@.len(),
        ensures
            final(self).input == old(self).input,
            final(self).pos == old(self).pos + 1,
            r == old(self).input@[old(self).pos as int],
    {
        let c = self.input[self.pos];
        self.pos = self.pos + 1;
        c
    }

    /// Consumes bytes up to, but not including, the first occurrence of
    /// `stop`, or to the end of input.
    #[verifier::loop_isolation(false)]
    pub fn consume_until(&mut self, stop: u8) -> (r: Vec<u8>)
        requires
            old(self).pos <= old(self).input@.len(),
        ensures
            final(self).input == old(self).input,
            final(self).pos as int == scan(old(self).input@, old(self).pos as int, stop),
            old(self).pos <= final(self).pos <= final(self).input@.len(),
            r@ == old(self).input@.subrange(old(self).pos as int, final(self).pos as int),
    {
        let ghost s = old(self).input@;
        let ghost start = old(self).pos as int;
        let mut res: Vec<u8> = Vec::new();
        proof {
            assert(res@ =~= s.subrange(start, start));
        }
        while self.pos < self.input.len() && self.input[self.pos] != stop
            invariant
                self.input == old(self).input,
                start <= self.pos as int <= s.len(),
                forall|k: int| start <= k < self.pos as int ==> s[k] != stop,
                res@ == s.subrange(start, self.pos as int),
            decreases s.len() - self.pos,
        {
            let c = self.input[self.pos];
            res.push(c);
            self.pos = self.pos + 1;
            proof {
                assert(res@ =~= s.subrange(start, self.pos as int));
            }
        }
        proof {
            lemma_scan_exact(s, start, self.pos as int, stop);
        }
        res
    }

    /// Consumes the expected byte or reports what stood in its place.
    pub fn consume_expected(&mut self, expected: u8) -> (r: Result<u8, BencodeError>)
        requires
            old(self).pos <= old(self).input@.len(),
        ensures
            final(self).input == old(self).input,
            final(self).pos <= final(self).input@.len(),
            match r {
                Ok(c) => sp_expect(old(self).input@, old(self).pos as int, expected) == Ok::<
                    int,
                    (ErrModel, int),
                >(final(self).pos as int) && c == expected && final(self).pos == old(self).pos
                    + 1,
                Err(e) => sp_expect(old(self).input@, old(self).pos as int, expected) == Err::<
                    int,
                    (ErrModel, int),
                >((e@, final(self).pos as int)) && final(self).pos == old(self).pos,
            },
    {
        if self.eof() {
            Err(BencodeError::Unexpected(msg_expect_eof(self.pos, expected)))
        } else if self.next() == expected {
            Ok(self.consume())
        } else {
            Err(BencodeError::Unexpected(msg_wrong_byte(self.pos, expected, self.next())))
        }
    }

    /// Parses a byte-string length: decimal digits, stopping at the `:`
    /// separator, which stays unconsumed. A leading `-` is `NegativeLen`.
    pub fn parse_len(&mut self) -> (r: Result<usize, BencodeError>)
        requires
            old(self).pos <= old(self).input@.len(),
        ensures
            final(self).input == old(self).input,
            final(self).pos <= final(self).input@.len(),
            match r {
                Ok(n) => sp_len(old(self).input@, old(self).pos as int) == Ok::<
                    (int, int),
                    (ErrModel, int),
                >((n as int, final(self).pos as int)),
                Err(e) => sp_len(old(self).input@, old(self).pos as int) == Err::<
                    (int, int),
                    (ErrModel, int),
                >((e@, final(self).pos as int)),
            },
    {
        let ghost s = old(self).input@;
        let ghost i0 = old(self).pos as int;
        if self.pos >= self.input.len() {
            return Err(
                BencodeError::Unexpected(msg_at("Unexpected end of input at index ", self.pos)),
            );
        }
        if self.input[self.pos] == 45 {
            return Err(
                BencodeError::NegativeLen(msg_at("Negative string len at index ", self.pos)),
            );
        }
        let start = self.pos;
        let tok = self.consume_until(58);
        if is_all_digits(&tok) && tok.len() > 0 {
            match digits_to_u64(&tok) {
                Some(m) => {
                    if m <= usize::MAX as u64 {
                        Ok(m as usize)
                    } else {
                        Err(
                            BencodeError::Unexpected(
                                msg_at("Invalid string length at index ", start),
                            ),
                        )
                    }
                },
                None => Err(
                    BencodeError::Unexpected(msg_at("Invalid string length at index ", start)),
                ),
            }
        } else if !utf8_ok(&tok) {
            Err(
                BencodeError::Utf8Error(
                    msg_at("Non UTF8 encoded string length at index ", self.pos),
                ),
            )
        } else {
            Err(BencodeError::Unexpected(msg_at("Invalid string length at index ", start)))
        }
    }

    /// Parses a byte string: its length, the `:` separator, then exactly
    /// that many payload bytes, deep-copied out of the input.
    pub fn parse_string(&mut self) -> (r: Result<Vec<u8>, BencodeError>)
        requires
            old(self).pos <= old(self).input@.len(),
        ensures
            final(self).input == old(self).input,
            final(self).pos <= final(self).input@.len(),
            match r {
                Ok(b) => ({
                    &&& sp_string(old(self).input@, old(self).pos as int) == Ok::<
                        (Seq<u8>, int),
                        (ErrModel, int),
                    >((b@, final(self).pos as int))
                    &&& old(self).pos < final(self).pos
                }),
                Err(e) => sp_string(old(self).input@, old(self).pos as int) == Err::<
                    (Seq<u8>, int),
                    (ErrModel, int),
                >((e@, final(self).pos as int)),
            },
    {
        let ghost s = old(self).input@;
        let ghost i0 = old(self).pos as int;
        let len = match self.parse_len() {
            Ok(n) => n,
            Err(e) => {
                return Err(e);
            },
        };
        proof {
            lemma_sp_len_ok(s, i0);
        }
        match self.consume_expected(58) {
            Ok(_) => {},
            Err(e) => {
                return Err(e);
            },
        }
        if len > self.input.len() - self.pos {
            return Err(
                BencodeError::Unexpected(
                    msg_at("Unexpected end of input at index ", self.input.len()),
                ),
            );
        }
        let sub = slice_subrange(self.input, self.pos, self.pos + len);
        let bytes = slice_to_vec(sub);
        self.pos = self.pos + len;
        Ok(bytes)
    }

    /// Parses an integer: `i`, an optional `-`, digits with no redundant
    /// leading zero and no negative zero, then `e`.
    pub fn parse_int(&mut self) -> (r: Result<Bencode, BencodeError>)
        requires
            old(self).pos <= old(self).input@.len(),
        ensures
            final(self).input == old(self).input,
            final(self).pos <= final(self).input@.len(),
            match r {
                Ok(v) => ({
                    &&& sp_int(old(self).input@, old(self).pos as int) == Ok::<
                        (BVal, int),
                        (ErrModel, int),
                    >((v@, final(self).pos as int))
                    &&& old(self).pos < final(self).pos
                }),
                Err(e) => sp_int(old(self).input@, old(self).pos as int) == Err::<
                    (BVal, int),
                    (ErrModel, int),
                >((e@, final(self).pos as int)),
            },
    {
        let ghost s = old(self).input@;
        let ghost i0 = old(self).pos as int;
        let start = self.pos;
        match self.consume_expected(105) {
            Ok(_) => {},
            Err(e) => {
                return Err(e);
            },
        }
        let mut neg = false;
        if self.pos < self.input.len() && self.input[self.pos] == 45 {
            neg = true;
            self.pos = self.pos + 1;
        }
        let tok = self.consume_until(101);
        if tok.len() > 1 && tok[0] == 48 {
            return Err(
                BencodeError::Unexpected(
                    msg_at("Leading 0 while parsing integer at index ", start),
                ),
            );
        }
        if neg && tok.len() == 1 && tok[0] == 48 {
            return Err(
                BencodeError::Unexpected(
                    msg_at("Negative 0 while parsing integer at index ", start),
                ),
            );
        }
        if is_all_digits(&tok) && tok.len() > 0 {
            match digits_to_u64(&tok) {
                Some(m) => {
                    let in_range = if neg {
                        m <= 9223372036854775808u64
                    } else {
                        m <= i64::MAX as u64
                    };
                    if !in_range {
                        return Err(
                            BencodeError::Unexpected(msg_at("Invalid integer at index ", start)),
                        );
                    }
                    match self.consume_expected(101) {
                        Ok(_) => {},
                        Err(e) => {
                            return Err(e);
                        },
                    }
                    let val: i64 = if neg {
                        if m == 9223372036854775808u64 {
                            i64::MIN
                        } else {
                            -(m as i64)
                        }
                    } else {
                        m as i64
                    };
                    Ok(Bencode::Integer(val))
                },
                None => Err(BencodeError::Unexpected(msg_at("Invalid integer at index ", start))),
            }
        } else if !utf8_ok(&tok) {
            Err(
                BencodeError::Utf8Error(
                    msg_at("Non UTF8 encoded integer value at index ", start),
                ),
            )
        } else {
            Err(BencodeError::Unexpected(msg_at("Invalid integer at index ", start)))
        }
    }

    /// Parses a list: `l`, elements in order until the closing `e`.
    #[verifier::loop_isolation(false)]
    pub fn parse_list(&mut self) -> (r: Result<Bencode, BencodeError>)
        requires
            old(self).pos <= old(self).input@.len(),
        ensures
            final(self).input == old(self).input,
            final(self).pos <= final(self).input@.len(),
            match r {
                Ok(v) => ({
                    &&& sp_list(old(self).input@, old(self).pos as int) == Ok::<
                        (BVal, int),
                        (ErrModel, int),
                    >((v@, final(self).pos as int))
                    &&& old(self).pos < final(self).pos
                }),
                Err(e) => sp_list(old(self).input@, old(self).pos as int) == Err::<
                    (BVal, int),
                    (ErrModel, int),
                >((e@, final(self).pos as int)),
            },
        decreases old(self).input@.len() - old(self).pos, 1int,
    {
        let ghost s = old(self).input@;
        let ghost i0 = old(self).pos as int;
        match self.consume_expected(108) {
            Ok(_) => {},
            Err(e) => {
                return Err(e);
            },
        }
        let ghost p0 = self.pos as int;
        let mut list: Vec<Bencode> = Vec::new();
        proof {
            assert(view_list(list@) =~= Seq::<BVal>::empty());
        }
        while self.pos < self.input.len() && self.input[self.pos] != 101
            invariant
                self.input == old(self).input,
                p0 <= self.pos as int <= s.len(),
                sp_list_items(s, self.pos as int, view_list(list@)) == sp_list_items(
                    s,
                    p0,
                    Seq::<BVal>::empty(),
                ),
            decreases s.len() - self.pos,
        {
            let ghost pre = self.pos as int;
            let ghost acc = view_list(list@);
            match self.parse_element() {
                Ok(v) => {
                    proof {
                        lemma_view_list_push(list@, v);
                        assert(sp_list_items(s, pre, acc) == sp_list_items(
                            s,
                            self.pos as int,
                            acc.push(v@),
                        ));
                    }
                    list.push(v);
                },
                Err(e) => {
                    return Err(e);
                },
            }
        }
        if self.pos >= self.input.len() {
            return Err(
                BencodeError::Unexpected(msg_at("Unexpected end of input at index ", self.pos)),
            );
        }
        match self.consume_expected(101) {
            Ok(_) => {},
            Err(e) => {
                return Err(e);
            },
        }
        Ok(Bencode::List(list))
    }

    /// Parses a dictionary: `d`, key/value pairs until the closing `e`.
    /// Input order and key repetition are accepted; the entries come out
    /// ascending, a later pair replacing an earlier equal key.
    #[verifier::loop_isolation(false)]
    pub fn parse_dict(&mut self) -> (r: Result<Bencode, BencodeError>)
        requires
            old(self).pos <= old(self).input@.len(),
        ensures
            final(self).input == old(self).input,
            final(self).pos <= final(self).input@.len(),
            match r {
                Ok(v) => ({
                    &&& sp_dict(old(self).input@, old(self).pos as int) == Ok::<
                        (BVal, int),
                        (ErrModel, int),
                    >((v@, final(self).pos as int))
                    &&& old(self).pos < final(self).pos
                }),
                Err(e) => sp_dict(old(self).input@, old(self).pos as int) == Err::<
                    (BVal, int),
                    (ErrModel, int),
                >((e@, final(self).pos as int)),
            },
        decreases old(self).input@.len() - old(self).pos, 1int,
    {
        let ghost s = old(self).input@;
        let ghost i0 = old(self).pos as int;
        match self.consume_expected(100) {
            Ok(_) => {},
            Err(e) => {
                return Err(e);
            },
        }
        let ghost p0 = self.pos as int;
        let mut entries: Vec<(Vec<u8>, Bencode)> = Vec::new();
        proof {
            assert(view_entries(entries@) =~= Seq::<(Seq<u8>, BVal)>::empty());
        }
        while self.pos < self.input.len() && self.input[self.pos] != 101
            invariant
                self.input == old(self).input,
                p0 <= self.pos as int <= s.len(),
                sp_dict_items(s, self.pos as int, view_entries(entries@)) == sp_dict_items(
                    s,
                    p0,
                    Seq::<(Seq<u8>, BVal)>::empty(),
                ),
            decreases s.len() - self.pos,
        {
            let ghost pre = self.pos as int;
            let ghost acc = view_entries(entries@);
            let k = match self.parse_string() {
                Ok(k) => k,
                Err(e) => {
                    return Err(e);
                },
            };
            match self.parse_element() {
                Ok(v) => {
                    proof {
                        assert(sp_dict_items(s, pre, acc) == sp_dict_items(
                            s,
                            self.pos as int,
                            dict_put(acc, k@, v@),
                        ));
                    }
                    dict_insert(&mut entries, k, v);
                },
                Err(e) => {
                    return Err(e);
                },
            }
        }
        if self.pos >= self.input.len() {
            return Err(
                BencodeError::Unexpected(msg_at("Unexpected end of input at index ", self.pos)),
            );
        }
        match self.consume_expected(101) {
            Ok(_) => {},
            Err(e) => {
                return Err(e);
            },
        }
        Ok(Bencode::Dict(entries))
    }

    /// Parses one element, dispatched on its first byte: `d` opens a
    /// dictionary, `l` a list, `i` an integer, a digit a byte string.
    pub fn parse_element(&mut self) -> (r: Result<Bencode, BencodeError>)
        requires
            old(self).pos <= old(self).input@.len(),
        ensures
            final(self).input == old(self).input,
            final(self).pos <= final(self).input@.len(),
            match r {
                Ok(v) => ({
                    &&& sp_element(old(self).input@, old(self).pos as int) == Ok::<
                        (BVal, int),
                        (ErrModel, int),
                    >((v@, final(self).pos as int))
                    &&& old(self).pos < final(self).pos
                }),
                Err(e) => sp_element(old(self).input@, old(self).pos as int) == Err::<
                    (BVal, int),
                    (ErrModel, int),
                >((e@, final(self).pos as int)),
            },
        decreases old(self).input@.len() - old(self).pos, 2int,
    {
        if self.eof() {
            return Err(
                BencodeError::Unexpected(msg_at("Unexpected value type at index ", self.pos)),
            );
        }
        let c = self.next();
        if c == 100 {
            self.parse_dict()
        } else if c == 108 {
            self.parse_list()
        } else if c == 105 {
            self.parse_int()
        } else if 48 <= c && c <= 57 {
            match self.parse_string() {
                Ok(b) => Ok(Bencode::Bytes(b)),
                Err(e) => Err(e),
            }
        } else {
            Err(BencodeError::Unexpected(msg_at("Unexpected value type at index ", self.pos)))
        }
    }
}

impl Bencode {
    /// Parses a byte buffer into a value: the result is exactly what the
    /// specification parser names for this input, a well-formed value
    /// (dictionaries ascending, integers in 64 signed bits) on success and
    /// the specified error otherwise. Bytes after the first element are
    /// ignored, as the cursor stops at its end.
    pub fn parse(source: Vec<u8>) -> (r: Result<Bencode, BencodeError>)
        ensures
            match r {
                Ok(v) => ({
                    &&& sp_element(source@, 0) matches Ok((m, j)) && v@ == m
                    &&& crate::model::wf(v@)
                }),
                Err(e) => sp_element(source@, 0) matches Err(ep) && ep.0 == e@,
            },
    {
        proof {
            lemma_sp_element_ok(source@, 0);
        }
        Parser::new(source.as_slice()).decode()
    }
}

} // verus!

