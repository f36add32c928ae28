//! Decimal numerals: the digit strings used by length prefixes, integer
//! payloads, and error positions.

use vstd::prelude::*;

verus! {

/// The decimal digit bytes of `n`, most significant first, no leading zeros.
pub open spec fn dec_digits(n: nat) -> Seq<u8>
    decreases n,
{
    if n < 10 {
        seq![(n + 48) as u8]
    } else {
        dec_digits(n / 10).push((n % 10 + 48) as u8)
    }
}

/// The same digits as text, for error messages.
pub open spec fn dec_chars(n: nat) -> Seq<char> {
    dec_digits(n).map_values(|b: u8| b as char)
}

/// Every byte is an ASCII decimal digit.
pub open spec fn all_digits(t: Seq<u8>) -> bool {
    forall|k: int| 0 <= k < t.len() ==> 48 <= #[trigger] t[k] <= 57
}

/// The number a digit string denotes, read most significant first.
pub open spec fn digits_val(t: Seq<u8>) -> int
    decreases t.len(),
{
    if t.len() == 0 {
        0
    } else {
        digits_val(t.subrange(0, t.len() - 1)) * 10 + (t[t.len() - 1] - 48)
    }
}

/// The digit string of `n` denotes `n`, consists of digits only, and never
/// starts with `0` unless it is exactly `"0"`.
pub proof fn lemma_dec_digits(n: nat)
    ensures
        dec_digits(n).len() >= 1,
        all_digits(dec_digits(n)),
        digits_val(dec_digits(n)) == n,
        n >= 10 ==> dec_digits(n)[0] != 48,
        n >= 1 ==> dec_digits(n)[0] != 48,
        n < 10 ==> dec_digits(n).len() == 1,
    decreases n,
{
    if n < 10 {
        let t = dec_digits(n);
        assert(t.subrange(0, t.len() - 1) =~= Seq::<u8>::empty());
        assert(digits_val(t) == digits_val(t.subrange(0, t.len() - 1)) * 10 + (t[t.len() - 1]
            - 48));
    } else {
        lemma_dec_digits(n / 10);
        let p = dec_digits(n / 10);
        let t = dec_digits(n);
        assert(t =~= p.push((n % 10 + 48) as u8));
        assert(t.subrange(0, t.len() - 1) =~= p);
        assert(digits_val(t) == (n / 10) * 10 + n % 10);
        assert((n / 10) * 10 + n % 10 == n) by {
            vstd::arithmetic::div_mod::lemma_fundamental_div_mod(n as int, 10);
        }
        assert(n / 10 >= 1);
    }
}

/// A digit string is worth at least any of its prefixes.
pub proof fn lemma_digits_val_prefix(t: Seq<u8>, m: int)
    requires
        all_digits(t),
        0 <= m <= t.len(),
    ensures
        0 <= digits_val(t.subrange(0, m)) <= digits_val(t),
    decreases t.len() - m,
{
    if m == t.len() {
        assert(t.subrange(0, m) =~= t);
        lemma_digits_val_nonneg(t);
    } else {
        lemma_digits_val_prefix(t, m + 1);
        let a = t.subrange(0, m);
        let b = t.subrange(0, m + 1);
        assert(b.subrange(0, b.len() - 1) =~= a);
        assert(digits_val(b) == digits_val(a) * 10 + (t[m] - 48));
        lemma_digits_val_nonneg(a);
    }
}

pub proof fn lemma_digits_val_nonneg(t: Seq<u8>)
    requires
        all_digits(t),
    ensures
        digits_val(t) >= 0,
    decreases t.len(),
{
    if t.len() > 0 {
        let p = t.subrange(0, t.len() - 1);
        assert(all_digits(p));
        lemma_digits_val_nonneg(p);
    }
}

/// Exec form of `dec_digits`.
pub fn u64_dec_digits(n: u64) -> (r: Vec<u8>)
    ensures
        r@ == dec_digits(n as nat),
    decreases n,
{
    if n < 10 {
        let mut v: Vec<u8> = Vec::new();
        v.push((n as u8) + 48);
        proof {
            assert(v@ =~= dec_digits(n as nat));
        }
        v
    } else {
        let mut v = u64_dec_digits(n / 10);
        v.push(((n % 10) as u8) + 48);
        proof {
            assert(v@ =~= dec_digits(n as nat));
        }
        v
    }
}

/// Exec form of `all_digits`.
pub fn is_all_digits(t: &Vec<u8>) -> (r: bool)
    ensures
        r == all_digits(t@),
{
    let mut i: usize = 0;
    while i < t.len()
        invariant
            i <= t@.len(),
            forall|k: int| 0 <= k < i ==> 48 <= #[trigger] t@[k] <= 57,
        decreases t@.len() - i,
    {
        let c = t[i];
        if c < 48 || c > 57 {
            return false;
        }
        i = i + 1;
    }
    true
}

/// Exec form of `digits_val`, detecting values beyond 64 unsigned bits.
pub fn digits_to_u64(t: &Vec<u8>) -> (r: Option<u64>)
    requires
        all_digits(t@),
    ensures
        match r {
            Some(n) => n as int == digits_val(t@),
            None => digits_val(t@) > u64::MAX,
        },
{
    let mut acc: u64 = 0;
    let mut i: usize = 0;
    proof {
        assert(t@.subrange(0, 0) =~= Seq::<u8>::empty());
    }
    while i < t.len()
        invariant
            all_digits(t@),
            i <= t@.len(),
            acc as int == digits_val(t@.subrange(0, i as int)),
        decreases t@.len() - i,
    {
        let d: u8 = t[i] - 48;
        proof {
            let a = t@.subrange(0, i as int);
            let b = t@.subrange(0, i + 1);
            assert(b.subrange(0, b.len() - 1) =~= a);
            assert(digits_val(b) == digits_val(a) * 10 + (t@[i as int] - 48));
        }
        let step = match acc.checked_mul(10) {
            Some(p) => p.checked_add(d as u64),
            None => None,
        };
        match step {
            Some(next) => {
                acc = next;
                i = i + 1;
            },
            None => {
                proof {
                    lemma_digits_val_prefix(t@, i + 1);
                }
                return None;
            },
        }
    }
    proof {
        assert(t@.subrange(0, t@.len() as int) =~= t@);
    }
    Some(acc)
}

} // verus!
