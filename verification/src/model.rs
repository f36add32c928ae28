//! The value model: the four Bencode shapes, their mathematical counterpart,
//! and the error taxonomy shared by the decoder.

use vstd::prelude::*;

verus! {

/// Failure reasons for decoding. Each variant carries a human-readable
/// message naming the byte position at which the fault was detected.
#[derive(Debug, PartialEq, Eq)]
pub enum BencodeError {
    /// A byte-string length field begins with `-`.
    NegativeLen(String),
    /// A byte, or end of input, that does not match the grammar at the
    /// current position.
    Unexpected(String),
    /// A numeric token (length or integer digits) is not valid text.
    Utf8Error(String),
}

/// A decoded Bencode document: raw byte strings, signed 64-bit integers,
/// ordered lists, and dictionaries held as key-ascending entry lists.
#[derive(Debug, PartialEq, Eq)]
pub enum Bencode {
    Bytes(Vec<u8>),
    Integer(i64),
    List(Vec<Bencode>),
    Dict(Vec<(Vec<u8>, Bencode)>),
}

/// The mathematical model of a Bencode value, used by all contracts.
pub enum BVal {
    Bytes(Seq<u8>),
    Int(int),
    List(Seq<BVal>),
    Dict(Seq<(Seq<u8>, BVal)>),
}

/// The mathematical model of a decode error.
pub enum ErrModel {
    NegativeLen(Seq<char>),
    Unexpected(Seq<char>),
    Utf8Error(Seq<char>),
}

impl View for BencodeError {
    type V = ErrModel;

    open spec fn view(&self) -> ErrModel {
        match self {
            BencodeError::NegativeLen(m) => ErrModel::NegativeLen(m@),
            BencodeError::Unexpected(m) => ErrModel::Unexpected(m@),
            BencodeError::Utf8Error(m) => ErrModel::Utf8Error(m@),
        }
    }
}

/// Model of a list of values, element by element.
pub open spec fn view_list(s: Seq<Bencode>) -> Seq<BVal>
    decreases s,
{
    if s.len() == 0 {
        Seq::empty()
    } else {
        view_list(s.subrange(0, s.len() - 1)).push(s[s.len() - 1]@)
    }
}

/// Model of a dictionary's entries, pair by pair.
pub open spec fn view_entries(s: Seq<(Vec<u8>, Bencode)>) -> Seq<(Seq<u8>, BVal)>
    decreases s,
{
    if s.len() == 0 {
        Seq::empty()
    } else {
        view_entries(s.subrange(0, s.len() - 1)).push(
            (s[s.len() - 1].0@, s[s.len() - 1].1@),
        )
    }
}

impl View for Bencode {
    type V = BVal;

    open spec fn view(&self) -> BVal
        decreases self,
    {
        match self {
            Bencode::Bytes(b) => BVal::Bytes(b@),
            Bencode::Integer(n) => BVal::Int(*n as int),
            Bencode::List(items) => BVal::List(view_list(items@)),
            Bencode::Dict(entries) => BVal::Dict(view_entries(entries@)),
        }
    }
}

pub proof fn lemma_view_list(s: Seq<Bencode>)
    ensures
        view_list(s).len() == s.len(),
        forall|i: int| 0 <= i < s.len() ==> view_list(s)[i] == s[i]@,
    decreases s,
{
    if s.len() > 0 {
        let p = s.subrange(0, s.len() - 1);
        lemma_view_list(p);
        assert(view_list(s) == view_list(p).push(s[s.len() - 1]@));
        assert forall|i: int| 0 <= i < s.len() implies view_list(s)[i] == s[i]@ by {
            if i < s.len() - 1 {
                assert(view_list(p)[i] == p[i]@);
                assert(p[i] == s[i]);
            }
        }
    }
}

pub proof fn lemma_view_list_push(s: Seq<Bencode>, x: Bencode)
    ensures
        view_list(s.push(x)) == view_list(s).push(x@),
{
    let t = s.push(x);
    assert(t.subrange(0, t.len() - 1) =~= s);
    assert(t[t.len() - 1] == x);
}

pub proof fn lemma_view_entries(s: Seq<(Vec<u8>, Bencode)>)
    ensures
        view_entries(s).len() == s.len(),
        forall|i: int|
            0 <= i < s.len() ==> view_entries(s)[i] == ((#[trigger] s[i]).0@, s[i].1@),
    decreases s,
{
    if s.len() > 0 {
        let p = s.subrange(0, s.len() - 1);
        lemma_view_entries(p);
        assert(view_entries(s) == view_entries(p).push(
            (s[s.len() - 1].0@, s[s.len() - 1].1@),
        ));
        assert forall|i: int| 0 <= i < s.len() implies view_entries(s)[i] == (
            (#[trigger] s[i]).0@,
            s[i].1@,
        ) by {
            if i < s.len() - 1 {
                assert(view_entries(p)[i] == (p[i].0@, p[i].1@));
                assert(p[i] == s[i]);
            }
        }
    }
}

/// Strict byte-lexicographic order on keys: a proper prefix precedes its
/// extensions, otherwise the first differing byte decides.
pub open spec fn lex_lt(a: Seq<u8>, b: Seq<u8>) -> bool
    decreases a.len(),
{
    if b.len() == 0 {
        false
    } else if a.len() == 0 {
        true
    } else if a[0] < b[0] {
        true
    } else if a[0] > b[0] {
        false
    } else {
        lex_lt(a.subrange(1, a.len() as int), b.subrange(1, b.len() as int))
    }
}

/// Keys of the entry list are strictly ascending (hence unique).
pub open spec fn keys_sorted(es: Seq<(Seq<u8>, BVal)>) -> bool {
    forall|j: int, k: int| 0 <= j < k < es.len() ==> lex_lt(es[j].0, es[k].0)
}

/// A value is well formed when every integer fits in 64 signed bits, every
/// byte string and key is representable in memory, and every dictionary
/// iterates in strictly ascending key order.
pub open spec fn wf(v: BVal) -> bool
    decreases v,
{
    match v {
        BVal::Bytes(b) => b.len() <= usize::MAX,
        BVal::Int(n) => i64::MIN <= n <= i64::MAX,
        BVal::List(items) => forall|k: int| 0 <= k < items.len() ==> wf(#[trigger] items[k]),
        BVal::Dict(es) => {
            &&& forall|k: int|
                0 <= k < es.len() ==> (#[trigger] es[k]).0.len() <= usize::MAX && wf(es[k].1)
            &&& keys_sorted(es)
        },
    }
}

/// Insert a key/value pair into a key-ascending entry list, replacing the
/// pair with an equal key if one is present.
pub open spec fn dict_put(es: Seq<(Seq<u8>, BVal)>, k: Seq<u8>, v: BVal) -> Seq<(Seq<u8>, BVal)>
    decreases es.len(),
{
    if es.len() == 0 {
        seq![(k, v)]
    } else if lex_lt(k, es[0].0) {
        seq![(k, v)] + es
    } else if k == es[0].0 {
        seq![(k, v)] + es.subrange(1, es.len() as int)
    } else {
        seq![es[0]] + dict_put(es.subrange(1, es.len() as int), k, v)
    }
}

/// The value stored under a key, if any.
pub open spec fn dict_get(es: Seq<(Seq<u8>, BVal)>, k: Seq<u8>) -> Option<BVal>
    decreases es.len(),
{
    if es.len() == 0 {
        None
    } else if es[0].0 == k {
        Some(es[0].1)
    } else {
        dict_get(es.subrange(1, es.len() as int), k)
    }
}

pub proof fn lemma_lex_trichotomy(a: Seq<u8>, b: Seq<u8>)
    ensures
        lex_lt(a, b) || lex_lt(b, a) || a == b,
    decreases a.len(),
{
    if a.len() > 0 && b.len() > 0 && a[0] == b[0] {
        lemma_lex_trichotomy(a.subrange(1, a.len() as int), b.subrange(1, b.len() as int));
        if a.subrange(1, a.len() as int) == b.subrange(1, b.len() as int) {
            assert(a =~= seq![a[0]] + a.subrange(1, a.len() as int));
            assert(b =~= seq![b[0]] + b.subrange(1, b.len() as int));
        }
    }
}

pub proof fn lemma_lex_transitive(a: Seq<u8>, b: Seq<u8>, c: Seq<u8>)
    requires
        lex_lt(a, b),
        lex_lt(b, c),
    ensures
        lex_lt(a, c),
    decreases a.len(),
{
    if a.len() > 0 && b.len() > 0 && c.len() > 0 && a[0] == b[0] && b[0] == c[0] {
        lemma_lex_transitive(
            a.subrange(1, a.len() as int),
            b.subrange(1, b.len() as int),
            c.subrange(1, c.len() as int),
        );
    }
}

pub proof fn lemma_lex_asymmetric(a: Seq<u8>, b: Seq<u8>)
    requires
        lex_lt(a, b),
    ensures
        !lex_lt(b, a),
        a != b,
    decreases a.len(),
{
    if a.len() > 0 && b.len() > 0 && a[0] == b[0] {
        lemma_lex_asymmetric(a.subrange(1, a.len() as int), b.subrange(1, b.len() as int));
    }
}

/// Inserting preserves strictly ascending keys, and every entry of the
/// result is either the inserted pair or an entry that was already present.
pub proof fn lemma_dict_put_sorted(es: Seq<(Seq<u8>, BVal)>, k: Seq<u8>, v: BVal)
    requires
        keys_sorted(es),
    ensures
        keys_sorted(dict_put(es, k, v)),
        forall|i: int|
            0 <= i < dict_put(es, k, v).len() ==> #[trigger] dict_put(es, k, v)[i] == (k, v)
                || es.contains(dict_put(es, k, v)[i]),
    decreases es.len(),
{
    let r = dict_put(es, k, v);
    if es.len() == 0 {
    } else if lex_lt(k, es[0].0) {
        assert forall|j: int, l: int| 0 <= j < l < r.len() implies lex_lt(r[j].0, r[l].0) by {
            if j == 0 {
                if l > 1 {
                    lemma_lex_transitive(k, es[0].0, es[l - 1].0);
                }
            }
        }
        assert forall|i: int| 0 <= i < r.len() implies r[i] == (k, v) || es.contains(r[i]) by {
            if i > 0 {
                assert(r[i] == es[i - 1]);
            }
        }
    } else if k == es[0].0 {
        assert forall|j: int, l: int| 0 <= j < l < r.len() implies lex_lt(r[j].0, r[l].0) by {
            if j == 0 {
                assert(r[l] == es[l]);
            }
        }
        assert forall|i: int| 0 <= i < r.len() implies r[i] == (k, v) || es.contains(r[i]) by {
            if i > 0 {
                assert(r[i] == es[i]);
            }
        }
    } else {
        let tail = es.subrange(1, es.len() as int);
        lemma_lex_trichotomy(k, es[0].0);
        lemma_dict_put_sorted(tail, k, v);
        let rt = dict_put(tail, k, v);
        assert forall|i: int| 0 <= i < r.len() implies r[i] == (k, v) || es.contains(r[i]) by {
            if i == 0 {
                assert(es.contains(es[0]));
            } else {
                assert(r[i] == rt[i - 1]);
                if rt[i - 1] != (k, v) {
                    let j = choose|j: int| 0 <= j < tail.len() && tail[j] == rt[i - 1];
                    assert(es[j + 1] == rt[i - 1]);
                }
            }
        }
        assert forall|j: int, l: int| 0 <= j < l < r.len() implies lex_lt(r[j].0, r[l].0) by {
            if j == 0 {
                if rt[l - 1] == (k, v) {
                    assert(lex_lt(es[0].0, k));
                } else {
                    let m = choose|m: int| 0 <= m < tail.len() && tail[m] == rt[l - 1];
                    assert(es[m + 1] == rt[l - 1]);
                }
            } else {
                assert(r[j] == rt[j - 1]);
                assert(r[l] == rt[l - 1]);
            }
        }
    }
}

/// When the new key is above every present key, inserting appends.
pub proof fn lemma_dict_put_append(es: Seq<(Seq<u8>, BVal)>, k: Seq<u8>, v: BVal)
    requires
        forall|i: int| 0 <= i < es.len() ==> lex_lt((#[trigger] es[i]).0, k),
    ensures
        dict_put(es, k, v) == es.push((k, v)),
    decreases es.len(),
{
    if es.len() == 0 {
        assert(dict_put(es, k, v) =~= es.push((k, v)));
    } else {
        lemma_lex_asymmetric(es[0].0, k);
        let tail = es.subrange(1, es.len() as int);
        lemma_dict_put_append(tail, k, v);
        assert(dict_put(es, k, v) =~= es.push((k, v)));
    }
}

/// The inserted pair is found under its key.
pub proof fn lemma_dict_put_get(es: Seq<(Seq<u8>, BVal)>, k: Seq<u8>, v: BVal)
    ensures
        dict_get(dict_put(es, k, v), k) == Some(v),
    decreases es.len(),
{
    let r = dict_put(es, k, v);
    if es.len() == 0 {
    } else if lex_lt(k, es[0].0) || k == es[0].0 {
    } else {
        lemma_dict_put_get(es.subrange(1, es.len() as int), k, v);
        assert(r.subrange(1, r.len() as int) =~= dict_put(es.subrange(1, es.len() as int), k, v));
    }
}

/// Inserting one key leaves every other key's value unchanged.
pub proof fn lemma_dict_put_frame(es: Seq<(Seq<u8>, BVal)>, k: Seq<u8>, v: BVal, k2: Seq<u8>)
    requires
        k2 != k,
    ensures
        dict_get(dict_put(es, k, v), k2) == dict_get(es, k2),
    decreases es.len(),
{
    let r = dict_put(es, k, v);
    if es.len() == 0 {
        assert(r =~= seq![(k, v)]);
        assert(r.subrange(1, r.len() as int) =~= Seq::<(Seq<u8>, BVal)>::empty());
        assert(dict_get(r, k2) == dict_get(r.subrange(1, r.len() as int), k2));
        assert(dict_get(r.subrange(1, r.len() as int), k2) == None::<BVal>);
    } else {
        let tail = es.subrange(1, es.len() as int);
        if lex_lt(k, es[0].0) {
            assert(r.subrange(1, r.len() as int) =~= es);
            assert(dict_get(r, k2) == dict_get(es, k2));
        } else if k == es[0].0 {
            assert(r.subrange(1, r.len() as int) =~= tail);
            assert(dict_get(r, k2) == dict_get(tail, k2));
            assert(dict_get(es, k2) == dict_get(tail, k2));
        } else {
            lemma_dict_put_frame(tail, k, v, k2);
            assert(r.subrange(1, r.len() as int) =~= dict_put(tail, k, v));
            assert(dict_get(es, k2) == if es[0].0 == k2 {
                Some(es[0].1)
            } else {
                dict_get(tail, k2)
            });
        }
    }
}

/// Where the first `idx` keys lie below the new key and the key at `idx`
/// (if any) does not, `dict_put` splices the new pair in at `idx`.
pub proof fn lemma_dict_put_at(es: Seq<(Seq<u8>, BVal)>, k: Seq<u8>, v: BVal, idx: int)
    requires
        0 <= idx <= es.len(),
        forall|m: int| 0 <= m < idx ==> lex_lt((#[trigger] es[m]).0, k),
        idx < es.len() ==> !lex_lt(es[idx].0, k),
    ensures
        idx < es.len() && es[idx].0 == k ==> dict_put(es, k, v) =~= es.subrange(0, idx) + seq![
            (k, v),
        ] + es.subrange(idx + 1, es.len() as int),
        !(idx < es.len() && es[idx].0 == k) ==> dict_put(es, k, v) =~= es.subrange(0, idx)
            + seq![(k, v)] + es.subrange(idx, es.len() as int),
    decreases idx,
{
    if idx == 0 {
        if es.len() == 0 {
        } else if es[0].0 == k {
            if lex_lt(k, es[0].0) {
                lemma_lex_asymmetric(k, es[0].0);
            }
            assert(dict_put(es, k, v) =~= es.subrange(0, 0) + seq![(k, v)] + es.subrange(
                1,
                es.len() as int,
            ));
        } else {
            lemma_lex_trichotomy(k, es[0].0);
            assert(dict_put(es, k, v) =~= es.subrange(0, 0) + seq![(k, v)] + es.subrange(
                0,
                es.len() as int,
            ));
        }
    } else {
        assert(lex_lt(es[0].0, k));
        lemma_lex_asymmetric(es[0].0, k);
        let tail = es.subrange(1, es.len() as int);
        assert forall|m: int| 0 <= m < idx - 1 implies lex_lt((#[trigger] tail[m]).0, k) by {
            assert(tail[m] == es[m + 1]);
        }
        assert(idx - 1 < tail.len() ==> tail[idx - 1] == es[idx]);
        lemma_dict_put_at(tail, k, v, idx - 1);
        assert(dict_put(es, k, v) == seq![es[0]] + dict_put(tail, k, v));
        if idx < es.len() && es[idx].0 == k {
            assert(dict_put(es, k, v) =~= es.subrange(0, idx) + seq![(k, v)] + es.subrange(
                idx + 1,
                es.len() as int,
            ));
        } else {
            assert(dict_put(es, k, v) =~= es.subrange(0, idx) + seq![(k, v)] + es.subrange(
                idx,
                es.len() as int,
            ));
        }
    }
}

/// Inserting under the same key twice keeps only the later value.
pub proof fn lemma_dict_put_twice(
    es: Seq<(Seq<u8>, BVal)>,
    k: Seq<u8>,
    v1: BVal,
    v2: BVal,
)
    ensures
        dict_put(dict_put(es, k, v1), k, v2) == dict_put(es, k, v2),
    decreases es.len(),
{
    let r1 = dict_put(es, k, v1);
    if lex_lt(k, k) {
        lemma_lex_asymmetric(k, k);
    }
    if es.len() == 0 {
        assert(dict_put(r1, k, v2) =~= dict_put(es, k, v2));
    } else if lex_lt(k, es[0].0) || k == es[0].0 {
        assert(r1.subrange(1, r1.len() as int) =~= dict_put(es, k, v2).subrange(
            1,
            dict_put(es, k, v2).len() as int,
        ));
        assert(dict_put(r1, k, v2) =~= dict_put(es, k, v2));
    } else {
        let tail = es.subrange(1, es.len() as int);
        lemma_dict_put_twice(tail, k, v1, v2);
        assert(r1.subrange(1, r1.len() as int) =~= dict_put(tail, k, v1));
        assert(dict_put(r1, k, v2) =~= dict_put(es, k, v2));
    }
}

/// Exec form of `lex_lt`.
pub fn key_lt(a: &Vec<u8>, b: &Vec<u8>) -> (r: bool)
    ensures
        r == lex_lt(a@, b@),
{
    let mut i: usize = 0;
    proof {
        assert(a@.subrange(0, a@.len() as int) =~= a@);
        assert(b@.subrange(0, b@.len() as int) =~= b@);
    }
    while i < a.len() && i < b.len()
        invariant
            i <= a@.len(),
            i <= b@.len(),
            lex_lt(a@, b@) == lex_lt(
                a@.subrange(i as int, a@.len() as int),
                b@.subrange(i as int, b@.len() as int),
            ),
        decreases a@.len() - i,
    {
        let x = a[i];
        let y = b[i];
        proof {
            let sa = a@.subrange(i as int, a@.len() as int);
            let sb = b@.subrange(i as int, b@.len() as int);
            assert(sa[0] == a@[i as int] && sb[0] == b@[i as int]);
            if x == y {
                assert(sa.subrange(1, sa.len() as int) =~= a@.subrange(i + 1, a@.len() as int));
                assert(sb.subrange(1, sb.len() as int) =~= b@.subrange(i + 1, b@.len() as int));
            }
        }
        if x < y {
            return true;
        }
        if x > y {
            return false;
        }
        i = i + 1;
    }
    proof {
        let sa = a@.subrange(i as int, a@.len() as int);
        let sb = b@.subrange(i as int, b@.len() as int);
        assert(sa.len() == 0 || sb.len() == 0);
    }
    a.len() < b.len()
}

/// Exec equality of two keys.
pub fn key_eq(a: &Vec<u8>, b: &Vec<u8>) -> (r: bool)
    ensures
        r == (a@ == b@),
{
    if a.len() != b.len() {
        return false;
    }
    let mut i: usize = 0;
    while i < a.len()
        invariant
            i <= a@.len(),
            a@.len() == b@.len(),
            forall|k: int| 0 <= k < i ==> a@[k] == b@[k],
        decreases a@.len() - i,
    {
        if a[i] != b[i] {
            return false;
        }
        i = i + 1;
    }
    proof {
        assert(a@ =~= b@);
    }
    true
}

/// First position whose key does not lie below the given key.
fn lower_bound(entries: &Vec<(Vec<u8>, Bencode)>, key: &Vec<u8>) -> (idx: usize)
    ensures
        idx <= entries@.len(),
        forall|m: int| 0 <= m < idx ==> lex_lt((#[trigger] entries@[m]).0@, key@),
        idx < entries@.len() ==> !lex_lt(entries@[idx as int].0@, key@),
{
    let mut idx: usize = 0;
    while idx < entries.len()
        invariant
            idx <= entries@.len(),
            forall|m: int| 0 <= m < idx ==> lex_lt((#[trigger] entries@[m]).0@, key@),
        decreases entries@.len() - idx,
    {
        if !key_lt(&entries[idx].0, key) {
            return idx;
        }
        idx = idx + 1;
    }
    idx
}

/// Inserts a key/value pair into a key-ascending entry list, replacing the
/// pair with an equal key if one is present: the sort-on-insert dictionary
/// that keeps `Dict` canonical.
pub fn dict_insert(entries: &mut Vec<(Vec<u8>, Bencode)>, key: Vec<u8>, value: Bencode)
    ensures
        view_entries(final(entries)@) == dict_put(view_entries(old(entries)@), key@, value@),
{
    proof {
        lemma_view_entries(entries@);
    }
    let ghost es0 = view_entries(entries@);
    let ghost old_entries = entries@;
    let idx = lower_bound(entries, &key);
    proof {
        assert forall|m: int| 0 <= m < idx implies lex_lt((#[trigger] es0[m]).0, key@) by {
            assert(es0[m] == (old_entries[m].0@, old_entries[m].1@));
        }
        if (idx as int) < es0.len() {
            assert(es0[idx as int] == (old_entries[idx as int].0@, old_entries[idx as int].1@));
        }
        lemma_dict_put_at(es0, key@, value@, idx as int);
    }
    let replace = idx < entries.len() && key_eq(&entries[idx].0, &key);
    if replace {
        entries.remove(idx);
    }
    entries.insert(idx, (key, value));
    proof {
        lemma_view_entries(entries@);
        let put = dict_put(es0, key@, value@);
        let now = view_entries(entries@);
        assert forall|m: int| 0 <= m < now.len() implies now[m] == put[m] by {
            assert(now[m] == (entries@[m].0@, entries@[m].1@));
            if m < idx {
                assert(entries@[m] == old_entries[m]);
                assert(es0[m] == (old_entries[m].0@, old_entries[m].1@));
            } else if m > idx {
                if replace {
                    assert(entries@[m] == old_entries[m]);
                    assert(es0[m] == (old_entries[m].0@, old_entries[m].1@));
                } else {
                    assert(entries@[m] == old_entries[m - 1]);
                    assert(es0[m - 1] == (old_entries[m - 1].0@, old_entries[m - 1].1@));
                }
            }
        }
        assert(now =~= put);
    }
}

} // verus!
