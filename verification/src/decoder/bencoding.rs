//! Bencoded values and their bytes: what the decoder gives back for the
//! encoding of any value built from byte strings, lists and dictionaries.
use vstd::prelude::*;
use vstd::utf8::{decode_utf8, valid_utf8};
use crate::decoder::{
    dict_insert, digits_value, find_byte, is_digit, latin1, parse_length, spec_decode,
    spec_decode_entries, spec_decode_items, ValueModel,
};

verus! {

/// A value built from integers, byte strings, lists and dictionaries with
/// byte-string keys.
pub enum Bencode {
    Int(int),
    Bytes(Seq<u8>),
    List(Seq<Bencode>),
    Dict(Seq<(Seq<u8>, Bencode)>),
}

/// The decimal digits of `n`, without leading zeros.
pub open spec fn decimal_bytes(n: nat) -> Seq<u8>
    decreases n,
{
    if n < 10 {
        seq![(48 + n) as u8]
    } else {
        decimal_bytes(n / 10).push((48 + n % 10) as u8)
    }
}

/// The decimal text of an integer, with a minus sign before a negative one.
pub open spec fn int_bytes(n: int) -> Seq<u8> {
    if n < 0 {
        seq![0x2du8] + decimal_bytes((-n) as nat)
    } else {
        decimal_bytes(n as nat)
    }
}

/// An integer's encoding: `i`, its decimal text, `e`.
pub open spec fn bencode_int(n: int) -> Seq<u8> {
    seq![0x69u8] + int_bytes(n) + seq![0x65u8]
}

/// A byte string's encoding: its length in decimal, `:`, its bytes.
pub open spec fn bencode_bytes(b: Seq<u8>) -> Seq<u8> {
    decimal_bytes(b.len()) + seq![0x3au8] + b
}

/// The encoding of a value.
pub open spec fn bencode(v: Bencode) -> Seq<u8>
    decreases v,
{
    match v {
        Bencode::Int(n) => bencode_int(n),
        Bencode::Bytes(b) => bencode_bytes(b),
        Bencode::List(items) => seq![0x6cu8] + bencode_items(items) + seq![0x65u8],
        Bencode::Dict(entries) => seq![0x64u8] + bencode_entries(entries) + seq![0x65u8],
    }
}

/// The encodings of list items, one after another.
pub open spec fn bencode_items(items: Seq<Bencode>) -> Seq<u8>
    decreases items,
{
    if items.len() == 0 {
        Seq::empty()
    } else {
        bencode(items[0]) + bencode_items(items.subrange(1, items.len() as int))
    }
}

/// The encodings of dictionary entries, each key before its value.
pub open spec fn bencode_entries(entries: Seq<(Seq<u8>, Bencode)>) -> Seq<u8>
    decreases entries,
{
    if entries.len() == 0 {
        Seq::empty()
    } else {
        bencode_bytes(entries[0].0) + bencode(entries[0].1) + bencode_entries(
            entries.subrange(1, entries.len() as int),
        )
    }
}

/// The JSON-like value a bencoded value stands for: an integer is the text
/// of its decimal digits (with its sign), a byte string is the
/// text whose characters have the codes of its bytes, a list the list of its
/// items' values, a dictionary the object that its entries make when
/// inserted in order (a later key replacing an earlier equal one).
pub open spec fn json_of(v: Bencode) -> ValueModel
    decreases v,
{
    match v {
        Bencode::Int(n) => ValueModel::Text(latin1(int_bytes(n))),
        Bencode::Bytes(b) => ValueModel::Text(latin1(b)),
        Bencode::List(items) => ValueModel::List(json_items(items)),
        Bencode::Dict(entries) => ValueModel::Dict(json_entries(Seq::empty(), entries)),
    }
}

pub open spec fn json_items(items: Seq<Bencode>) -> Seq<ValueModel>
    decreases items,
{
    if items.len() == 0 {
        Seq::empty()
    } else {
        seq![json_of(items[0])] + json_items(items.subrange(1, items.len() as int))
    }
}

pub open spec fn json_entries(
    acc: Seq<(Seq<char>, ValueModel)>,
    entries: Seq<(Seq<u8>, Bencode)>,
) -> Seq<(Seq<char>, ValueModel)>
    decreases entries,
{
    if entries.len() == 0 {
        acc
    } else {
        json_entries(
            dict_insert(acc, latin1(entries[0].0), json_of(entries[0].1)),
            entries.subrange(1, entries.len() as int),
        )
    }
}

proof fn lemma_decimal_bytes(n: nat)
    ensures
        decimal_bytes(n).len() >= 1,
        forall|i: int| 0 <= i < decimal_bytes(n).len() ==> is_digit(#[trigger] decimal_bytes(n)[i]),
        digits_value(decimal_bytes(n)) == n,
        decimal_bytes(n).len() <= n + 1,
    decreases n,
{
    let d = decimal_bytes(n);
    if n >= 10 {
        lemma_decimal_bytes(n / 10);
        assert(d.drop_last() =~= decimal_bytes(n / 10));
        assert(d.last() == (48 + n % 10) as u8);
        assert((d.last() - 48) as nat == n % 10);
        assert(n == (n / 10) * 10 + n % 10);
        assert(digits_value(d) == digits_value(d.drop_last()) * 10 + (d.last() - 48) as nat);
    } else {
        assert(d.drop_last() =~= Seq::<u8>::empty());
        assert(digits_value(d) == digits_value(d.drop_last()) * 10 + (d.last() - 48) as nat);
    }
}

proof fn lemma_find_byte_after(a: Seq<u8>, b: Seq<u8>, x: u8)
    requires
        forall|i: int| 0 <= i < a.len() ==> #[trigger] a[i] != x,
    ensures
        find_byte(a + b, x) == (match find_byte(b, x) {
            Some(i) => Some(i + a.len()),
            None => None::<int>,
        }),
    decreases a.len(),
{
    if a.len() > 0 {
        lemma_find_byte_after(a.drop_first(), b, x);
        assert((a + b).drop_first() =~= a.drop_first() + b);
    } else {
        assert(a + b =~= b);
    }
}

/// A byte string's encoding decodes to its text and leaves what follows.
proof fn lemma_decode_bytes(b: Seq<u8>, tail: Seq<u8>)
    requires
        b.len() <= usize::MAX,
    ensures
        spec_decode(bencode_bytes(b) + tail) == Some((ValueModel::Text(latin1(b)), tail)),
{
    let d = decimal_bytes(b.len());
    lemma_decimal_bytes(b.len());
    let after = seq![0x3au8] + b + tail;
    let s = bencode_bytes(b) + tail;
    assert(s =~= d + after);
    assert forall|i: int| 0 <= i < d.len() implies #[trigger] d[i] != 0x3au8 by {
        assert(is_digit(d[i]));
    }
    lemma_find_byte_after(d, after, 0x3au8);
    assert(find_byte(after, 0x3au8) == Some(0int));
    assert(find_byte(s, 0x3au8) == Some(d.len() as int));
    assert(s[0] == d[0]);
    assert(is_digit(d[0]));
    assert(s.take(d.len() as int) =~= d);
    assert(parse_length(d) == Some(b.len() as usize));
    let colon = d.len() as int;
    assert(s.subrange(colon + 1, colon + 1 + b.len()) =~= b);
    assert(s.skip(colon + 1 + b.len()) =~= tail);
}

proof fn lemma_bencode_head(v: Bencode)
    ensures
        bencode(v).len() >= 1,
        bencode(v)[0] != 0x65u8,
{
    match v {
        Bencode::Int(n) => {
            assert(bencode(v)[0] == 0x69u8);
        },
        Bencode::Bytes(b) => {
            lemma_decimal_bytes(b.len());
            assert(bencode(v)[0] == decimal_bytes(b.len())[0]);
            assert(is_digit(decimal_bytes(b.len())[0]));
        },
        Bencode::List(items) => {
            assert(bencode(v)[0] == 0x6cu8);
        },
        Bencode::Dict(entries) => {
            assert(bencode(v)[0] == 0x64u8);
        },
    }
}

/// Decoding the encoding of any value built from byte strings, lists and
/// dictionaries, followed by any bytes, gives the value's JSON-like value
/// and leaves exactly the bytes that follow. The encoding must fit in
/// memory (its length at most `usize::MAX`), which bounds every length it
/// states.
pub proof fn lemma_decode_bencoded(v: Bencode, tail: Seq<u8>)
    requires
        bencode(v).len() <= usize::MAX,
    ensures
        spec_decode(bencode(v) + tail) == Some((json_of(v), tail)),
    decreases v,
{
    let s = bencode(v) + tail;
    match v {
        Bencode::Int(n) => {
            lemma_decode_integer(n, tail);
        },
        Bencode::Bytes(b) => {
            lemma_decode_bytes(b, tail);
        },
        Bencode::List(items) => {
            assert(s[0] == 0x6cu8);
            assert(s.drop_first() =~= bencode_items(items) + seq![0x65u8] + tail);
            lemma_decode_items(items, Seq::empty(), tail);
            assert(Seq::<ValueModel>::empty() + json_items(items) =~= json_items(items));
        },
        Bencode::Dict(entries) => {
            assert(s[0] == 0x64u8);
            assert(s.drop_first() =~= bencode_entries(entries) + seq![0x65u8] + tail);
            lemma_decode_entries(entries, Seq::empty(), tail);
        },
    }
}

proof fn lemma_decode_items(items: Seq<Bencode>, acc: Seq<ValueModel>, tail: Seq<u8>)
    requires
        bencode_items(items).len() <= usize::MAX,
    ensures
        spec_decode_items(bencode_items(items) + seq![0x65u8] + tail, acc) == Some(
            (acc + json_items(items), tail),
        ),
    decreases items,
{
    let s = bencode_items(items) + seq![0x65u8] + tail;
    if items.len() == 0 {
        assert(s =~= seq![0x65u8] + tail);
        assert(s.drop_first() =~= tail);
        assert(acc + json_items(items) =~= acc);
    } else {
        let rest = items.subrange(1, items.len() as int);
        let r = bencode_items(rest) + seq![0x65u8] + tail;
        assert(s =~= bencode(items[0]) + r);
        lemma_bencode_head(items[0]);
        assert(s[0] == bencode(items[0])[0]);
        lemma_decode_bencoded(items[0], r);
        lemma_decode_items(rest, acc.push(json_of(items[0])), tail);
        assert(acc.push(json_of(items[0])) + json_items(rest) =~= acc + json_items(items));
    }
}

proof fn lemma_decode_entries(
    entries: Seq<(Seq<u8>, Bencode)>,
    acc: Seq<(Seq<char>, ValueModel)>,
    tail: Seq<u8>,
)
    requires
        bencode_entries(entries).len() <= usize::MAX,
    ensures
        spec_decode_entries(bencode_entries(entries) + seq![0x65u8] + tail, acc) == Some(
            (json_entries(acc, entries), tail),
        ),
    decreases entries,
{
    let s = bencode_entries(entries) + seq![0x65u8] + tail;
    if entries.len() == 0 {
        assert(s =~= seq![0x65u8] + tail);
        assert(s.drop_first() =~= tail);
    } else {
        let k = entries[0].0;
        let v = entries[0].1;
        let rest = entries.subrange(1, entries.len() as int);
        let r2 = bencode_entries(rest) + seq![0x65u8] + tail;
        let r1 = bencode(v) + r2;
        assert(s =~= bencode_bytes(k) + r1);
        lemma_decimal_bytes(k.len());
        assert(s[0] == decimal_bytes(k.len())[0]);
        assert(is_digit(s[0]));
        lemma_decode_bytes(k, r1);
        lemma_bencode_head(v);
        lemma_decode_bencoded(v, r2);
        lemma_decode_entries(rest, dict_insert(acc, latin1(k), json_of(v)), tail);
    }
}

/// Bytes below 0x80 are valid UTF-8, and each decodes to the character with
/// its code.
proof fn lemma_ascii_utf8(b: Seq<u8>)
    requires
        forall|i: int| 0 <= i < b.len() ==> #[trigger] b[i] <= 0x7fu8,
    ensures
        valid_utf8(b),
        decode_utf8(b) == latin1(b),
    decreases b.len(),
{
    if b.len() > 0 {
        let c = b[0];
        assert(c & 0x7fu8 == c) by (bit_vector)
            requires
                c <= 0x7fu8,
        ;
        let rest = b.subrange(1, b.len() as int);
        assert(rest =~= b.drop_first());
        lemma_ascii_utf8(rest);
        assert(decode_utf8(b) =~= latin1(b)) by {
            assert(decode_utf8(b) == seq![((c & 0x7fu8) as u32) as char] + decode_utf8(rest));
        }
    } else {
        assert(decode_utf8(b) =~= latin1(b));
    }
}

proof fn lemma_int_bytes(n: int)
    ensures
        int_bytes(n).len() >= 1,
        forall|i: int| 0 <= i < int_bytes(n).len() ==> #[trigger] int_bytes(n)[i] <= 0x7fu8
            && int_bytes(n)[i] != 0x65u8,
{
    if n < 0 {
        lemma_decimal_bytes((-n) as nat);
        let d = decimal_bytes((-n) as nat);
        assert forall|i: int| 0 <= i < int_bytes(n).len() implies #[trigger] int_bytes(n)[i]
            <= 0x7fu8 && int_bytes(n)[i] != 0x65u8 by {
            if i > 0 {
                assert(int_bytes(n)[i] == d[i - 1]);
                assert(is_digit(d[i - 1]));
            }
        }
    } else {
        lemma_decimal_bytes(n as nat);
        assert forall|i: int| 0 <= i < int_bytes(n).len() implies #[trigger] int_bytes(n)[i]
            <= 0x7fu8 && int_bytes(n)[i] != 0x65u8 by {
            assert(is_digit(decimal_bytes(n as nat)[i]));
        }
    }
}

/// Decoding an integer's encoding, followed by any bytes, gives the text of
/// its decimal digits, sign included, and leaves exactly the bytes that
/// follow.
pub proof fn lemma_decode_integer(n: int, tail: Seq<u8>)
    ensures
        spec_decode(bencode_int(n) + tail) == Some((ValueModel::Text(latin1(int_bytes(n))), tail)),
{
    let d = int_bytes(n);
    lemma_int_bytes(n);
    let s = bencode_int(n) + tail;
    let body = s.drop_first();
    let after = seq![0x65u8] + tail;
    assert(s[0] == 0x69u8);
    assert(body =~= d + after);
    lemma_find_byte_after(d, after, 0x65u8);
    assert(find_byte(after, 0x65u8) == Some(0int));
    assert(find_byte(body, 0x65u8) == Some(d.len() as int));
    assert(body.take(d.len() as int) =~= d);
    lemma_ascii_utf8(d);
    assert(body.skip(d.len() as int + 1) =~= tail);
}

} // verus!
