//! Decoding of bencoded values into a JSON-like value.
//!
//! The decoder reads one value from the front of its input and hands back the
//! bytes that follow it. Integers come back as their digit text, byte strings
//! as the text whose characters have the codes of the bytes, lists as arrays
//! and dictionaries as objects whose keys must decode to text.
use vstd::prelude::*;
use vstd::utf8::{decode_utf8, valid_utf8};
use vstd::string::{StrSliceExecFns, StringExecFns};
use crate::text::{push_char, utf8_str};

pub mod bencoding;

verus! {

/// A decoded value: the shape of JSON that the decoder produces.
pub enum DecodedValue {
    String(String),
    Array(Vec<DecodedValue>),
    Object(Vec<(String, DecodedValue)>),
}

/// The mathematical model of a decoded value. A dictionary is the list of
/// its entries in increasing key order, each key once.
pub enum ValueModel {
    Text(Seq<char>),
    List(Seq<ValueModel>),
    Dict(Seq<(Seq<char>, ValueModel)>),
}

impl DecodedValue {
    pub open spec fn model(self) -> ValueModel
        decreases self,
    {
        match self {
            DecodedValue::String(s) => ValueModel::Text(s@),
            DecodedValue::Array(items) => ValueModel::List(models_of(items@)),
            DecodedValue::Object(entries) => ValueModel::Dict(entry_models(entries@)),
        }
    }
}

/// The models of a sequence of decoded values.
pub open spec fn models_of(items: Seq<DecodedValue>) -> Seq<ValueModel>
    decreases items,
{
    if items.len() == 0 {
        Seq::empty()
    } else {
        models_of(items.drop_last()).push(items.last().model())
    }
}

/// The models of a sequence of dictionary entries.
pub open spec fn entry_models(entries: Seq<(String, DecodedValue)>) -> Seq<(Seq<char>, ValueModel)>
    decreases entries,
{
    if entries.len() == 0 {
        Seq::empty()
    } else {
        entry_models(entries.drop_last()).push(
            (entries.last().0@, entries.last().1.model()),
        )
    }
}

pub open spec fn is_digit(b: u8) -> bool {
    48 <= b <= 57
}

/// The index of the first occurrence of `b` in `s`.
pub open spec fn find_byte(s: Seq<u8>, b: u8) -> Option<int>
    decreases s.len(),
{
    if s.len() == 0 {
        None
    } else if s[0] == b {
        Some(0)
    } else {
        match find_byte(s.drop_first(), b) {
            Some(i) => Some(i + 1),
            None => None,
        }
    }
}

/// The value of a sequence of decimal digits.
pub open spec fn digits_value(d: Seq<u8>) -> nat
    decreases d.len(),
{
    if d.len() == 0 {
        0
    } else {
        digits_value(d.drop_last()) * 10 + (d.last() - 48) as nat
    }
}

/// A string length: one or more decimal digits whose value fits a `usize`.
/// (The field always starts with a digit, so a sign never occurs.)
pub open spec fn parse_length(d: Seq<u8>) -> Option<usize> {
    if d.len() > 0 && (forall|i: int| 0 <= i < d.len() ==> is_digit(#[trigger] d[i]))
        && digits_value(d) <= usize::MAX {
        Some(digits_value(d) as usize)
    } else {
        None
    }
}

/// Each byte taken as the character with the same code.
pub open spec fn latin1(bytes: Seq<u8>) -> Seq<char> {
    Seq::new(bytes.len(), |i: int| bytes[i] as char)
}

/// The position of the first entry with key `k`.
pub open spec fn key_position(d: Seq<(Seq<char>, ValueModel)>, k: Seq<char>) -> Option<int>
    decreases d.len(),
{
    if d.len() == 0 {
        None
    } else if d[0].0 == k {
        Some(0)
    } else {
        match key_position(d.drop_first(), k) {
            Some(i) => Some(i + 1),
            None => None,
        }
    }
}

/// The order of keys: lexicographic by character code, which is the order
/// of `String`'s `Ord` (UTF-8 byte order follows code point order).
pub open spec fn key_less(a: Seq<char>, b: Seq<char>) -> bool
    decreases a.len(),
{
    if a.len() == 0 {
        b.len() > 0
    } else if b.len() == 0 {
        false
    } else if a[0] != b[0] {
        (a[0] as int) < (b[0] as int)
    } else {
        key_less(a.drop_first(), b.drop_first())
    }
}

/// The number of leading entries whose keys come before `k`: where a new
/// key goes.
pub open spec fn insert_position(d: Seq<(Seq<char>, ValueModel)>, k: Seq<char>) -> int
    decreases d.len(),
{
    if d.len() == 0 {
        0
    } else if key_less(d[0].0, k) {
        1 + insert_position(d.drop_first(), k)
    } else {
        0
    }
}

/// Inserting into a dictionary kept in key order: an existing key gets the
/// new value in place, a new key goes before the first key after it.
pub open spec fn dict_insert(
    d: Seq<(Seq<char>, ValueModel)>,
    k: Seq<char>,
    v: ValueModel,
) -> Seq<(Seq<char>, ValueModel)> {
    match key_position(d, k) {
        Some(i) => d.update(i, (k, v)),
        None => d.insert(insert_position(d, k), (k, v)),
    }
}

/// Decoding one value from the front of `s`: `None` where the decoder gives
/// no value (the input is malformed), else the value and the bytes after it.
pub open spec fn spec_decode(s: Seq<u8>) -> Option<(ValueModel, Seq<u8>)>
    decreases s.len(), 0int,
{
    if s.len() == 0 {
        None
    } else if s[0] == 0x69u8 {
        // integer: the text up to the first `e`
        let body = s.drop_first();
        match find_byte(body, 0x65u8) {
            None => None,
            Some(p) => if valid_utf8(body.take(p)) {
                Some((ValueModel::Text(decode_utf8(body.take(p))), body.skip(p + 1)))
            } else {
                None
            },
        }
    } else if s[0] == 0x64u8 {
        match spec_decode_entries(s.drop_first(), Seq::empty()) {
            Some((entries, rest)) => Some((ValueModel::Dict(entries), rest)),
            None => None,
        }
    } else if s[0] == 0x6cu8 {
        match spec_decode_items(s.drop_first(), Seq::empty()) {
            Some((items, rest)) => Some((ValueModel::List(items), rest)),
            None => None,
        }
    } else if is_digit(s[0]) {
        // byte string: the length runs up to the first `:` (or, with none,
        // up to the last byte), and the byte after it separates the data
        let colon = match find_byte(s, 0x3au8) {
            Some(c) => c,
            None => s.len() - 1,
        };
        match parse_length(s.take(colon)) {
            None => None,
            Some(n) => if n < s.len() - colon {
                Some((ValueModel::Text(latin1(s.subrange(colon + 1, colon + 1 + n))), s.skip(colon + 1 + n)))
            } else {
                None
            },
        }
    } else {
        None
    }
}

/// The items of a list after its opening byte, appended to `acc`.
pub open spec fn spec_decode_items(s: Seq<u8>, acc: Seq<ValueModel>) -> Option<(Seq<ValueModel>, Seq<u8>)>
    decreases s.len(), 1int,
{
    if s.len() == 0 {
        None
    } else if s[0] == 0x65u8 {
        Some((acc, s.drop_first()))
    } else {
        match spec_decode(s) {
            None => None,
            Some((v, rest)) => if rest.len() < s.len() {
                spec_decode_items(rest, acc.push(v))
            } else {
                None
            },
        }
    }
}

/// The entries of a dictionary after its opening byte, inserted into `acc`.
pub open spec fn spec_decode_entries(
    s: Seq<u8>,
    acc: Seq<(Seq<char>, ValueModel)>,
) -> Option<(Seq<(Seq<char>, ValueModel)>, Seq<u8>)>
    decreases s.len(), 1int,
{
    if s.len() == 0 {
        None
    } else if s[0] == 0x65u8 {
        Some((acc, s.drop_first()))
    } else {
        match spec_decode(s) {
            Some((ValueModel::Text(k), r1)) => if r1.len() < s.len() {
                match spec_decode(r1) {
                    Some((v, r2)) => if r2.len() < r1.len() {
                        spec_decode_entries(r2, dict_insert(acc, k, v))
                    } else {
                        None
                    },
                    None => None,
                }
            } else {
                None
            },
            _ => None,
        }
    }
}


proof fn lemma_find_byte(s: Seq<u8>, b: u8)
    ensures
        find_byte(s, b) matches Some(i) ==> 0 <= i < s.len() && s[i] == b && forall|j: int|
            0 <= j < i ==> s[j] != b,
        find_byte(s, b) is None ==> forall|j: int| 0 <= j < s.len() ==> s[j] != b,
    decreases s.len(),
{
    if s.len() > 0 {
        lemma_find_byte(s.drop_first(), b);
        assert forall|j: int| 1 <= j < s.len() implies s[j] == s.drop_first()[j - 1] by {}
    }
}

proof fn lemma_key_position(d: Seq<(Seq<char>, ValueModel)>, k: Seq<char>)
    ensures
        key_position(d, k) matches Some(i) ==> 0 <= i < d.len() && d[i].0 == k && forall|j: int|
            0 <= j < i ==> d[j].0 != k,
        key_position(d, k) is None ==> forall|j: int| 0 <= j < d.len() ==> d[j].0 != k,
    decreases d.len(),
{
    if d.len() > 0 {
        lemma_key_position(d.drop_first(), k);
        assert forall|j: int| 1 <= j < d.len() implies d[j] == d.drop_first()[j - 1] by {}
    }
}

proof fn lemma_digits_prefix(d: Seq<u8>, k: int)
    requires
        0 <= k <= d.len(),
    ensures
        digits_value(d) >= digits_value(d.take(k)),
    decreases d.len(),
{
    if k == d.len() {
        assert(d.take(k) =~= d);
    } else {
        lemma_digits_prefix(d.drop_last(), k);
        assert(d.drop_last().take(k) =~= d.take(k));
    }
}

proof fn lemma_models_of(items: Seq<DecodedValue>)
    ensures
        models_of(items).len() == items.len(),
        forall|i: int| 0 <= i < items.len() ==> #[trigger] models_of(items)[i] == items[i].model(),
    decreases items.len(),
{
    if items.len() > 0 {
        lemma_models_of(items.drop_last());
    }
}

proof fn lemma_entry_models(entries: Seq<(String, DecodedValue)>)
    ensures
        entry_models(entries).len() == entries.len(),
        forall|i: int|
            0 <= i < entries.len() ==> #[trigger] entry_models(entries)[i] == (
                entries[i].0@,
                entries[i].1.model(),
            ),
    decreases entries.len(),
{
    if entries.len() > 0 {
        lemma_entry_models(entries.drop_last());
    }
}

/// The remainder handed back by the decoder is a proper suffix of its input.
pub proof fn lemma_decode_suffix(s: Seq<u8>)
    ensures
        spec_decode(s) matches Some((v, r)) ==> r.len() < s.len() && r == s.skip(
            s.len() - r.len(),
        ),
    decreases s.len(), 0int,
{
    if s.len() > 0 {
        if s[0] == 0x69u8 {
            let body = s.drop_first();
            lemma_find_byte(body, 0x65u8);
            if let Some(p) = find_byte(body, 0x65u8) {
                assert(body.skip(p + 1) =~= s.skip(p + 2));
            }
        } else if s[0] == 0x64u8 {
            lemma_entries_suffix(s.drop_first(), Seq::empty());
            if let Some((e, r)) = spec_decode_entries(s.drop_first(), Seq::empty()) {
                assert(r =~= s.skip(s.len() - r.len()));
            }
        } else if s[0] == 0x6cu8 {
            lemma_items_suffix(s.drop_first(), Seq::empty());
            if let Some((e, r)) = spec_decode_items(s.drop_first(), Seq::empty()) {
                assert(r =~= s.skip(s.len() - r.len()));
            }
        } else if is_digit(s[0]) {
            lemma_find_byte(s, 0x3au8);
        }
    }
}

/// The remainder after a list's items is a proper suffix of the input.
pub proof fn lemma_items_suffix(s: Seq<u8>, acc: Seq<ValueModel>)
    ensures
        spec_decode_items(s, acc) matches Some((v, r)) ==> r.len() < s.len() && r == s.skip(
            s.len() - r.len(),
        ),
    decreases s.len(), 1int,
{
    if s.len() > 0 && s[0] != 0x65u8 {
        lemma_decode_suffix(s);
        if let Some((v, rest)) = spec_decode(s) {
            if rest.len() < s.len() {
                lemma_items_suffix(rest, acc.push(v));
                if let Some((w, r)) = spec_decode_items(rest, acc.push(v)) {
                    assert(r =~= s.skip(s.len() - r.len()));
                }
            }
        }
    }
}

/// The remainder after a dictionary's entries is a proper suffix of the input.
pub proof fn lemma_entries_suffix(s: Seq<u8>, acc: Seq<(Seq<char>, ValueModel)>)
    ensures
        spec_decode_entries(s, acc) matches Some((v, r)) ==> r.len() < s.len() && r == s.skip(
            s.len() - r.len(),
        ),
    decreases s.len(), 1int,
{
    if s.len() > 0 && s[0] != 0x65u8 {
        lemma_decode_suffix(s);
        if let Some((ValueModel::Text(k), r1)) = spec_decode(s) {
            if r1.len() < s.len() {
                lemma_decode_suffix(r1);
                if let Some((v, r2)) = spec_decode(r1) {
                    if r2.len() < r1.len() {
                        lemma_entries_suffix(r2, dict_insert(acc, k, v));
                        if let Some((w, r)) = spec_decode_entries(r2, dict_insert(acc, k, v)) {
                            assert(r =~= s.skip(s.len() - r.len()));
                        }
                    }
                }
            }
        }
    }
}


/// The keys come in strictly increasing order (so each key once).
pub open spec fn keys_sorted(d: Seq<(Seq<char>, ValueModel)>) -> bool {
    forall|i: int, j: int| 0 <= i < j < d.len() ==> key_less(#[trigger] d[i].0, #[trigger] d[j].0)
}

proof fn lemma_key_less_irreflexive(a: Seq<char>)
    ensures
        !key_less(a, a),
    decreases a.len(),
{
    if a.len() > 0 {
        lemma_key_less_irreflexive(a.drop_first());
    }
}

proof fn lemma_key_less_transitive(a: Seq<char>, b: Seq<char>, c: Seq<char>)
    requires
        key_less(a, b),
        key_less(b, c),
    ensures
        key_less(a, c),
    decreases a.len(),
{
    if a.len() > 0 && b.len() > 0 && c.len() > 0 && a[0] == b[0] && b[0] == c[0] {
        lemma_key_less_transitive(a.drop_first(), b.drop_first(), c.drop_first());
    }
}

proof fn lemma_key_less_total(a: Seq<char>, b: Seq<char>)
    requires
        a != b,
    ensures
        key_less(a, b) || key_less(b, a),
    decreases a.len(),
{
    if a.len() > 0 && b.len() > 0 && a[0] == b[0] {
        if a.drop_first() == b.drop_first() {
            assert(a =~= seq![a[0]] + a.drop_first());
            assert(b =~= seq![b[0]] + b.drop_first());
        }
        lemma_key_less_total(a.drop_first(), b.drop_first());
    } else if a.len() > 0 && b.len() > 0 {
        assert((a[0] as int) != (b[0] as int));
    } else if a.len() == 0 && b.len() == 0 {
        assert(a =~= b);
    }
}

/// Inserting into a dictionary keeps its keys in increasing order.
pub proof fn lemma_dict_insert_keeps_order(d: Seq<(Seq<char>, ValueModel)>, k: Seq<char>, v: ValueModel)
    requires
        keys_sorted(d),
    ensures
        keys_sorted(dict_insert(d, k, v)),
{
    lemma_key_position(d, k);
    lemma_insert_position(d, k);
    match key_position(d, k) {
        Some(i) => {
            let e = d.update(i, (k, v));
            assert forall|a: int, b: int| 0 <= a < b < e.len() implies key_less(
                #[trigger] e[a].0,
                #[trigger] e[b].0,
            ) by {
                assert(e[a].0 == d[a].0);
                assert(e[b].0 == d[b].0);
            }
        },
        None => {
            let p = insert_position(d, k);
            let e = d.insert(p, (k, v));
            if p < d.len() {
                lemma_key_less_total(d[p].0, k);
            }
            assert forall|a: int, b: int| 0 <= a < b < e.len() implies key_less(
                #[trigger] e[a].0,
                #[trigger] e[b].0,
            ) by {
                if b < p {
                    assert(e[a] == d[a] && e[b] == d[b]);
                } else if b == p {
                    assert(e[a] == d[a]);
                } else if a == p {
                    assert(e[b] == d[b - 1]);
                    if b - 1 > p {
                        lemma_key_less_transitive(k, d[p].0, d[b - 1].0);
                    }
                } else if a < p {
                    assert(e[a] == d[a] && e[b] == d[b - 1]);
                } else {
                    assert(e[a] == d[a - 1] && e[b] == d[b - 1]);
                }
            }
        },
    }
}

proof fn lemma_entries_sorted(s: Seq<u8>, acc: Seq<(Seq<char>, ValueModel)>)
    requires
        keys_sorted(acc),
    ensures
        spec_decode_entries(s, acc) matches Some((d, r)) ==> keys_sorted(d),
    decreases s.len(),
{
    if s.len() > 0 && s[0] != 0x65u8 {
        if let Some((ValueModel::Text(k), r1)) = spec_decode(s) {
            if r1.len() < s.len() {
                if let Some((v, r2)) = spec_decode(r1) {
                    if r2.len() < r1.len() {
                        lemma_dict_insert_keeps_order(acc, k, v);
                        lemma_entries_sorted(r2, dict_insert(acc, k, v));
                    }
                }
            }
        }
    }
}

/// A decoded dictionary has each key once, in increasing order, as a JSON
/// object's map keeps them.
pub proof fn lemma_decoded_dict_sorted(s: Seq<u8>)
    ensures
        spec_decode(s) matches Some((ValueModel::Dict(d), r)) ==> keys_sorted(d),
{
    if s.len() > 0 && s[0] == 0x64u8 {
        lemma_entries_sorted(s.drop_first(), Seq::empty());
    }
}

/// The first index at or after `start` that holds `b`.
fn find_byte_from(input: &[u8], start: usize, b: u8) -> (res: Option<usize>)
    requires
        start <= input@.len(),
    ensures
        match find_byte(input@.skip(start as int), b) {
            Some(i) => res == Some((start + i) as usize),
            None => res is None,
        },
{
    let ghost s = input@.skip(start as int);
    proof {
        lemma_find_byte(s, b);
    }
    let mut j = start;
    while j < input.len()
        invariant
            start <= j <= input@.len(),
            s == input@.skip(start as int),
            forall|k: int| start <= k < j ==> input@[k] != b,
        decreases input@.len() - j,
    {
        if input[j] == b {
            proof {
                lemma_find_byte(s, b);
                assert(s[j - start] == b);
                assert forall|k: int| 0 <= k < j - start implies s[k] != b by {
                    assert(s[k] == input@[start + k]);
                }
                if let Some(i) = find_byte(s, b) {
                    assert(i == j - start);
                }
            }
            return Some(j);
        }
        j = j + 1;
    }
    proof {
        if let Some(i) = find_byte(s, b) {
            assert(s[i] == input@[start + i]);
        }
    }
    None
}

/// Parses the length field `input[start..end]`.
fn parse_length_at(input: &[u8], start: usize, end: usize) -> (res: Option<usize>)
    requires
        start <= end <= input@.len(),
    ensures
        res == parse_length(input@.subrange(start as int, end as int)),
{
    let ghost d = input@.subrange(start as int, end as int);
    if start == end {
        return None;
    }
    let mut value: usize = 0;
    let mut k = start;
    while k < end
        invariant
            start <= k <= end <= input@.len(),
            d == input@.subrange(start as int, end as int),
            d.len() > 0,
            forall|i: int| 0 <= i < k - start ==> is_digit(#[trigger] d[i]),
            value == digits_value(d.take(k - start)),
        decreases end - k,
    {
        let c = input[k];
        if c < 48 || c > 57 {
            proof {
                assert(!is_digit(d[k - start]));
            }
            return None;
        }
        let digit = (c - 48) as usize;
        proof {
            assert(d.take(k - start + 1).drop_last() =~= d.take(k - start));
            assert(d.take(k - start + 1).last() == c);
        }
        if value > (usize::MAX - digit) / 10 {
            proof {
                lemma_digits_prefix(d, k - start + 1);
            }
            return None;
        }
        value = value * 10 + digit;
        k = k + 1;
    }
    proof {
        assert(d.take(d.len() as int) =~= d);
    }
    Some(value)
}

proof fn lemma_insert_position(d: Seq<(Seq<char>, ValueModel)>, k: Seq<char>)
    ensures
        0 <= insert_position(d, k) <= d.len(),
        forall|j: int| 0 <= j < insert_position(d, k) ==> key_less(#[trigger] d[j].0, k),
        insert_position(d, k) < d.len() ==> !key_less(d[insert_position(d, k)].0, k),
    decreases d.len(),
{
    if d.len() > 0 {
        lemma_insert_position(d.drop_first(), k);
        assert forall|j: int| 1 <= j < d.len() implies d[j] == d.drop_first()[j - 1] by {}
    }
}

/// Whether `a` comes before `b` in key order.
fn text_less(a: &String, b: &String) -> (r: bool)
    ensures
        r == key_less(a@, b@),
{
    let la = a.as_str().unicode_len();
    let lb = b.as_str().unicode_len();
    let mut i: usize = 0;
    assert(a@.skip(0) =~= a@);
    assert(b@.skip(0) =~= b@);
    while i < la && i < lb
        invariant
            la == a@.len(),
            lb == b@.len(),
            i <= la,
            i <= lb,
            key_less(a@, b@) == key_less(a@.skip(i as int), b@.skip(i as int)),
        decreases la - i,
    {
        let ca = a.as_str().get_char(i);
        let cb = b.as_str().get_char(i);
        proof {
            assert(a@.skip(i as int)[0] == ca);
            assert(b@.skip(i as int)[0] == cb);
            assert(a@.skip(i as int).drop_first() =~= a@.skip(i as int + 1));
            assert(b@.skip(i as int).drop_first() =~= b@.skip(i as int + 1));
        }
        if ca != cb {
            return ca < cb;
        }
        i = i + 1;
    }
    proof {
        assert(a@.skip(i as int).len() == la - i);
        assert(b@.skip(i as int).len() == lb - i);
    }
    la < lb
}

/// Inserts an entry the way a JSON object does: an existing key is given
/// the new value in place, a new key goes into its place in key order.
fn insert_entry(entries: &mut Vec<(String, DecodedValue)>, key: String, value: DecodedValue)
    ensures
        entry_models(final(entries)@) == dict_insert(entry_models(old(entries)@), key@, value.model()),
{
    let ghost d = entry_models(entries@);
    proof {
        lemma_entry_models(entries@);
        lemma_key_position(d, key@);
        lemma_insert_position(d, key@);
    }
    let mut j: usize = 0;
    while j < entries.len()
        invariant
            j <= entries@.len(),
            entries@ == old(entries)@,
            d == entry_models(entries@),
            d.len() == entries@.len(),
            forall|i: int| 0 <= i < entries@.len() ==> #[trigger] d[i] == (entries@[i].0@, entries@[i].1.model()),
            forall|i: int| 0 <= i < j ==> d[i].0 != key@,
        decreases entries@.len() - j,
    {
        if entries[j].0 == key {
            proof {
                lemma_key_position(d, key@);
                assert(d[j as int].0 == key@);
                if let Some(i) = key_position(d, key@) {
                    assert(i == j);
                }
            }
            let ghost key_view = key@;
            let ghost value_model = value.model();
            entries.set(j, (key, value));
            proof {
                lemma_entry_models(entries@);
                assert(entry_models(entries@) =~= d.update(j as int, (key_view, value_model)));
            }
            return;
        }
        j = j + 1;
    }
    proof {
        if let Some(i) = key_position(d, key@) {
            assert(d[i].0 == key@);
        }
    }
    let mut p: usize = 0;
    while p < entries.len() && text_less(&entries[p].0, &key)
        invariant
            p <= entries@.len(),
            entries@ == old(entries)@,
            d == entry_models(entries@),
            d.len() == entries@.len(),
            forall|i: int| 0 <= i < entries@.len() ==> #[trigger] d[i] == (entries@[i].0@, entries@[i].1.model()),
            forall|i: int| 0 <= i < p ==> key_less(#[trigger] d[i].0, key@),
            p <= insert_position(d, key@),
        decreases entries@.len() - p,
    {
        proof {
            lemma_insert_position(d, key@);
            if p == insert_position(d, key@) {
                assert(key_less(d[p as int].0, key@));
            }
        }
        p = p + 1;
    }
    proof {
        lemma_insert_position(d, key@);
        if p < insert_position(d, key@) {
            assert(key_less(d[p as int].0, key@));
        }
    }
    let ghost key_view = key@;
    let ghost value_model = value.model();
    entries.insert(p, (key, value));
    proof {
        lemma_entry_models(entries@);
        assert(entry_models(entries@) =~= d.insert(p as int, (key_view, value_model)));
    }
}

/// Decodes the value that starts at `input[pos]`, giving the value and the
/// index just after it.
fn decode_at(input: &[u8], pos: usize) -> (res: Option<(DecodedValue, usize)>)
    requires
        pos <= input@.len(),
    ensures
        match spec_decode(input@.skip(pos as int)) {
            None => res is None,
            Some((v, r)) => match res {
                Some((d, end)) => d.model() == v && pos < end <= input@.len() && r == input@.skip(
                    end as int,
                ),
                None => false,
            },
        },
    decreases input@.len() - pos,
{
    let ghost s = input@.skip(pos as int);
    if pos == input.len() {
        return None;
    }
    let c = input[pos];
    assert(s[0] == c);
    if c == 0x69u8 {
        let ghost body = s.drop_first();
        assert(body =~= input@.skip(pos + 1));
        proof {
            lemma_find_byte(body, 0x65u8);
        }
        match find_byte_from(input, pos + 1, 0x65u8) {
            None => None,
            Some(e) => {
                let ghost p = e - (pos + 1);
                assert(body.take(p) =~= input@.subrange(pos + 1, e as int));
                assert(body.skip(p + 1) =~= input@.skip(e + 1));
                match utf8_str(vstd::slice::slice_subrange(input, pos + 1, e)) {
                    None => None,
                    Some(text) => Some((DecodedValue::String(String::from_str(text)), e + 1)),
                }
            },
        }
    } else if c == 0x6cu8 {
        let mut items: Vec<DecodedValue> = Vec::new();
        let mut cur = pos + 1;
        assert(s.drop_first() =~= input@.skip(cur as int));
        assert(models_of(items@) =~= Seq::<ValueModel>::empty());
        loop
            invariant
                pos < cur <= input@.len(),
                s == input@.skip(pos as int),
                s[0] == 0x6cu8,
                spec_decode(s) == match spec_decode_items(input@.skip(cur as int), models_of(items@)) {
                    Some((v, rest)) => Some((ValueModel::List(v), rest)),
                    None => None,
                },
            decreases input@.len() - cur,
        {
            let ghost t = input@.skip(cur as int);
            if cur == input.len() {
                return None;
            }
            assert(t[0] == input@[cur as int]);
            if input[cur] == 0x65u8 {
                assert(t.drop_first() =~= input@.skip(cur + 1));
                return Some((DecodedValue::Array(items), cur + 1));
            }
            match decode_at(input, cur) {
                None => {
                    return None;
                },
                Some((v, next)) => {
                    let ghost old_items = items@;
                    items.push(v);
                    proof {
                        assert(items@.drop_last() =~= old_items);
                        assert(models_of(items@) == models_of(old_items).push(v.model()));
                    }
                    cur = next;
                },
            }
        }
    } else if c == 0x64u8 {
        let mut entries: Vec<(String, DecodedValue)> = Vec::new();
        let mut cur = pos + 1;
        assert(s.drop_first() =~= input@.skip(cur as int));
        assert(entry_models(entries@) =~= Seq::<(Seq<char>, ValueModel)>::empty());
        loop
            invariant
                pos < cur <= input@.len(),
                s == input@.skip(pos as int),
                s[0] == 0x64u8,
                spec_decode(s) == match spec_decode_entries(input@.skip(cur as int), entry_models(entries@)) {
                    Some((v, rest)) => Some((ValueModel::Dict(v), rest)),
                    None => None,
                },
            decreases input@.len() - cur,
        {
            let ghost t = input@.skip(cur as int);
            if cur == input.len() {
                return None;
            }
            assert(t[0] == input@[cur as int]);
            if input[cur] == 0x65u8 {
                assert(t.drop_first() =~= input@.skip(cur + 1));
                return Some((DecodedValue::Object(entries), cur + 1));
            }
            match decode_at(input, cur) {
                None => {
                    return None;
                },
                Some((key, c1)) => {
                    match key {
                        DecodedValue::String(k) => {
                            match decode_at(input, c1) {
                                None => {
                                    return None;
                                },
                                Some((v, c2)) => {
                                    insert_entry(&mut entries, k, v);
                                    cur = c2;
                                },
                            }
                        },
                        _ => {
                            return None;
                        },
                    }
                },
            }
        }
    } else if 48 <= c && c <= 57 {
        let colon = match find_byte_from(input, pos, 0x3au8) {
            Some(i) => i,
            None => input.len() - 1,
        };
        proof {
            lemma_find_byte(s, 0x3au8);
        }
        assert(s.take(colon - pos) =~= input@.subrange(pos as int, colon as int));
        match parse_length_at(input, pos, colon) {
            None => None,
            Some(n) => {
                if n < input.len() - colon {
                    let mut text = String::new();
                    let start = colon + 1;
                    let end = colon + 1 + n;
                    let mut k = start;
                    while k < end
                        invariant
                            start <= k <= end <= input@.len(),
                            text@ == latin1(input@.subrange(start as int, k as int)),
                        decreases end - k,
                    {
                        push_char(&mut text, input[k] as char);
                        k = k + 1;
                        assert(text@ =~= latin1(input@.subrange(start as int, k as int)));
                    }
                    assert(s.subrange(colon - pos + 1, colon - pos + 1 + n) =~= input@.subrange(start as int, end as int));
                    assert(s.skip(colon - pos + 1 + n) =~= input@.skip(end as int));
                    Some((DecodedValue::String(text), end))
                } else {
                    None
                }
            },
        }
    } else {
        None
    }
}

/// Decodes the bencoded value at the front of `encoded_value` and returns it
/// with the bytes that follow it.
pub fn decode_bencoded_value(encoded_value: Vec<u8>) -> (res: (DecodedValue, Vec<u8>))
    requires
        spec_decode(encoded_value@) is Some,
    ensures
        res.0.model() == spec_decode(encoded_value@).unwrap().0,
        res.1@ == spec_decode(encoded_value@).unwrap().1,
{
    assert(encoded_value@.skip(0) =~= encoded_value@);
    let input = encoded_value.as_slice();
    match decode_at(input, 0) {
        Some((value, end)) => {
            let rest = vstd::slice::slice_to_vec(vstd::slice::slice_subrange(input, end, input.len()));
            assert(rest@ =~= input@.skip(end as int));
            (value, rest)
        },
        None => {
            proof {
                assert(false);
            }
            (DecodedValue::String(String::new()), Vec::new())
        },
    }
}

/// Decodes the bencoded value at the front of `input`, or gives `None` where
/// `decode_bencoded_value` has no value to give.
pub fn try_decode_bencoded_value(input: &[u8]) -> (res: Option<(DecodedValue, Vec<u8>)>)
    ensures
        match spec_decode(input@) {
            None => res is None,
            Some((v, r)) => res matches Some((d, rest)) && d.model() == v && rest@ == r,
        },
{
    assert(input@.skip(0) =~= input@);
    match decode_at(input, 0) {
        Some((value, end)) => {
            let rest = vstd::slice::slice_to_vec(vstd::slice::slice_subrange(input, end, input.len()));
            assert(rest@ =~= input@.skip(end as int));
            Some((value, rest))
        },
        None => None,
    }
}

} // verus!
