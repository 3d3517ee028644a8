//! What holds of the codec: decoding undoes encoding, dictionaries keep
//! their keys in order whatever the order of insertion, and the encoding of
//! a dictionary holds the encodings of its values.

use crate::codec::model::{
    all_wf, decode_spec, dict_insert, encode_bytes, encode_entries, encode_items, encode_value,
    entry_value_offset, holds, keys_ascending, lookup, parse_bytes, parse_entries, parse_integer,
    parse_items, parse_value, ValueView,
};
use crate::decimal::{
    int_digits, is_digit, lemma_digits_end, lemma_digits_end_bounds, lemma_nat_digits, nat_digits,
};
use crate::order::{
    bytes_lt, lemma_lt_asymmetric, lemma_lt_irreflexive, lemma_lt_total, lemma_lt_transitive,
};
use vstd::prelude::*;

verus! {

/// Every entry of `dict_insert` is the new one or one of the old ones, and
/// the last entry has the new key or the last old key.
proof fn lemma_insert_members(entries: Seq<(Seq<u8>, ValueView)>, key: Seq<u8>, value: ValueView)
    ensures
        dict_insert(entries, key, value).len() >= 1,
        forall|i: int|
            0 <= i < dict_insert(entries, key, value).len() ==> {
                let e = #[trigger] dict_insert(entries, key, value)[i];
                e == (key, value) || exists|j: int| 0 <= j < entries.len() && entries[j] == e
            },
    decreases entries.len(),
{
    let r = dict_insert(entries, key, value);
    if entries.len() == 0 {
    } else if bytes_lt(key, entries.last().0) {
        let rest = entries.drop_last();
        lemma_insert_members(rest, key, value);
        assert forall|i: int| 0 <= i < r.len() implies {
            let e = #[trigger] r[i];
            e == (key, value) || exists|j: int| 0 <= j < entries.len() && entries[j] == e
        } by {
            let e = r[i];
            if i < r.len() - 1 {
                let e2 = dict_insert(rest, key, value)[i];
                assert(e2 == e);
                if e != (key, value) {
                    let j = choose|j: int| 0 <= j < rest.len() && rest[j] == e;
                    assert(entries[j] == e);
                }
            } else {
                assert(entries[entries.len() - 1] == e);
            }
        }
    } else if entries.last().0 == key {
        assert forall|i: int| 0 <= i < r.len() implies {
            let e = #[trigger] r[i];
            e == (key, value) || exists|j: int| 0 <= j < entries.len() && entries[j] == e
        } by {
            if i < r.len() - 1 {
                assert(entries[i] == r[i]);
            }
        }
    } else {
        assert forall|i: int| 0 <= i < r.len() implies {
            let e = #[trigger] r[i];
            e == (key, value) || exists|j: int| 0 <= j < entries.len() && entries[j] == e
        } by {
            if i < r.len() - 1 {
                assert(entries[i] == r[i]);
            }
        }
    }
}

/// Putting a value into a dictionary whose keys ascend leaves them
/// ascending.
pub proof fn lemma_insert_ascending(
    entries: Seq<(Seq<u8>, ValueView)>,
    key: Seq<u8>,
    value: ValueView,
)
    requires
        keys_ascending(entries),
    ensures
        keys_ascending(dict_insert(entries, key, value)),
    decreases entries.len(),
{
    let r = dict_insert(entries, key, value);
    if entries.len() == 0 {
    } else if bytes_lt(key, entries.last().0) {
        let rest = entries.drop_last();
        assert forall|i: int, j: int| 0 <= i < j < rest.len() implies bytes_lt(
            #[trigger] rest[i].0,
            #[trigger] rest[j].0,
        ) by {
            assert(rest[i] == entries[i] && rest[j] == entries[j]);
        }
        lemma_insert_ascending(rest, key, value);
        lemma_insert_members(rest, key, value);
        let inner = dict_insert(rest, key, value);
        assert forall|i: int, j: int| 0 <= i < j < r.len() implies bytes_lt(
            #[trigger] r[i].0,
            #[trigger] r[j].0,
        ) by {
            if j < r.len() - 1 {
                assert(r[i] == inner[i] && r[j] == inner[j]);
            } else {
                let e = inner[i];
                assert(r[i] == e);
                if e != (key, value) {
                    let m = choose|m: int| 0 <= m < rest.len() && rest[m] == e;
                    assert(entries[m] == e);
                    assert(bytes_lt(entries[m].0, entries[entries.len() - 1].0));
                }
            }
        }
    } else if entries.last().0 == key {
        assert forall|i: int, j: int| 0 <= i < j < r.len() implies bytes_lt(
            #[trigger] r[i].0,
            #[trigger] r[j].0,
        ) by {
            assert(r[i] == entries[i]);
            assert(r[j].0 == entries[j].0);
        }
    } else {
        lemma_lt_total(key, entries.last().0);
        assert forall|i: int, j: int| 0 <= i < j < r.len() implies bytes_lt(
            #[trigger] r[i].0,
            #[trigger] r[j].0,
        ) by {
            assert(r[i] == entries[i]);
            if j < r.len() - 1 {
                assert(r[j] == entries[j]);
            } else if i < entries.len() - 1 {
                assert(bytes_lt(entries[i].0, entries[entries.len() - 1].0));
                lemma_lt_transitive(entries[i].0, entries.last().0, key);
            }
        }
    }
}

/// Looking a key up after putting a value under it gives that value, and
/// the other keys are not touched.
pub proof fn lemma_lookup_insert(
    entries: Seq<(Seq<u8>, ValueView)>,
    key: Seq<u8>,
    value: ValueView,
    other: Seq<u8>,
)
    ensures
        lookup(dict_insert(entries, key, value), key) == Some(value),
        other != key ==> lookup(dict_insert(entries, key, value), other) == lookup(
            entries,
            other,
        ),
    decreases entries.len(),
{
    let r = dict_insert(entries, key, value);
    if entries.len() == 0 {
        assert(r.drop_last() =~= entries);
    } else if bytes_lt(key, entries.last().0) {
        lemma_lt_irreflexive(key);
        lemma_lookup_insert(entries.drop_last(), key, value, other);
        assert(r.drop_last() =~= dict_insert(entries.drop_last(), key, value));
    } else if entries.last().0 == key {
        assert(r.drop_last() =~= entries.drop_last());
    } else {
        assert(r.drop_last() =~= entries);
    }
}

/// `lookup` finds a value exactly where some entry has the key, and then
/// one of an entry with that key.
pub proof fn lemma_lookup_entry(entries: Seq<(Seq<u8>, ValueView)>, key: Seq<u8>)
    ensures
        lookup(entries, key) is Some <==> exists|i: int|
            0 <= i < entries.len() && (#[trigger] entries[i]).0 == key,
        lookup(entries, key) is Some ==> exists|i: int|
            0 <= i < entries.len() && #[trigger] entries[i] == (key, lookup(entries, key)->0),
    decreases entries.len(),
{
    if entries.len() > 0 {
        let rest = entries.drop_last();
        lemma_lookup_entry(rest, key);
        if entries.last().0 == key {
            assert(entries[entries.len() - 1] == (key, lookup(entries, key)->0));
        } else {
            if lookup(rest, key) is Some {
                let i = choose|i: int|
                    0 <= i < rest.len() && #[trigger] rest[i] == (key, lookup(rest, key)->0);
                assert(entries[i] == rest[i]);
            }
            if exists|i: int| 0 <= i < entries.len() && (#[trigger] entries[i]).0 == key {
                let i = choose|i: int| 0 <= i < entries.len() && (#[trigger] entries[i]).0 == key;
                assert(rest[i].0 == key);
            }
        }
    }
}

/// Two dictionaries with ascending keys that hold the same value under
/// every key are the same sequence of entries.
pub proof fn lemma_ascending_unique(
    a: Seq<(Seq<u8>, ValueView)>,
    b: Seq<(Seq<u8>, ValueView)>,
)
    requires
        keys_ascending(a),
        keys_ascending(b),
        forall|key: Seq<u8>| lookup(a, key) == lookup(b, key),
    ensures
        a == b,
    decreases a.len(),
{
    if a.len() == 0 {
        if b.len() > 0 {
            assert(lookup(b, b.last().0) is Some);
            assert(lookup(a, b.last().0) is None);
        }
        assert(a =~= b);
    } else {
        let ka = a.last().0;
        assert(lookup(a, ka) == Some(a.last().1));
        lemma_lookup_entry(b, ka);
        let j = choose|j: int| 0 <= j < b.len() && (#[trigger] b[j]).0 == ka;
        let kb = b.last().0;
        assert(lookup(b, kb) == Some(b.last().1));
        lemma_lookup_entry(a, kb);
        let i = choose|i: int| 0 <= i < a.len() && (#[trigger] a[i]).0 == kb;
        if i < a.len() - 1 {
            assert(bytes_lt(a[i].0, a[a.len() - 1].0));
            if j < b.len() - 1 {
                assert(bytes_lt(b[j].0, b[b.len() - 1].0));
                lemma_lt_asymmetric(ka, kb);
            } else {
                lemma_lt_irreflexive(ka);
            }
        }
        assert(ka == kb);
        let ra = a.drop_last();
        let rb = b.drop_last();
        assert forall|x: int, y: int| 0 <= x < y < ra.len() implies bytes_lt(
            #[trigger] ra[x].0,
            #[trigger] ra[y].0,
        ) by {
            assert(ra[x] == a[x] && ra[y] == a[y]);
        }
        assert forall|x: int, y: int| 0 <= x < y < rb.len() implies bytes_lt(
            #[trigger] rb[x].0,
            #[trigger] rb[y].0,
        ) by {
            assert(rb[x] == b[x] && rb[y] == b[y]);
        }
        assert forall|key: Seq<u8>| lookup(ra, key) == lookup(rb, key) by {
            if key == ka {
                lemma_lookup_entry(ra, key);
                lemma_lookup_entry(rb, key);
                lemma_lt_irreflexive(ka);
                if lookup(ra, key) is Some {
                    let x = choose|x: int| 0 <= x < ra.len() && (#[trigger] ra[x]).0 == key;
                    assert(ra[x] == a[x]);
                    assert(bytes_lt(a[x].0, a[a.len() - 1].0));
                }
                if lookup(rb, key) is Some {
                    let x = choose|x: int| 0 <= x < rb.len() && (#[trigger] rb[x]).0 == key;
                    assert(rb[x] == b[x]);
                    assert(bytes_lt(b[x].0, b[b.len() - 1].0));
                }
            } else {
                assert(lookup(a, key) == lookup(b, key));
            }
        }
        lemma_ascending_unique(ra, rb);
        assert(a =~= ra.push(a.last()));
        assert(b =~= rb.push(b.last()));
    }
}

/// The order in which two different keys are put into a dictionary has no
/// effect on the dictionary, and so none on its encoding.
pub proof fn lemma_insert_commutes(
    entries: Seq<(Seq<u8>, ValueView)>,
    k1: Seq<u8>,
    v1: ValueView,
    k2: Seq<u8>,
    v2: ValueView,
)
    requires
        keys_ascending(entries),
        k1 != k2,
    ensures
        dict_insert(dict_insert(entries, k1, v1), k2, v2) == dict_insert(
            dict_insert(entries, k2, v2),
            k1,
            v1,
        ),
{
    let first = dict_insert(entries, k1, v1);
    let second = dict_insert(entries, k2, v2);
    let a = dict_insert(first, k2, v2);
    let b = dict_insert(second, k1, v1);
    lemma_insert_ascending(entries, k1, v1);
    lemma_insert_ascending(entries, k2, v2);
    lemma_insert_ascending(first, k2, v2);
    lemma_insert_ascending(second, k1, v1);
    assert forall|key: Seq<u8>| lookup(a, key) == lookup(b, key) by {
        lemma_lookup_insert(entries, k1, v1, key);
        lemma_lookup_insert(entries, k2, v2, key);
        lemma_lookup_insert(first, k2, v2, key);
        lemma_lookup_insert(second, k1, v1, key);
    }
    lemma_ascending_unique(a, b);
}

/// Putting a well-formed value into a well-formed dictionary gives one.
pub proof fn lemma_insert_wf(entries: Seq<(Seq<u8>, ValueView)>, key: Seq<u8>, value: ValueView)
    requires
        ValueView::Dict(entries).wf(),
        value.wf(),
    ensures
        ValueView::Dict(dict_insert(entries, key, value)).wf(),
{
    let r = dict_insert(entries, key, value);
    lemma_insert_ascending(entries, key, value);
    lemma_insert_members(entries, key, value);
    assert forall|i: int| 0 <= i < r.len() implies (#[trigger] r[i]).1.wf() by {
        let e = r[i];
        if e != (key, value) {
            let j = choose|j: int| 0 <= j < entries.len() && entries[j] == e;
            assert(entries[j].1.wf());
        }
    }
}

/// What `parse_value` gives is well formed and ends within the input,
/// behind where it started.
pub proof fn lemma_parse_value_wf(s: Seq<u8>, pos: int)
    ensures
        match parse_value(s, pos) {
            Some((v, end)) => v.wf() && pos < end <= s.len(),
            None => true,
        },
    decreases s.len() - pos, 0nat,
{
    if pos < 0 || pos >= s.len() {
    } else if s[pos] == 105 {
        if pos + 1 <= s.len() {
            lemma_digits_end_bounds(s, pos + 1);
            if pos + 2 <= s.len() {
                lemma_digits_end_bounds(s, pos + 2);
            }
        }
    } else if is_digit(s[pos]) {
    } else if s[pos] == 108 {
        lemma_parse_items_wf(s, pos + 1, Seq::empty());
    } else if s[pos] == 100 {
        lemma_parse_entries_wf(s, pos + 1, Seq::empty());
    }
}

/// What `parse_items` adds to well-formed trees is well formed.
pub proof fn lemma_parse_items_wf(s: Seq<u8>, pos: int, acc: Seq<ValueView>)
    requires
        all_wf(acc),
    ensures
        match parse_items(s, pos, acc) {
            Some((items, end)) => all_wf(items) && pos < end <= s.len(),
            None => true,
        },
    decreases s.len() - pos, 1nat,
{
    if pos < 0 || pos >= s.len() || s[pos] == 101 {
    } else {
        lemma_parse_value_wf(s, pos);
        match parse_value(s, pos) {
            Some((v, next)) => {
                assert forall|i: int| 0 <= i < acc.push(v).len() implies (#[trigger] acc.push(
                    v,
                )[i]).wf() by {
                    if i < acc.len() {
                        assert(acc[i].wf());
                    }
                }
                lemma_parse_items_wf(s, next, acc.push(v));
            },
            None => {},
        }
    }
}

/// What `parse_entries` makes of a well-formed dictionary is one.
pub proof fn lemma_parse_entries_wf(s: Seq<u8>, pos: int, acc: Seq<(Seq<u8>, ValueView)>)
    requires
        ValueView::Dict(acc).wf(),
    ensures
        match parse_entries(s, pos, acc) {
            Some((entries, end)) => ValueView::Dict(entries).wf() && pos < end <= s.len(),
            None => true,
        },
    decreases s.len() - pos, 1nat,
{
    if pos < 0 || pos >= s.len() || s[pos] == 101 || !is_digit(s[pos]) {
    } else {
        match parse_bytes(s, pos) {
            Some((key, mid)) => {
                lemma_parse_value_wf(s, mid);
                match parse_value(s, mid) {
                    Some((v, next)) => {
                        lemma_insert_wf(acc, key, v);
                        lemma_parse_entries_wf(s, next, dict_insert(acc, key, v));
                    },
                    None => {},
                }
            },
            None => {},
        }
    }
}

/// Where `s` holds `whole`, each byte of `whole` stands at its place.
proof fn lemma_holds_each(s: Seq<u8>, pos: int, whole: Seq<u8>)
    requires
        holds(s, pos, whole),
    ensures
        forall|i: int| 0 <= i < whole.len() ==> s[pos + i] == whole[i],
{
    assert forall|i: int| 0 <= i < whole.len() implies s[pos + i] == whole[i] by {
        assert(s.subrange(pos, pos + whole.len())[i] == s[pos + i]);
    }
}

/// Where `s` holds `whole`, it holds each part of it at the part's place.
proof fn lemma_holds_part(s: Seq<u8>, pos: int, whole: Seq<u8>, a: int, part: Seq<u8>)
    requires
        holds(s, pos, whole),
        0 <= a,
        a + part.len() <= whole.len(),
        whole.subrange(a, a + part.len()) == part,
    ensures
        holds(s, pos + a, part),
        forall|i: int| 0 <= i < whole.len() ==> s[pos + i] == whole[i],
{
    assert forall|i: int| 0 <= i < whole.len() implies s[pos + i] == whole[i] by {
        assert(s.subrange(pos, pos + whole.len())[i] == s[pos + i]);
    }
    assert(s.subrange(pos + a, pos + a + part.len()) =~= part) by {
        assert forall|i: int| 0 <= i < part.len() implies s.subrange(
            pos + a,
            pos + a + part.len(),
        )[i] == part[i] by {
            assert(whole.subrange(a, a + part.len())[i] == whole[a + i]);
            assert(s[pos + (a + i)] == whole[a + i]);
        }
    }
}

/// An encoding has at least two bytes, and its first byte is `i`, `l`, `d`
/// or a digit.
pub proof fn lemma_encode_first(v: ValueView)
    ensures
        encode_value(v).len() >= 2,
        encode_value(v)[0] == 105 || encode_value(v)[0] == 108 || encode_value(v)[0] == 100
            || is_digit(encode_value(v)[0]),
        v is Integer <==> encode_value(v)[0] == 105,
        v is ByteString <==> is_digit(encode_value(v)[0]),
        v is List <==> encode_value(v)[0] == 108,
        v is Dict <==> encode_value(v)[0] == 100,
{
    match v {
        ValueView::ByteString(b) => {
            lemma_nat_digits(b.len());
            assert(encode_value(v)[0] == nat_digits(b.len())[0]);
        },
        _ => {},
    }
}

/// The encoding of the first `k` items starts the encoding of the first `n`.
proof fn lemma_items_prefix(items: Seq<ValueView>, k: nat, n: nat)
    requires
        k <= n <= items.len(),
    ensures
        encode_items(items, k).len() <= encode_items(items, n).len(),
        encode_items(items, n).subrange(0, encode_items(items, k).len() as int) == encode_items(
            items,
            k,
        ),
    decreases n,
{
    if k == n {
        assert(encode_items(items, n).subrange(0, encode_items(items, k).len() as int)
            =~= encode_items(items, k));
    } else {
        lemma_items_prefix(items, k, (n - 1) as nat);
        assert(encode_items(items, n).subrange(0, encode_items(items, k).len() as int)
            =~= encode_items(items, (n - 1) as nat).subrange(
            0,
            encode_items(items, k).len() as int,
        ));
    }
}

/// The encoding of the first `k` entries starts the encoding of the first
/// `n`.
proof fn lemma_entries_prefix(entries: Seq<(Seq<u8>, ValueView)>, k: nat, n: nat)
    requires
        k <= n <= entries.len(),
    ensures
        encode_entries(entries, k).len() <= encode_entries(entries, n).len(),
        encode_entries(entries, n).subrange(0, encode_entries(entries, k).len() as int)
            == encode_entries(entries, k),
    decreases n,
{
    if k == n {
        assert(encode_entries(entries, n).subrange(0, encode_entries(entries, k).len() as int)
            =~= encode_entries(entries, k));
    } else {
        lemma_entries_prefix(entries, k, (n - 1) as nat);
        assert(encode_entries(entries, n).subrange(0, encode_entries(entries, k).len() as int)
            =~= encode_entries(entries, (n - 1) as nat).subrange(
            0,
            encode_entries(entries, k).len() as int,
        ));
    }
}

/// The encoding of a dictionary holds the encoding of each of its values,
/// byte for byte, at the place that `entry_value_offset` gives.
pub proof fn lemma_entry_value_place(entries: Seq<(Seq<u8>, ValueView)>, k: nat)
    requires
        k < entries.len(),
    ensures
        holds(
            encode_value(ValueView::Dict(entries)),
            entry_value_offset(entries, k),
            encode_value(entries[k as int].1),
        ),
{
    let whole = encode_value(ValueView::Dict(entries));
    let all = encode_entries(entries, entries.len());
    let upto = encode_entries(entries, k + 1);
    let venc = encode_value(entries[k as int].1);
    let from = entry_value_offset(entries, k);
    lemma_entries_prefix(entries, k + 1, entries.len());
    assert(upto == encode_entries(entries, k) + encode_bytes(entries[k as int].0) + venc);
    assert(whole.subrange(from, from + venc.len()) =~= venc) by {
        assert forall|i: int| 0 <= i < venc.len() implies whole.subrange(from, from + venc.len())[i]
            == venc[i] by {
            assert(all.subrange(0, upto.len() as int)[from - 1 + i] == upto[from - 1 + i]);
        }
    }
}

/// Parsing the encoding of an integer gives the integer back.
proof fn lemma_parse_encoded_integer(s: Seq<u8>, pos: int, n: i64)
    requires
        holds(s, pos, int_digits(n as int) + seq![101u8]),
    ensures
        parse_integer(s, pos) == Some((n, pos + int_digits(n as int).len() + 1)),
{
    let whole = int_digits(n as int) + seq![101u8];
    lemma_holds_each(s, pos, whole);
    let m: nat = if n < 0 {
        (-n) as nat
    } else {
        n as nat
    };
    let ds = nat_digits(m);
    lemma_nat_digits(m);
    let start = if n < 0 {
        pos + 1
    } else {
        pos
    };
    let end = start + ds.len();
    assert(s[pos] == whole[0]);
    assert(ds[0] == whole[start - pos]);
    assert(is_digit(ds[0]));
    assert(s.subrange(start, end) =~= ds) by {
        assert forall|i: int| 0 <= i < ds.len() implies s.subrange(start, end)[i] == ds[i] by {
            assert(s[pos + (start - pos + i)] == whole[start - pos + i]);
        }
    }
    assert(s[end] == whole[end - pos]);
    lemma_digits_end(s, start, end);
    assert(s[start] == ds[0]);
}

/// Parsing the encoding of a byte string gives the byte string back.
proof fn lemma_parse_encoded_bytes(s: Seq<u8>, pos: int, b: Seq<u8>)
    requires
        holds(s, pos, encode_bytes(b)),
    ensures
        parse_bytes(s, pos) == Some((b, pos + encode_bytes(b).len())),
        is_digit(s[pos]),
{
    let whole = encode_bytes(b);
    lemma_holds_each(s, pos, whole);
    let ds = nat_digits(b.len());
    lemma_nat_digits(b.len());
    let end = pos + ds.len();
    assert(s[pos] == whole[0]);
    assert(s.subrange(pos, end) =~= ds) by {
        assert forall|i: int| 0 <= i < ds.len() implies s.subrange(pos, end)[i] == ds[i] by {
            assert(s[pos + i] == whole[i]);
        }
    }
    assert(s[end] == whole[ds.len() as int]);
    lemma_digits_end(s, pos, end);
    assert(s.subrange(end + 1, end + 1 + b.len()) =~= b) by {
        assert forall|i: int| 0 <= i < b.len() implies s.subrange(end + 1, end + 1 + b.len())[i]
            == b[i] by {
            assert(s[pos + (ds.len() + 1 + i)] == whole[ds.len() + 1 + i]);
        }
    }
}

/// Parsing the encoding of a well-formed value, wherever it stands, gives
/// the value back and ends behind the encoding.
pub proof fn lemma_parse_encoded(s: Seq<u8>, pos: int, v: ValueView)
    requires
        v.wf(),
        holds(s, pos, encode_value(v)),
    ensures
        parse_value(s, pos) == Some((v, pos + encode_value(v).len())),
    decreases v, 0nat,
{
    let whole = encode_value(v);
    lemma_encode_first(v);
    lemma_holds_each(s, pos, whole);
    assert(s[pos] == whole[0]);
    match v {
        ValueView::Integer(n) => {
            let inner = int_digits(n as int) + seq![101u8];
            assert(whole.subrange(1, 1 + inner.len() as int) =~= inner);
            lemma_holds_part(s, pos, whole, 1, inner);
            lemma_parse_encoded_integer(s, pos + 1, n);
        },
        ValueView::ByteString(b) => {
            lemma_parse_encoded_bytes(s, pos, b);
        },
        ValueView::List(items) => {
            let inner = encode_items(items, items.len()) + seq![101u8];
            assert(whole.subrange(1, 1 + inner.len() as int) =~= inner);
            lemma_holds_part(s, pos, whole, 1, inner);
            assert(items.take(0) =~= Seq::<ValueView>::empty());
            lemma_parse_encoded_items(s, pos + 1, items, 0);
        },
        ValueView::Dict(entries) => {
            let inner = encode_entries(entries, entries.len()) + seq![101u8];
            assert(whole.subrange(1, 1 + inner.len() as int) =~= inner);
            lemma_holds_part(s, pos, whole, 1, inner);
            assert(entries.take(0) =~= Seq::<(Seq<u8>, ValueView)>::empty());
            lemma_parse_encoded_entries(s, pos + 1, entries, 0);
        },
    }
}

/// Parsing the encoded items of a list from the `k`-th on, with the first
/// `k` at hand, gives the whole list.
proof fn lemma_parse_encoded_items(s: Seq<u8>, base: int, items: Seq<ValueView>, k: nat)
    requires
        all_wf(items),
        k <= items.len(),
        holds(s, base, encode_items(items, items.len()) + seq![101u8]),
    ensures
        parse_items(s, base + encode_items(items, k).len(), items.take(k as int)) == Some(
            (items, base + encode_items(items, items.len()).len() + 1),
        ),
    decreases items, items.len() - k,
{
    let all = encode_items(items, items.len());
    let whole = all + seq![101u8];
    let pos = base + encode_items(items, k).len();
    lemma_items_prefix(items, k, items.len());
    lemma_holds_each(s, base, whole);
    if k == items.len() {
        assert(s[base + all.len()] == whole[all.len() as int]);
        assert(items.take(k as int) =~= items);
    } else {
        let item = items[k as int];
        let enc = encode_value(item);
        lemma_items_prefix(items, k + 1, items.len());
        lemma_encode_first(item);
        assert(whole.subrange(pos - base, pos - base + enc.len()) =~= enc) by {
            let upto = encode_items(items, k + 1);
            assert(upto == encode_items(items, k) + enc);
            assert forall|i: int| 0 <= i < enc.len() implies whole.subrange(
                pos - base,
                pos - base + enc.len(),
            )[i] == enc[i] by {
                assert(all.subrange(0, upto.len() as int)[pos - base + i] == upto[pos - base
                    + i]);
            }
        }
        lemma_holds_part(s, base, whole, pos - base, enc);
        assert(s[pos] == whole[pos - base]);
        assert(whole.subrange(pos - base, pos - base + enc.len())[0] == enc[0]);
        assert(items[k as int].wf());
        lemma_parse_encoded(s, pos, item);
        assert(items.take(k as int).push(item) =~= items.take(k as int + 1));
        lemma_parse_encoded_items(s, base, items, k + 1);
    }
}

/// Parsing the encoded entries of a dictionary from the `k`-th on, with
/// the first `k` at hand, gives the whole dictionary.
proof fn lemma_parse_encoded_entries(
    s: Seq<u8>,
    base: int,
    entries: Seq<(Seq<u8>, ValueView)>,
    k: nat,
)
    requires
        ValueView::Dict(entries).wf(),
        k <= entries.len(),
        holds(s, base, encode_entries(entries, entries.len()) + seq![101u8]),
    ensures
        parse_entries(s, base + encode_entries(entries, k).len(), entries.take(k as int)) == Some(
            (entries, base + encode_entries(entries, entries.len()).len() + 1),
        ),
    decreases entries, entries.len() - k,
{
    let all = encode_entries(entries, entries.len());
    let whole = all + seq![101u8];
    let pos = base + encode_entries(entries, k).len();
    lemma_entries_prefix(entries, k, entries.len());
    lemma_holds_each(s, base, whole);
    if k == entries.len() {
        assert(s[base + all.len()] == whole[all.len() as int]);
        assert(entries.take(k as int) =~= entries);
    } else {
        let key = entries[k as int].0;
        let value = entries[k as int].1;
        let kenc = encode_bytes(key);
        let venc = encode_value(value);
        let upto = encode_entries(entries, k + 1);
        lemma_entries_prefix(entries, k + 1, entries.len());
        lemma_nat_digits(key.len());
        assert(upto == encode_entries(entries, k) + kenc + venc);
        assert(whole.subrange(pos - base, pos - base + kenc.len()) =~= kenc) by {
            assert forall|i: int| 0 <= i < kenc.len() implies whole.subrange(
                pos - base,
                pos - base + kenc.len(),
            )[i] == kenc[i] by {
                assert(all.subrange(0, upto.len() as int)[pos - base + i] == upto[pos - base
                    + i]);
            }
        }
        lemma_holds_part(s, base, whole, pos - base, kenc);
        lemma_parse_encoded_bytes(s, pos, key);
        let mid = pos + kenc.len();
        assert(whole.subrange(mid - base, mid - base + venc.len()) =~= venc) by {
            assert forall|i: int| 0 <= i < venc.len() implies whole.subrange(
                mid - base,
                mid - base + venc.len(),
            )[i] == venc[i] by {
                assert(all.subrange(0, upto.len() as int)[mid - base + i] == upto[mid - base
                    + i]);
            }
        }
        lemma_holds_part(s, base, whole, mid - base, venc);
        lemma_encode_first(value);
        assert(entries[k as int].1.wf());
        lemma_parse_encoded(s, mid, value);
        let acc = entries.take(k as int);
        assert(dict_insert(acc, key, value) =~= entries.take(k as int + 1)) by {
            if k > 0 {
                assert(acc.last() == entries[k - 1]);
                assert(bytes_lt(entries[k - 1].0, entries[k as int].0));
                lemma_lt_asymmetric(entries[k - 1].0, key);
                lemma_lt_irreflexive(key);
            }
        }
        lemma_parse_encoded_entries(s, base, entries, k + 1);
    }
}

/// Decoding the encoding of a value gives the value back, whatever the
/// value, as long as each of its dictionaries has its keys in ascending
/// order.
pub proof fn lemma_decode_encode(v: ValueView)
    requires
        v.wf(),
    ensures
        decode_spec(encode_value(v)) == Some(v),
{
    let s = encode_value(v);
    assert(s.subrange(0, s.len() as int) =~= s);
    lemma_parse_encoded(s, 0, v);
}

/// Whatever bytes decode, in whatever order their dictionary keys come,
/// the tree that comes out encodes to bytes that decode to the same tree:
/// encoding what was decoded, decoding that and encoding again changes
/// nothing.
pub proof fn lemma_encode_idempotent(bytes: Seq<u8>)
    requires
        decode_spec(bytes) is Some,
    ensures
        decode_spec(bytes)->0.wf(),
        decode_spec(encode_value(decode_spec(bytes)->0)) == decode_spec(bytes),
{
    lemma_parse_value_wf(bytes, 0);
    lemma_decode_encode(decode_spec(bytes)->0);
}

} // verus!
