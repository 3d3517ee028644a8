//! What the codec computes, as mathematics: the tree of a value, its
//! canonical encoding, and what a sequence of bytes decodes to.

use crate::decimal::{digits_end, digits_value, int_digits, is_digit, nat_digits};
use crate::order::bytes_lt;
use vstd::prelude::*;

verus! {

/// The mathematical tree that a `Value` stands for. A dictionary is the
/// sequence of its entries in the order in which they are encoded.
pub enum ValueView {
    Integer(i64),
    ByteString(Seq<u8>),
    List(Seq<ValueView>),
    Dict(Seq<(Seq<u8>, ValueView)>),
}

/// The canonical encoding of a value.
pub open spec fn encode_value(v: ValueView) -> Seq<u8>
    decreases v, 0nat,
{
    match v {
        ValueView::Integer(n) => seq![105u8] + int_digits(n as int) + seq![101u8],
        ValueView::ByteString(b) => encode_bytes(b),
        ValueView::List(items) => seq![108u8] + encode_items(items, items.len()) + seq![101u8],
        ValueView::Dict(entries) => seq![100u8] + encode_entries(entries, entries.len()) + seq![
            101u8,
        ],
    }
}

/// The encoding of a byte string: its length, a colon, its bytes.
pub open spec fn encode_bytes(b: Seq<u8>) -> Seq<u8> {
    nat_digits(b.len()) + seq![58u8] + b
}

/// The encodings of the first `n` of `items`, one after the other.
pub open spec fn encode_items(items: Seq<ValueView>, n: nat) -> Seq<u8>
    decreases items, n,
{
    if n == 0 || n > items.len() {
        Seq::empty()
    } else {
        encode_items(items, (n - 1) as nat) + encode_value(items[n - 1])
    }
}

/// The encodings of the first `n` of `entries`, key then value, one after
/// the other.
pub open spec fn encode_entries(entries: Seq<(Seq<u8>, ValueView)>, n: nat) -> Seq<u8>
    decreases entries, n,
{
    if n == 0 || n > entries.len() {
        Seq::empty()
    } else {
        encode_entries(entries, (n - 1) as nat) + encode_bytes(entries[n - 1].0) + encode_value(
            entries[n - 1].1,
        )
    }
}

/// Whether the keys of `entries` stand in strictly ascending byte order.
pub open spec fn keys_ascending(entries: Seq<(Seq<u8>, ValueView)>) -> bool {
    forall|i: int, j: int|
        0 <= i < j < entries.len() ==> bytes_lt(#[trigger] entries[i].0, #[trigger] entries[j].0)
}

/// The value that `entries` holds under `key`, the last one if there are
/// several.
pub open spec fn lookup(entries: Seq<(Seq<u8>, ValueView)>, key: Seq<u8>) -> Option<ValueView>
    decreases entries.len(),
{
    if entries.len() == 0 {
        None
    } else if entries.last().0 == key {
        Some(entries.last().1)
    } else {
        lookup(entries.drop_last(), key)
    }
}

/// `entries` with `value` put under `key`: in place of the entry that had
/// this key, or else before the entries with a greater key.
pub open spec fn dict_insert(
    entries: Seq<(Seq<u8>, ValueView)>,
    key: Seq<u8>,
    value: ValueView,
) -> Seq<(Seq<u8>, ValueView)>
    decreases entries.len(),
{
    if entries.len() == 0 {
        seq![(key, value)]
    } else if bytes_lt(key, entries.last().0) {
        dict_insert(entries.drop_last(), key, value).push(entries.last())
    } else if entries.last().0 == key {
        entries.drop_last().push((key, value))
    } else {
        entries.push((key, value))
    }
}

impl ValueView {
    /// Whether every dictionary in this tree has its keys in strictly
    /// ascending order, so that no key occurs twice.
    pub open spec fn wf(self) -> bool
        decreases self,
    {
        match self {
            ValueView::Integer(_) => true,
            ValueView::ByteString(_) => true,
            ValueView::List(items) => forall|i: int|
                0 <= i < items.len() ==> (#[trigger] items[i]).wf(),
            ValueView::Dict(entries) => keys_ascending(entries) && forall|i: int|
                0 <= i < entries.len() ==> (#[trigger] entries[i]).1.wf(),
        }
    }
}

/// Whether every tree in `items` is well formed.
pub open spec fn all_wf(items: Seq<ValueView>) -> bool {
    forall|i: int| 0 <= i < items.len() ==> (#[trigger] items[i]).wf()
}

/// Reads the integer whose numeral starts at `pos`, behind the opening `i`:
/// an optional `-`, digits without a leading zero, then `e`. Gives the
/// number and the place behind the `e`. There is no `-0`, and the number
/// has to fit in 64 bits.
pub open spec fn parse_integer(s: Seq<u8>, pos: int) -> Option<(i64, int)> {
    let negative = 0 <= pos < s.len() && s[pos] == 45;
    let start = if negative {
        pos + 1
    } else {
        pos
    };
    let end = digits_end(s, start);
    let magnitude = digits_value(s.subrange(start, end));
    if 0 <= pos && start < end < s.len() && s[end] == 101 && (s[start] == 48 ==> end == start + 1)
        && (if negative {
        0 < magnitude <= 0x8000_0000_0000_0000
    } else {
        magnitude <= 0x7fff_ffff_ffff_ffff
    }) {
        Some(
            (
                (if negative {
                    -(magnitude as int)
                } else {
                    magnitude as int
                }) as i64,
                end + 1,
            ),
        )
    } else {
        None
    }
}

/// Reads the byte string whose length numeral starts at `pos`: digits, a
/// colon, then as many bytes as the digits say. Gives the bytes and the
/// place behind them.
pub open spec fn parse_bytes(s: Seq<u8>, pos: int) -> Option<(Seq<u8>, int)> {
    let end = digits_end(s, pos);
    let n = digits_value(s.subrange(pos, end));
    if 0 <= pos < end < s.len() && s[end] == 58 && end + 1 + n <= s.len() {
        Some((s.subrange(end + 1, end + 1 + n), end + 1 + n))
    } else {
        None
    }
}

/// Reads the value that starts at `pos`. Gives its tree and the place
/// behind its last byte, or `None` where the bytes at `pos` are not the
/// encoding of a value.
pub open spec fn parse_value(s: Seq<u8>, pos: int) -> Option<(ValueView, int)>
    decreases s.len() - pos, 0nat,
{
    if pos < 0 || pos >= s.len() {
        None
    } else if s[pos] == 105 {
        match parse_integer(s, pos + 1) {
            Some((n, end)) => Some((ValueView::Integer(n), end)),
            None => None,
        }
    } else if is_digit(s[pos]) {
        match parse_bytes(s, pos) {
            Some((b, end)) => Some((ValueView::ByteString(b), end)),
            None => None,
        }
    } else if s[pos] == 108 {
        match parse_items(s, pos + 1, Seq::empty()) {
            Some((items, end)) => Some((ValueView::List(items), end)),
            None => None,
        }
    } else if s[pos] == 100 {
        match parse_entries(s, pos + 1, Seq::empty()) {
            Some((entries, end)) => Some((ValueView::Dict(entries), end)),
            None => None,
        }
    } else {
        None
    }
}

/// Reads the values from `pos` up to the closing `e` of a list, and gives
/// `acc` followed by them, with the place behind the `e`.
pub open spec fn parse_items(s: Seq<u8>, pos: int, acc: Seq<ValueView>) -> Option<
    (Seq<ValueView>, int),
>
    decreases s.len() - pos, 1nat,
{
    if pos < 0 || pos >= s.len() {
        None
    } else if s[pos] == 101 {
        Some((acc, pos + 1))
    } else {
        match parse_value(s, pos) {
            Some((v, next)) => if pos < next <= s.len() {
                parse_items(s, next, acc.push(v))
            } else {
                None
            },
            None => None,
        }
    }
}

/// Reads the entries from `pos` up to the closing `e` of a dictionary,
/// each a byte-string key and a value, and gives `acc` with each of them
/// put in, in the order read, with the place behind the `e`. The keys need
/// not come in ascending order, and a later entry replaces an earlier one
/// with the same key.
pub open spec fn parse_entries(s: Seq<u8>, pos: int, acc: Seq<(Seq<u8>, ValueView)>) -> Option<
    (Seq<(Seq<u8>, ValueView)>, int),
>
    decreases s.len() - pos, 1nat,
{
    if pos < 0 || pos >= s.len() {
        None
    } else if s[pos] == 101 {
        Some((acc, pos + 1))
    } else if is_digit(s[pos]) {
        match parse_bytes(s, pos) {
            Some((key, mid)) => if mid > pos {
                match parse_value(s, mid) {
                    Some((v, next)) => if mid < next <= s.len() {
                        parse_entries(s, next, dict_insert(acc, key, v))
                    } else {
                        None
                    },
                    None => None,
                }
            } else {
                None
            },
            None => None,
        }
    } else {
        None
    }
}

/// The tree that `s` encodes, where `s` is the encoding of one value and
/// nothing else.
pub open spec fn decode_spec(s: Seq<u8>) -> Option<ValueView> {
    match parse_value(s, 0) {
        Some((v, end)) => if end == s.len() {
            Some(v)
        } else {
            None
        },
        None => None,
    }
}

/// Whether `s` holds the bytes `b` from `pos` on.
pub open spec fn holds(s: Seq<u8>, pos: int, b: Seq<u8>) -> bool {
    0 <= pos && pos + b.len() <= s.len() && s.subrange(pos, pos + b.len()) == b
}

/// Where the encoding of a dictionary holds the encoding of the value of
/// its `k`-th entry: behind the opening `d`, the entries before it and its
/// key.
pub open spec fn entry_value_offset(entries: Seq<(Seq<u8>, ValueView)>, k: nat) -> int {
    1 + encode_entries(entries, k).len() as int + encode_bytes(entries[k as int].0).len() as int
}

} // verus!
