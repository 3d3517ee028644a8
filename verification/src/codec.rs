//! The bencoding codec: values, their canonical encoding and the decoder.

pub mod laws;
pub mod model;

use crate::codec::laws::{lemma_insert_wf, lemma_parse_value_wf};
use crate::codec::model::{
    decode_spec, dict_insert, encode_bytes, encode_entries, encode_items, encode_value, lookup,
    parse_bytes, parse_entries, parse_integer, parse_items, parse_value, ValueView,
};
use crate::decimal::{push_int, push_nat, read_digits};
use crate::order::{key_eq, key_lt};
use crate::text::text_of;
use vstd::prelude::*;
use vstd::slice::{slice_subrange, slice_to_vec};
use vstd::std_specs::cmp::PartialEqSpecImpl;
use vstd::string::StringExecFns;
use vstd::utf8::{decode_utf8, valid_utf8};

verus! {

/// How decoding or a field access can fail.
#[derive(Clone, Copy, Debug, PartialEq, Eq, Structural)]
pub enum ParseError {
    /// The bytes are not an encoding of a value.
    MalformedEncoding,
    /// A dictionary has no entry under the key asked for.
    FieldMissing,
    /// The value is of another kind than the one asked for.
    TypeMismatch,
}

impl ParseError {
    /// What went wrong, in words.
    pub fn message(&self) -> (text: String)
        ensures
            text@ == (match self {
                ParseError::MalformedEncoding => "Malformed encoding"@,
                ParseError::FieldMissing => "Could not find field"@,
                ParseError::TypeMismatch => "Unexpected type of value"@,
            }),
    {
        match self {
            ParseError::MalformedEncoding => String::from_str("Malformed encoding"),
            ParseError::FieldMissing => String::from_str("Could not find field"),
            ParseError::TypeMismatch => String::from_str("Unexpected type of value"),
        }
    }
}

/// A dictionary: entries ordered by key, no key twice.
#[derive(Debug)]
pub struct Dict {
    entries: Vec<(Vec<u8>, Value)>,
}

/// A decoded value.
#[derive(Debug)]
pub enum Value {
    Integer(i64),
    ByteString(Vec<u8>),
    List(Vec<Value>),
    Dict(Dict),
}

impl View for Value {
    type V = ValueView;

    closed spec fn view(&self) -> ValueView {
        value_view(*self)
    }
}

impl View for Dict {
    type V = Seq<(Seq<u8>, ValueView)>;

    closed spec fn view(&self) -> Seq<(Seq<u8>, ValueView)> {
        pairs_view(self.entries@)
    }
}

/// The entries `s`, each with the bytes of its key and the tree of its value.
spec fn pairs_view(s: Seq<(Vec<u8>, Value)>) -> Seq<(Seq<u8>, ValueView)> {
    Seq::new(s.len(), |i: int| (s[i].0@, s[i].1@))
}

/// The tree that `v` stands for.
spec fn value_view(v: Value) -> ValueView
    decreases v, 0nat,
{
    match v {
        Value::Integer(n) => ValueView::Integer(n),
        Value::ByteString(b) => ValueView::ByteString(b@),
        Value::List(items) => ValueView::List(items_view(items, items.len() as nat)),
        Value::Dict(d) => ValueView::Dict(entries_view(d.entries, d.entries.len() as nat)),
    }
}

/// The trees of the first `n` of `items`.
spec fn items_view(items: Vec<Value>, n: nat) -> Seq<ValueView>
    decreases items, n,
{
    if n == 0 || n > items.len() {
        Seq::empty()
    } else {
        items_view(items, (n - 1) as nat).push(value_view(items[n - 1]))
    }
}

/// The first `n` of `entries`, each with the tree of its value.
spec fn entries_view(entries: Vec<(Vec<u8>, Value)>, n: nat) -> Seq<(Seq<u8>, ValueView)>
    decreases entries, n,
{
    if n == 0 || n > entries.len() {
        Seq::empty()
    } else {
        entries_view(entries, (n - 1) as nat).push(
            (entries[n - 1].0@, value_view(entries[n - 1].1)),
        )
    }
}

/// What `items_view` holds.
proof fn lemma_items_view(items: Vec<Value>, n: nat)
    requires
        n <= items.len(),
    ensures
        items_view(items, n).len() == n,
        forall|k: int| 0 <= k < n ==> items_view(items, n)[k] == items[k]@,
    decreases n,
{
    if n > 0 {
        lemma_items_view(items, (n - 1) as nat);
    }
}

/// What `entries_view` holds.
proof fn lemma_entries_view(entries: Vec<(Vec<u8>, Value)>, n: nat)
    requires
        n <= entries.len(),
    ensures
        entries_view(entries, n).len() == n,
        forall|k: int|
            0 <= k < n ==> entries_view(entries, n)[k] == (entries[k].0@, entries[k].1@),
    decreases n,
{
    if n > 0 {
        lemma_entries_view(entries, (n - 1) as nat);
    }
}

/// What the view of a list holds.
proof fn lemma_view_list(items: Vec<Value>)
    ensures
        Value::List(items)@ is List,
        Value::List(items)@->List_0.len() == items.len(),
        forall|k: int| 0 <= k < items.len() ==> Value::List(items)@->List_0[k] == items[k]@,
{
    lemma_items_view(items, items.len() as nat);
}

/// What the view of a dictionary holds.
proof fn lemma_view_dict(d: Dict)
    ensures
        Value::Dict(d)@ == ValueView::Dict(d@),
        d@.len() == d.entries.len(),
        forall|k: int| 0 <= k < d.entries.len() ==> d@[k] == (d.entries[k].0@, d.entries[k].1@),
{
    lemma_entries_view(d.entries, d.entries.len() as nat);
    assert(entries_view(d.entries, d.entries.len() as nat) =~= d@);
}

impl Dict {
    /// The dictionary without entries.
    pub fn new() -> (d: Dict)
        ensures
            d@ == Seq::<(Seq<u8>, ValueView)>::empty(),
    {
        let d = Dict { entries: Vec::new() };
        assert(d@ =~= Seq::<(Seq<u8>, ValueView)>::empty());
        d
    }

    /// Number of entries.
    pub fn len(&self) -> (n: usize)
        ensures
            n == self@.len(),
    {
        self.entries.len()
    }

    /// Puts `value` under `key`, in place of the value that was there if the
    /// key was present. The order in which keys are put has no effect on where
    /// they stand.
    pub fn insert(&mut self, key: Vec<u8>, value: Value)
        ensures
            final(self)@ == dict_insert(old(self)@, key@, value@),
            ValueView::Dict(old(self)@).wf() && value@.wf() ==> ValueView::Dict(final(self)@).wf(),
    {
        proof {
            if ValueView::Dict(self@).wf() && value@.wf() {
                lemma_insert_wf(self@, key@, value@);
            }
        }
        let ghost k = key@;
        let ghost v = value@;
        // the entries with a greater key step aside, last first
        let ghost mut moved: Seq<(Seq<u8>, ValueView)> = Seq::empty();
        let mut tail: Vec<(Vec<u8>, Value)> = Vec::new();
        while self.entries.len() > 0 && key_lt(
            key.as_slice(),
            self.entries[self.entries.len() - 1].0.as_slice(),
        )
            invariant
                k == key@,
                moved.len() == tail.len(),
                forall|j: int|
                    0 <= j < tail.len() ==> moved[moved.len() - 1 - j] == (
                        (#[trigger] tail[j]).0@,
                        tail[j].1@,
                    ),
                dict_insert(old(self)@, k, v) == dict_insert(self@, k, v) + moved,
            decreases self.entries.len(),
        {
            let ghost before = self@;
            let e = self.entries.pop().unwrap();
            proof {
                assert(self@ =~= before.drop_last());
                assert(before.last() == (e.0@, e.1@));
                assert(dict_insert(before, k, v) + moved =~= dict_insert(self@, k, v) + (seq![
                    (e.0@, e.1@),
                ] + moved));
                moved = seq![(e.0@, e.1@)] + moved;
            }
            tail.push(e);
        }
        let ghost mid = self@;
        if self.entries.len() > 0 && key_eq(
            self.entries[self.entries.len() - 1].0.as_slice(),
            key.as_slice(),
        ) {
            self.entries.pop();
            assert(self@ =~= mid.drop_last());
        }
        self.entries.push((key, value));
        assert(self@ =~= dict_insert(mid, k, v));
        // and come back behind the new entry
        let ghost done = self@;
        let ghost total = tail.len();
        while tail.len() > 0
            invariant
                tail.len() <= total,
                total == moved.len(),
                forall|j: int|
                    0 <= j < tail.len() ==> moved[moved.len() - 1 - j] == (
                        (#[trigger] tail[j]).0@,
                        tail[j].1@,
                    ),
                self@ == done + moved.take(total - tail.len()),
            decreases tail.len(),
        {
            let ghost before = self@;
            let ghost n = tail.len();
            let ghost tail_before = tail@;
            let e = tail.pop().unwrap();
            self.entries.push(e);
            proof {
                assert(tail_before[n - 1] == e);
                assert(moved[total - n] == (e.0@, e.1@));
                assert(self@ =~= before.push((e.0@, e.1@)));
                assert(moved.take(total - n + 1) =~= moved.take(total - n).push(moved[total - n]));
            }
        }
        assert(moved.take(total as int) =~= moved);
    }

    /// The value under `key`, if there is one.
    pub fn get(&self, key: &[u8]) -> (r: Option<&Value>)
        ensures
            match r {
                Some(v) => lookup(self@, key@) == Some(v@),
                None => lookup(self@, key@) is None,
            },
    {
        let mut i: usize = self.entries.len();
        assert(self@.take(i as int) =~= self@);
        while i > 0
            invariant
                i <= self.entries.len(),
                lookup(self@, key@) == lookup(self@.take(i as int), key@),
            decreases i,
        {
            let ghost cur = self@.take(i as int);
            assert(cur.last() == (self.entries[i - 1].0@, self.entries[i - 1].1@));
            assert(cur.drop_last() =~= self@.take(i - 1));
            if key_eq(self.entries[i - 1].0.as_slice(), key) {
                return Some(&self.entries[i - 1].1);
            }
            i -= 1;
        }
        None
    }
}

impl Value {
    /// The number, where this value is an integer.
    pub fn as_integer(&self) -> (r: Result<i64, ParseError>)
        ensures
            match self@ {
                ValueView::Integer(n) => r == Ok::<i64, ParseError>(n),
                _ => r == Err::<i64, ParseError>(ParseError::TypeMismatch),
            },
    {
        match self {
            Value::Integer(n) => Ok(*n),
            _ => Err(ParseError::TypeMismatch),
        }
    }

    /// The bytes, where this value is a byte string.
    pub fn as_bytes(&self) -> (r: Result<&Vec<u8>, ParseError>)
        ensures
            match self@ {
                ValueView::ByteString(b) => r is Ok && r->Ok_0@ == b,
                _ => r == Err::<&Vec<u8>, ParseError>(ParseError::TypeMismatch),
            },
    {
        match self {
            Value::ByteString(b) => Ok(b),
            _ => Err(ParseError::TypeMismatch),
        }
    }

    /// The text, where this value is a byte string that holds text in
    /// UTF-8.
    pub fn as_text(&self) -> (r: Result<String, ParseError>)
        ensures
            match self@ {
                ValueView::ByteString(b) if valid_utf8(b) => r is Ok && r->Ok_0@ == decode_utf8(b),
                _ => r == Err::<String, ParseError>(ParseError::TypeMismatch),
            },
    {
        match self {
            Value::ByteString(b) => match text_of(b) {
                Some(t) => Ok(t),
                None => Err(ParseError::TypeMismatch),
            },
            _ => Err(ParseError::TypeMismatch),
        }
    }

    /// The items, where this value is a list.
    pub fn as_list(&self) -> (r: Result<&Vec<Value>, ParseError>)
        ensures
            match self@ {
                ValueView::List(items) => r is Ok && r->Ok_0@.len() == items.len() && forall|
                    i: int,
                | 0 <= i < items.len() ==> (#[trigger] r->Ok_0@[i])@ == items[i],
                _ => r == Err::<&Vec<Value>, ParseError>(ParseError::TypeMismatch),
            },
    {
        match self {
            Value::List(items) => {
                proof {
                    lemma_view_list(*items);
                }
                Ok(items)
            },
            _ => Err(ParseError::TypeMismatch),
        }
    }

    /// The dictionary, where this value is one.
    pub fn as_dict(&self) -> (r: Result<&Dict, ParseError>)
        ensures
            match self@ {
                ValueView::Dict(entries) => r is Ok && r->Ok_0@ == entries,
                _ => r == Err::<&Dict, ParseError>(ParseError::TypeMismatch),
            },
    {
        match self {
            Value::Dict(d) => {
                proof {
                    lemma_view_dict(*d);
                }
                Ok(d)
            },
            _ => Err(ParseError::TypeMismatch),
        }
    }

    /// The list of `items`.
    pub fn list(items: Vec<Value>) -> (v: Value)
        ensures
            v@ is List,
            v@->List_0.len() == items.len(),
            forall|i: int| 0 <= i < items.len() ==> v@->List_0[i] == (#[trigger] items[i])@,
    {
        proof {
            lemma_view_list(items);
        }
        Value::List(items)
    }

    /// The dictionary `d` as a value.
    pub fn dict(d: Dict) -> (v: Value)
        ensures
            v@ == ValueView::Dict(d@),
    {
        proof {
            lemma_view_dict(d);
        }
        Value::Dict(d)
    }

    /// The byte string `b` as a value.
    pub fn bytes(b: Vec<u8>) -> (v: Value)
        ensures
            v@ == ValueView::ByteString(b@),
    {
        Value::ByteString(b)
    }

    /// The integer `n` as a value.
    pub fn integer(n: i64) -> (v: Value)
        ensures
            v@ == ValueView::Integer(n),
    {
        Value::Integer(n)
    }
}

/// Appends the encoding of the byte string `b` to `out`.
fn encode_bytes_into(b: &Vec<u8>, out: &mut Vec<u8>)
    ensures
        final(out)@ == old(out)@ + encode_bytes(b@),
{
    push_nat(out, b.len() as u64);
    out.push(58);
    out.extend_from_slice(b.as_slice());
    assert(final(out)@ =~= old(out)@ + encode_bytes(b@));
}

impl Value {
    /// Appends the canonical encoding of this value to `out`.
    pub fn encode_into(&self, out: &mut Vec<u8>)
        ensures
            final(out)@ == old(out)@ + encode_value(self@),
        decreases self,
    {
        match self {
            Value::Integer(n) => {
                out.push(105);
                push_int(out, *n);
                out.push(101);
                assert(final(out)@ =~= old(out)@ + encode_value(self@));
            },
            Value::ByteString(b) => {
                encode_bytes_into(b, out);
            },
            Value::List(items) => {
                out.push(108);
                let ghost views = self@->List_0;
                proof {
                    lemma_view_list(*items);
                }
                let mut i: usize = 0;
                while i < items.len()
                    invariant
                        i <= items.len(),
                        *self == Value::List(*items),
                        views.len() == items.len(),
                        forall|k: int| 0 <= k < items.len() ==> views[k] == items[k]@,
                        out@ == old(out)@ + seq![108u8] + encode_items(views, i as nat),
                    decreases items.len() - i,
                {
                    assert(self->List_0 == *items);
                    assert(decreases_to!(*self => self->List_0));
                    items[i].encode_into(out);
                    i += 1;
                    assert(out@ =~= old(out)@ + seq![108u8] + encode_items(views, i as nat));
                }
                out.push(101);
                assert(final(out)@ =~= old(out)@ + encode_value(self@));
            },
            Value::Dict(d) => {
                out.push(100);
                let ghost views = d@;
                proof {
                    lemma_view_dict(*d);
                }
                let mut i: usize = 0;
                while i < d.entries.len()
                    invariant
                        i <= d.entries.len(),
                        *self == Value::Dict(*d),
                        views == d@,
                        views.len() == d.entries.len(),
                        forall|k: int|
                            0 <= k < d.entries.len() ==> views[k] == (
                                d.entries[k].0@,
                                d.entries[k].1@,
                            ),
                        out@ == old(out)@ + seq![100u8] + encode_entries(views, i as nat),
                    decreases d.entries.len() - i,
                {
                    encode_bytes_into(&d.entries[i].0, out);
                    assert(self->Dict_0 == *d);
                    assert(decreases_to!(*self => self->Dict_0));
                    assert(decreases_to!(*d => d.entries));
                    assert(decreases_to!(d.entries => d.entries[i as int]));
                    assert(decreases_to!(d.entries[i as int] => d.entries[i as int].1));
                    d.entries[i].1.encode_into(out);
                    i += 1;
                    assert(out@ =~= old(out)@ + seq![100u8] + encode_entries(views, i as nat));
                }
                out.push(101);
                assert(self@ == ValueView::Dict(views));
                assert(final(out)@ =~= old(out)@ + encode_value(self@));
            },
        }
    }

    /// The canonical encoding of this value.
    pub fn encode(&self) -> (out: Vec<u8>)
        ensures
            out@ == encode_value(self@),
    {
        let mut out: Vec<u8> = Vec::new();
        self.encode_into(&mut out);
        assert(out@ =~= encode_value(self@));
        out
    }
}

/// Reads the integer whose numeral starts at `pos`, as `parse_integer`
/// says.
fn decode_integer(s: &[u8], pos: usize) -> (r: Option<(i64, usize)>)
    requires
        pos <= s@.len(),
    ensures
        match r {
            Some((n, end)) => parse_integer(s@, pos as int) == Some((n, end as int)) && end
                <= s@.len(),
            None => parse_integer(s@, pos as int) is None,
        },
{
    let negative = pos < s.len() && s[pos] == 45;
    let start = if negative {
        pos + 1
    } else {
        pos
    };
    let (end, value) = read_digits(s, start);
    if end == start || end >= s.len() || s[end] != 101 {
        return None;
    }
    if s[start] == 48 && end != start + 1 {
        return None;
    }
    match value {
        None => None,
        Some(m) => {
            if negative {
                if m == 0 || m > 0x8000_0000_0000_0000 {
                    None
                } else if m == 0x8000_0000_0000_0000 {
                    Some((i64::MIN, end + 1))
                } else {
                    Some((-(m as i64), end + 1))
                }
            } else if m > 0x7fff_ffff_ffff_ffff {
                None
            } else {
                Some((m as i64, end + 1))
            }
        },
    }
}

/// Reads the byte string whose length numeral starts at `pos`, as
/// `parse_bytes` says.
fn decode_bytes(s: &[u8], pos: usize) -> (r: Option<(Vec<u8>, usize)>)
    requires
        pos <= s@.len(),
    ensures
        match r {
            Some((b, end)) => parse_bytes(s@, pos as int) == Some((b@, end as int)) && pos < end
                <= s@.len(),
            None => parse_bytes(s@, pos as int) is None,
        },
{
    let (end, value) = read_digits(s, pos);
    if end == pos || end >= s.len() || s[end] != 58 {
        return None;
    }
    match value {
        None => None,
        Some(n) => {
            let room = s.len() - end - 1;
            if n > room as u64 {
                None
            } else {
                let from = end + 1;
                let to = from + n as usize;
                let b = slice_to_vec(slice_subrange(s, from, to));
                Some((b, to))
            }
        },
    }
}

/// Reads the value that starts at `pos`, as `parse_value` says.
pub fn decode_at(s: &[u8], pos: usize) -> (r: Result<(Value, usize), ParseError>)
    ensures
        match r {
            Ok((v, end)) => parse_value(s@, pos as int) == Some((v@, end as int)) && pos < end
                <= s@.len() && v@.wf(),
            Err(e) => e == ParseError::MalformedEncoding && parse_value(s@, pos as int) is None,
        },
    decreases s@.len() - pos,
{
    proof {
        lemma_parse_value_wf(s@, pos as int);
    }
    if pos >= s.len() {
        return Err(ParseError::MalformedEncoding);
    }
    let c = s[pos];
    if c == 105 {
        match decode_integer(s, pos + 1) {
            Some((n, end)) => Ok((Value::Integer(n), end)),
            None => Err(ParseError::MalformedEncoding),
        }
    } else if 48 <= c && c <= 57 {
        match decode_bytes(s, pos) {
            Some((b, end)) => Ok((Value::ByteString(b), end)),
            None => Err(ParseError::MalformedEncoding),
        }
    } else if c == 108 {
        let mut items: Vec<Value> = Vec::new();
        let mut at: usize = pos + 1;
        let ghost mut acc: Seq<ValueView> = Seq::empty();
        loop
            invariant
                pos < at <= s@.len(),
                s@[pos as int] == 108,
                acc.len() == items.len(),
                forall|k: int| 0 <= k < items.len() ==> acc[k] == items[k]@,
                parse_items(s@, pos + 1, Seq::empty()) == parse_items(s@, at as int, acc),
            decreases s@.len() - at,
        {
            if at >= s.len() {
                return Err(ParseError::MalformedEncoding);
            }
            if s[at] == 101 {
                let v = Value::List(items);
                proof {
                    lemma_view_list(items);
                    assert(v@->List_0 =~= acc);
                    lemma_parse_value_wf(s@, pos as int);
                }
                return Ok((v, at + 1));
            }
            match decode_at(s, at) {
                Ok((v, next)) => {
                    proof {
                        acc = acc.push(v@);
                    }
                    items.push(v);
                    at = next;
                },
                Err(e) => {
                    return Err(e);
                },
            }
        }
    } else if c == 100 {
        let mut d = Dict::new();
        let mut at: usize = pos + 1;
        loop
            invariant
                pos < at <= s@.len(),
                s@[pos as int] == 100,
                parse_entries(s@, pos + 1, Seq::empty()) == parse_entries(s@, at as int, d@),
            decreases s@.len() - at,
        {
            if at >= s.len() {
                return Err(ParseError::MalformedEncoding);
            }
            let k = s[at];
            if k == 101 {
                let v = Value::Dict(d);
                proof {
                    lemma_view_dict(d);
                    lemma_parse_value_wf(s@, pos as int);
                }
                return Ok((v, at + 1));
            }
            if !(48 <= k && k <= 57) {
                return Err(ParseError::MalformedEncoding);
            }
            match decode_bytes(s, at) {
                None => {
                    return Err(ParseError::MalformedEncoding);
                },
                Some((key, mid)) => {
                    match decode_at(s, mid) {
                        Ok((v, next)) => {
                            d.insert(key, v);
                            at = next;
                        },
                        Err(e) => {
                            return Err(e);
                        },
                    }
                },
            }
        }
    } else {
        Err(ParseError::MalformedEncoding)
    }
}

/// Decodes `bytes`, which hold the encoding of one value and nothing else.
/// Anything else is refused as malformed: input that ends early, a numeral
/// with a leading zero or `-0`, a number beyond 64 bits, a length that is
/// no numeral or reaches past the end, a container without its closing
/// `e`, a dictionary key that is no byte string, bytes left over.
pub fn decode(bytes: &[u8]) -> (r: Result<Value, ParseError>)
    ensures
        match r {
            Ok(v) => decode_spec(bytes@) == Some(v@) && v@.wf(),
            Err(e) => e == ParseError::MalformedEncoding && decode_spec(bytes@) is None,
        },
{
    match decode_at(bytes, 0) {
        Ok((v, end)) => {
            if end == bytes.len() {
                Ok(v)
            } else {
                Err(ParseError::MalformedEncoding)
            }
        },
        Err(e) => Err(e),
    }
}

impl Value {
    /// A copy of this value.
    fn duplicate(&self) -> (res: Value)
        ensures
            res@ == self@,
        decreases self,
    {
        match self {
            Value::Integer(n) => Value::Integer(*n),
            Value::ByteString(b) => Value::ByteString(b.clone()),
            Value::List(items) => {
                let mut copies: Vec<Value> = Vec::new();
                let mut i: usize = 0;
                while i < items.len()
                    invariant
                        i <= items.len(),
                        *self == Value::List(*items),
                        copies@.len() == i,
                        forall|k: int| 0 <= k < i ==> (#[trigger] copies@[k])@ == items[k]@,
                    decreases items.len() - i,
                {
                    assert(self->List_0 == *items);
                    assert(decreases_to!(*self => self->List_0));
                    copies.push(items[i].duplicate());
                    i += 1;
                }
                let res = Value::List(copies);
                proof {
                    lemma_view_list(*items);
                    lemma_view_list(copies);
                    assert(res@->List_0 =~= self@->List_0);
                }
                res
            },
            Value::Dict(d) => {
                let mut copies: Vec<(Vec<u8>, Value)> = Vec::new();
                let mut i: usize = 0;
                while i < d.entries.len()
                    invariant
                        i <= d.entries.len(),
                        *self == Value::Dict(*d),
                        copies@.len() == i,
                        forall|k: int|
                            0 <= k < i ==> (#[trigger] copies@[k]).0@ == d.entries[k].0@
                                && copies@[k].1@ == d.entries[k].1@,
                    decreases d.entries.len() - i,
                {
                    assert(self->Dict_0 == *d);
                    assert(decreases_to!(*self => self->Dict_0));
                    assert(decreases_to!(*d => d.entries));
                    assert(decreases_to!(d.entries => d.entries[i as int]));
                    assert(decreases_to!(d.entries[i as int] => d.entries[i as int].1));
                    let key = d.entries[i].0.clone();
                    let value = d.entries[i].1.duplicate();
                    copies.push((key, value));
                    i += 1;
                }
                let copy = Dict { entries: copies };
                let res = Value::Dict(copy);
                proof {
                    lemma_view_dict(*d);
                    lemma_view_dict(copy);
                    assert(copy@ =~= d@);
                }
                res
            },
        }
    }

    /// Whether this value and `other` stand for the same tree.
    fn same(&self, other: &Value) -> (r: bool)
        ensures
            r == (self@ == other@),
        decreases self,
    {
        match (self, other) {
            (Value::Integer(a), Value::Integer(b)) => *a == *b,
            (Value::ByteString(a), Value::ByteString(b)) => key_eq(a.as_slice(), b.as_slice()),
            (Value::List(a), Value::List(b)) => {
                proof {
                    lemma_view_list(*a);
                    lemma_view_list(*b);
                }
                if a.len() != b.len() {
                    return false;
                }
                let mut i: usize = 0;
                while i < a.len()
                    invariant
                        i <= a.len(),
                        a.len() == b.len(),
                        *self == Value::List(*a),
                        *other == Value::List(*b),
                        self@ is List,
                        other@ is List,
                        self@->List_0.len() == a.len(),
                        other@->List_0.len() == b.len(),
                        forall|k: int| 0 <= k < a.len() ==> self@->List_0[k] == a[k]@,
                        forall|k: int| 0 <= k < b.len() ==> other@->List_0[k] == b[k]@,
                        forall|k: int| 0 <= k < i ==> a[k]@ == b[k]@,
                    decreases a.len() - i,
                {
                    assert(self->List_0 == *a);
                    assert(decreases_to!(*self => self->List_0));
                    if !a[i].same(&b[i]) {
                        assert(self@->List_0[i as int] != other@->List_0[i as int]);
                        return false;
                    }
                    i += 1;
                }
                assert(self@->List_0 =~= other@->List_0);
                true
            },
            (Value::Dict(a), Value::Dict(b)) => {
                proof {
                    lemma_view_dict(*a);
                    lemma_view_dict(*b);
                }
                if a.entries.len() != b.entries.len() {
                    return false;
                }
                let mut i: usize = 0;
                while i < a.entries.len()
                    invariant
                        i <= a.entries.len(),
                        a.entries.len() == b.entries.len(),
                        *self == Value::Dict(*a),
                        *other == Value::Dict(*b),
                        self@ == ValueView::Dict(a@),
                        other@ == ValueView::Dict(b@),
                        a@.len() == a.entries.len(),
                        b@.len() == b.entries.len(),
                        forall|k: int|
                            0 <= k < a.entries.len() ==> a@[k] == (
                                a.entries[k].0@,
                                a.entries[k].1@,
                            ),
                        forall|k: int|
                            0 <= k < b.entries.len() ==> b@[k] == (
                                b.entries[k].0@,
                                b.entries[k].1@,
                            ),
                        forall|k: int| 0 <= k < i ==> a@[k] == b@[k],
                    decreases a.entries.len() - i,
                {
                    assert(self->Dict_0 == *a);
                    assert(decreases_to!(*self => self->Dict_0));
                    assert(decreases_to!(*a => a.entries));
                    assert(decreases_to!(a.entries => a.entries[i as int]));
                    assert(decreases_to!(a.entries[i as int] => a.entries[i as int].1));
                    if !key_eq(a.entries[i].0.as_slice(), b.entries[i].0.as_slice())
                        || !a.entries[i].1.same(&b.entries[i].1) {
                        assert(a@[i as int] != b@[i as int]);
                        return false;
                    }
                    i += 1;
                }
                assert(a@ =~= b@);
                true
            },
            _ => false,
        }
    }
}

impl Clone for Value {
    fn clone(&self) -> (res: Value)
        ensures
            res@ == self@,
    {
        self.duplicate()
    }
}

impl Clone for Dict {
    fn clone(&self) -> (res: Dict)
        ensures
            res@ == self@,
    {
        let mut copies: Vec<(Vec<u8>, Value)> = Vec::new();
        let mut i: usize = 0;
        while i < self.entries.len()
            invariant
                i <= self.entries.len(),
                copies@.len() == i,
                forall|k: int|
                    0 <= k < i ==> (#[trigger] copies@[k]).0@ == self.entries[k].0@
                        && copies@[k].1@ == self.entries[k].1@,
            decreases self.entries.len() - i,
        {
            let key = self.entries[i].0.clone();
            let value = self.entries[i].1.duplicate();
            copies.push((key, value));
            i += 1;
        }
        let res = Dict { entries: copies };
        assert(res@ =~= self@);
        res
    }
}

impl PartialEq for Value {
    fn eq(&self, other: &Value) -> (r: bool) {
        self.same(other)
    }
}

impl PartialEqSpecImpl for Value {
    open spec fn obeys_eq_spec() -> bool {
        true
    }

    open spec fn eq_spec(&self, other: &Value) -> bool {
        self@ == other@
    }
}

impl Eq for Value {

}

impl PartialEq for Dict {
    fn eq(&self, other: &Dict) -> (r: bool) {
        if self.entries.len() != other.entries.len() {
            assert(self@.len() != other@.len());
            return false;
        }
        let mut i: usize = 0;
        while i < self.entries.len()
            invariant
                i <= self.entries.len(),
                self.entries.len() == other.entries.len(),
                forall|k: int| 0 <= k < i ==> self@[k] == other@[k],
            decreases self.entries.len() - i,
        {
            if !key_eq(self.entries[i].0.as_slice(), other.entries[i].0.as_slice())
                || !self.entries[i].1.same(&other.entries[i].1) {
                assert(self@[i as int] != other@[i as int]);
                return false;
            }
            assert(self@[i as int] == other@[i as int]);
            i += 1;
        }
        assert(self@ =~= other@);
        true
    }
}

impl PartialEqSpecImpl for Dict {
    open spec fn obeys_eq_spec() -> bool {
        true
    }

    open spec fn eq_spec(&self, other: &Dict) -> bool {
        self@ == other@
    }
}

impl Eq for Dict {

}

} // verus!
