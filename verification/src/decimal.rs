//! ASCII decimal numerals.

use vstd::prelude::*;

verus! {

/// Whether `b` is one of the ASCII digits `0` to `9`.
pub open spec fn is_digit(b: u8) -> bool {
    48 <= b <= 57
}

/// Whether every byte of `ds` is a digit.
pub open spec fn all_digits(ds: Seq<u8>) -> bool {
    forall|i: int| 0 <= i < ds.len() ==> is_digit(#[trigger] ds[i])
}

/// The decimal numeral of `n`, without leading zeros.
pub open spec fn nat_digits(n: nat) -> Seq<u8>
    decreases n,
{
    if n < 10 {
        seq![(48 + n) as u8]
    } else {
        nat_digits(n / 10).push((48 + n % 10) as u8)
    }
}

/// The decimal numeral of `n`, with `-` in front of a negative number.
pub open spec fn int_digits(n: int) -> Seq<u8> {
    if n < 0 {
        seq![45u8] + nat_digits((-n) as nat)
    } else {
        nat_digits(n as nat)
    }
}

/// The number that the digits `ds` write, the empty numeral counting as 0.
pub open spec fn digits_value(ds: Seq<u8>) -> nat
    decreases ds.len(),
{
    if ds.len() == 0 {
        0
    } else {
        digits_value(ds.drop_last()) * 10 + (ds.last() - 48) as nat
    }
}

/// The first place at or after `pos` where `s` holds no digit.
pub open spec fn digits_end(s: Seq<u8>, pos: int) -> int
    decreases s.len() - pos,
{
    if 0 <= pos < s.len() && is_digit(s[pos]) {
        digits_end(s, pos + 1)
    } else {
        pos
    }
}

/// A numeral is made of digits, is not empty, starts with `0` only when it
/// is `0`, and writes the number it was made from.
pub proof fn lemma_nat_digits(n: nat)
    ensures
        nat_digits(n).len() >= 1,
        all_digits(nat_digits(n)),
        nat_digits(n)[0] == 48 ==> n == 0,
        n == 0 ==> nat_digits(n) == seq![48u8],
        digits_value(nat_digits(n)) == n,
    decreases n,
{
    if n < 10 {
        let ds = nat_digits(n);
        assert(ds.drop_last() =~= Seq::<u8>::empty());
        assert(digits_value(ds.drop_last()) == 0);
    } else {
        lemma_nat_digits(n / 10);
        let ds = nat_digits(n);
        assert(ds.drop_last() =~= nat_digits(n / 10));
        assert(ds[0] == nat_digits(n / 10)[0]);
    }
}

/// A run of digits that is followed by no digit ends where it stops.
pub proof fn lemma_digits_end(s: Seq<u8>, pos: int, end: int)
    requires
        0 <= pos <= end <= s.len(),
        all_digits(s.subrange(pos, end)),
        end < s.len() ==> !is_digit(s[end]),
    ensures
        digits_end(s, pos) == end,
    decreases end - pos,
{
    if pos < end {
        assert(s[pos] == s.subrange(pos, end)[0]);
        assert forall|i: int| 0 <= i < end - (pos + 1) implies is_digit(
            #[trigger] s.subrange(pos + 1, end)[i],
        ) by {
            assert(s.subrange(pos + 1, end)[i] == s.subrange(pos, end)[i + 1]);
        }
        lemma_digits_end(s, pos + 1, end);
    }
}

/// Where a run of digits ends: not before its start, within the input, and
/// with digits only in between.
pub proof fn lemma_digits_end_bounds(s: Seq<u8>, pos: int)
    requires
        0 <= pos <= s.len(),
    ensures
        pos <= digits_end(s, pos) <= s.len(),
        all_digits(s.subrange(pos, digits_end(s, pos))),
        digits_end(s, pos) < s.len() ==> !is_digit(s[digits_end(s, pos)]),
    decreases s.len() - pos,
{
    if pos < s.len() && is_digit(s[pos]) {
        lemma_digits_end_bounds(s, pos + 1);
        let end = digits_end(s, pos);
        assert forall|i: int| 0 <= i < end - pos implies is_digit(
            #[trigger] s.subrange(pos, end)[i],
        ) by {
            if i > 0 {
                assert(s.subrange(pos, end)[i] == s.subrange(pos + 1, end)[i - 1]);
            }
        }
    }
}

/// Appends the numeral of `n` to `out`.
pub fn push_nat(out: &mut Vec<u8>, n: u64)
    ensures
        final(out)@ == old(out)@ + nat_digits(n as nat),
    decreases n,
{
    if n >= 10 {
        push_nat(out, n / 10);
    }
    let d: u8 = (n % 10) as u8;
    out.push(48 + d);
    proof {
        if n < 10 {
            assert(final(out)@ =~= old(out)@ + nat_digits(n as nat));
        } else {
            assert(final(out)@ =~= old(out)@ + nat_digits(n as nat));
        }
    }
}

/// Appends the numeral of `n` to `out`.
pub fn push_int(out: &mut Vec<u8>, n: i64)
    ensures
        final(out)@ == old(out)@ + int_digits(n as int),
{
    if n < 0 {
        out.push(45);
        let m: u64 = ((-(n + 1)) as u64) + 1;
        push_nat(out, m);
        assert(final(out)@ =~= old(out)@ + int_digits(n as int));
    } else {
        push_nat(out, n as u64);
    }
}

/// Reads the run of digits of `s` that starts at `pos`. Returns where it
/// ends and the number it writes, or `None` for a number above `u64::MAX`.
pub(crate) fn read_digits(s: &[u8], pos: usize) -> (r: (usize, Option<u64>))
    requires
        pos <= s@.len(),
    ensures
        r.0 == digits_end(s@, pos as int),
        pos <= r.0 <= s@.len(),
        match r.1 {
            Some(v) => v == digits_value(s@.subrange(pos as int, r.0 as int)),
            None => digits_value(s@.subrange(pos as int, r.0 as int)) > u64::MAX,
        },
{
    let mut i: usize = pos;
    let mut value: Option<u64> = Some(0);
    proof {
        assert(s@.subrange(pos as int, pos as int) =~= Seq::<u8>::empty());
    }
    while i < s.len() && 48 <= s[i] && s[i] <= 57
        invariant
            pos <= i <= s@.len(),
            digits_end(s@, pos as int) == digits_end(s@, i as int),
            match value {
                Some(v) => v == digits_value(s@.subrange(pos as int, i as int)),
                None => digits_value(s@.subrange(pos as int, i as int)) > u64::MAX,
            },
        decreases s@.len() - i,
    {
        let d: u64 = (s[i] - 48) as u64;
        proof {
            let next = s@.subrange(pos as int, i + 1);
            assert(next.drop_last() =~= s@.subrange(pos as int, i as int));
            assert(next.last() == s@[i as int]);
        }
        value = match value {
            Some(v) => if v <= (u64::MAX - d) / 10 {
                Some(v * 10 + d)
            } else {
                None
            },
            None => None,
        };
        i += 1;
    }
    (i, value)
}

} // verus!
