//! Reading and writing unsigned decimal numbers, as `str::parse` and
//! `to_string` do for the unsigned integer types.

use vstd::prelude::*;

use crate::text::{chars_of, is_ascii_digit, is_digit};

verus! {

/// The value of the decimal digits `s`.
pub open spec fn digits_value(s: Seq<char>) -> nat
    decreases s.len(),
{
    if s.len() == 0 {
        0
    } else {
        (digits_value(s.drop_last()) * 10 + (s.last() as int - '0' as int)) as nat
    }
}

/// Whether every character of `t` is an ASCII digit.
pub open spec fn all_digits(t: Seq<char>) -> bool {
    forall|k: int| 0 <= k < t.len() ==> is_digit(#[trigger] t[k])
}

/// The digits that an unsigned number in `s` is written with: `s` without
/// one leading `+` (when something follows it), provided what remains is a
/// non-empty run of ASCII digits.
pub open spec fn unsigned_digits(s: Seq<char>) -> Option<Seq<char>> {
    let t = if s.len() > 1 && s[0] == '+' {
        s.drop_first()
    } else {
        s
    };
    if t.len() > 0 && all_digits(t) {
        Some(t)
    } else {
        None
    }
}

/// The unsigned number `s` spells, when it is at most `max` (what
/// `str::parse` gives for an unsigned integer type with maximum `max`).
pub open spec fn parse_unsigned(s: Seq<char>, max: nat) -> Option<nat> {
    match unsigned_digits(s) {
        Some(t) => if digits_value(t) <= max {
            Some(digits_value(t))
        } else {
            None
        },
        None => None,
    }
}

pub proof fn lemma_digits_value_grows(s: Seq<char>, k: int)
    requires
        0 <= k <= s.len(),
        forall|j: int| 0 <= j < s.len() ==> is_digit(#[trigger] s[j]),
    ensures
        digits_value(s.take(k)) <= digits_value(s),
    decreases s.len() - k,
{
    if k < s.len() {
        lemma_digits_value_grows(s, k + 1);
        assert(s.take(k + 1).drop_last() =~= s.take(k));
    } else {
        assert(s.take(k) =~= s);
    }
}

/// The unsigned number spelled by `s`, when it is at most `max`.
fn parse_bounded(s: &str, max: u64) -> (r: Option<u64>)
    requires
        max >= 9,
    ensures
        match r {
            Some(v) => parse_unsigned(s@, max as nat) == Some(v as nat),
            None => parse_unsigned(s@, max as nat).is_none(),
        },
{
    let cs = chars_of(s);
    let start: usize = if cs.len() > 1 && cs[0] == '+' {
        1
    } else {
        0
    };
    let ghost t = if cs@.len() > 1 && cs@[0] == '+' {
        cs@.drop_first()
    } else {
        cs@
    };
    assert(t =~= cs@.skip(start as int));
    assert(cs@ == s@);
    if start >= cs.len() {
        return None;
    }
    for k in start..cs.len()
        invariant
            t == cs@.skip(start as int),
            start <= cs@.len(),
            forall|j: int| 0 <= j < k - start ==> is_digit(#[trigger] t[j]),
            unsigned_digits(s@) == if t.len() > 0 && all_digits(t) {
                Some(t)
            } else {
                None
            },
    {
        assert(t[k - start] == cs@[k as int]);
        if !is_ascii_digit(cs[k]) {
            assert(!is_digit(t[k - start]));
            return None;
        }
    }
    let mut acc: u64 = 0;
    for k in start..cs.len()
        invariant
            t == cs@.skip(start as int),
            start <= cs@.len(),
            t.len() > 0,
            forall|j: int| 0 <= j < t.len() ==> is_digit(#[trigger] t[j]),
            acc as nat == digits_value(t.take(k - start)),
            acc <= max,
            max >= 9,
            unsigned_digits(s@) == Some(t),
    {
        assert(t[k - start] == cs@[k as int]);
        assert(is_digit(t[k - start]));
        let d = (cs[k] as u32 - '0' as u32) as u64;
        assert(t.take(k + 1 - start).drop_last() =~= t.take(k - start));
        assert(t.take(k + 1 - start).last() == cs@[k as int]);
        if acc > (max - d) / 10 {
            proof {
                assert(acc * 10 + d > max) by (nonlinear_arith)
                    requires
                        acc > (max - d) / 10,
                        d <= 9,
                        d <= max || acc > 0,
                ;
                lemma_digits_value_grows(t, k + 1 - start);
            }
            return None;
        }
        assert(acc * 10 + d <= max) by (nonlinear_arith)
            requires
                acc <= (max - d) / 10,
                d <= max,
        ;
        acc = acc * 10 + d;
    }
    assert(t.take(t.len() as int) =~= t);
    Some(acc)
}

/// `s` parsed as a `u32` (`str::parse::<u32>`).
pub fn parse_u32(s: &str) -> (r: Option<u32>)
    ensures
        match r {
            Some(v) => parse_unsigned(s@, u32::MAX as nat) == Some(v as nat),
            None => parse_unsigned(s@, u32::MAX as nat).is_none(),
        },
{
    match parse_bounded(s, u32::MAX as u64) {
        Some(v) => Some(v as u32),
        None => None,
    }
}

/// `s` parsed as a `usize` (`str::parse::<usize>`).
pub fn parse_usize(s: &str) -> (r: Option<usize>)
    ensures
        match r {
            Some(v) => parse_unsigned(s@, usize::MAX as nat) == Some(v as nat),
            None => parse_unsigned(s@, usize::MAX as nat).is_none(),
        },
{
    match parse_bounded(s, usize::MAX as u64) {
        Some(v) => Some(v as usize),
        None => None,
    }
}

} // verus!
