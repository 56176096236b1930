//! Numbers in text, read and written as the standard library does.
use crate::text::{is_digit_spec};
use vstd::prelude::*;
use vstd::slice::*;

verus! {

/// What a character counts for as a digit in base `radix`, up to 16.
pub open spec fn digit_value(c: char, radix: nat) -> Option<nat> {
    let v = if '0' <= c <= '9' {
        Some((c as u32 - '0' as u32) as nat)
    } else if 'a' <= c <= 'f' {
        Some((c as u32 - 'a' as u32 + 10) as nat)
    } else if 'A' <= c <= 'F' {
        Some((c as u32 - 'A' as u32 + 10) as nat)
    } else {
        None
    };
    match v {
        Some(d) => if d < radix {
            Some(d)
        } else {
            None
        },
        None => None,
    }
}

/// Every character is a digit in base `radix`.
pub open spec fn all_digits(s: Seq<char>, radix: nat) -> bool {
    forall|i: int| 0 <= i < s.len() ==> (#[trigger] digit_value(s[i], radix)) is Some
}

/// The number that a row of digits writes in base `radix`.
pub open spec fn value_of(s: Seq<char>, radix: nat) -> nat
    decreases s.len(),
{
    if s.len() == 0 {
        0
    } else {
        value_of(s.drop_last(), radix) * radix + digit_value(s.last(), radix).unwrap_or(0)
    }
}

/// The digits of `s` after an optional `+`.
pub open spec fn after_plus(s: Seq<char>) -> Seq<char> {
    if s.len() > 0 && s[0] == '+' {
        s.drop_first()
    } else {
        s
    }
}

/// The unsigned number that `s` writes: an optional `+`, then at least one digit and
/// nothing else, of a value up to `max`.
pub open spec fn parsed_nat(s: Seq<char>, radix: nat, max: nat) -> Option<nat> {
    let body = after_plus(s);
    if body.len() > 0 && all_digits(body, radix) && value_of(body, radix) <= max {
        Some(value_of(body, radix))
    } else {
        None
    }
}

/// The signed 32-bit number that `s` writes.
pub open spec fn parsed_i32(s: Seq<char>) -> Option<int> {
    if s.len() > 0 && s[0] == '-' {
        let body = s.drop_first();
        if body.len() > 0 && all_digits(body, 10) && value_of(body, 10) <= 0x8000_0000 {
            Some(-(value_of(body, 10) as int))
        } else {
            None
        }
    } else {
        match parsed_nat(s, 10, 0x7fff_ffff) {
            Some(v) => Some(v as int),
            None => None,
        }
    }
}

/// More digits never make a smaller number.
pub proof fn lemma_value_grows(s: Seq<char>, radix: nat, i: int)
    requires
        0 <= i <= s.len(),
        radix >= 1,
    ensures
        value_of(s.take(i), radix) <= value_of(s, radix),
    decreases s.len(),
{
    if i == s.len() {
        assert(s.take(i) =~= s);
    } else {
        lemma_value_grows(s.drop_last(), radix, i);
        assert(s.drop_last().take(i) =~= s.take(i));
        let v = value_of(s.drop_last(), radix);
        assert(v * radix >= v) by (nonlinear_arith)
            requires
                radix >= 1,
        ;
    }
}

fn digit(c: char, radix: u64) -> (r: Option<u64>)
    ensures
        match r {
            Some(d) => digit_value(c, radix as nat) == Some(d as nat),
            None => digit_value(c, radix as nat) is None,
        },
{
    let u: u32 = c as u32;
    let v: u64 = if '0' <= c && c <= '9' {
        (u - 48) as u64
    } else if 'a' <= c && c <= 'f' {
        (u - 97 + 10) as u64
    } else if 'A' <= c && c <= 'F' {
        (u - 65 + 10) as u64
    } else {
        return None;
    };
    if v < radix {
        Some(v)
    } else {
        None
    }
}

/// The number that a non-empty row of digits writes, if it is at most `max`.
fn digits(s: &[char], radix: u64, max: u64) -> (r: Option<u64>)
    requires
        2 <= radix <= 16,
    ensures
        match r {
            Some(v) => s@.len() > 0 && all_digits(s@, radix as nat) && value_of(s@, radix as nat)
                == v && v <= max,
            None => s@.len() == 0 || !all_digits(s@, radix as nat) || value_of(s@, radix as nat)
                > max,
        },
{
    if s.len() == 0 {
        return None;
    }
    let mut v: u64 = 0;
    let mut i: usize = 0;
    while i < s.len()
        invariant
            2 <= radix <= 16,
            i <= s.len(),
            v <= max,
            v == value_of(s@.take(i as int), radix as nat),
            forall|j: int| 0 <= j < i ==> (#[trigger] digit_value(s@[j], radix as nat)) is Some,
        decreases s.len() - i,
    {
        match digit(s[i], radix) {
            None => {
                assert(digit_value(s@[i as int], radix as nat) is None);
                return None;
            },
            Some(d) => {
                proof {
                    let t = s@.take(i as int + 1);
                    assert(t.drop_last() =~= s@.take(i as int));
                    assert(t.last() == s@[i as int]);
                    lemma_value_grows(s@, radix as nat, i as int + 1);
                    assert(v * radix + d <= 0xffff_ffff_ffff_ffff * 16 + 16) by (nonlinear_arith)
                        requires
                            v <= 0xffff_ffff_ffff_ffff,
                            radix <= 16,
                            d <= 16,
                    ;
                }
                let w: u128 = (v as u128) * (radix as u128) + (d as u128);
                if w > max as u128 {
                    return None;
                }
                v = w as u64;
            },
        }
        i = i + 1;
    }
    assert(s@.take(i as int) =~= s@);
    Some(v)
}

/// Reads an unsigned number of at most `max`.
pub fn parse_nat(s: &[char], radix: u64, max: u64) -> (r: Option<u64>)
    requires
        2 <= radix <= 16,
    ensures
        match r {
            Some(v) => parsed_nat(s@, radix as nat, max as nat) == Some(v as nat) && v <= max,
            None => parsed_nat(s@, radix as nat, max as nat) is None,
        },
{
    if s.len() > 0 && s[0] == '+' {
        assert(s@.subrange(1, s@.len() as int) =~= s@.drop_first());
        digits(slice_subrange(s, 1, s.len()), radix, max)
    } else {
        digits(s, radix, max)
    }
}

/// Reads a `u32` in decimal.
pub fn parse_u32(s: &[char]) -> (r: Option<u32>)
    ensures
        match r {
            Some(v) => parsed_nat(s@, 10, u32::MAX as nat) == Some(v as nat),
            None => parsed_nat(s@, 10, u32::MAX as nat) is None,
        },
{
    match parse_nat(s, 10, u32::MAX as u64) {
        Some(v) => Some(v as u32),
        None => None,
    }
}

/// Reads a `usize` in decimal.
pub fn parse_usize(s: &[char]) -> (r: Option<usize>)
    ensures
        match r {
            Some(v) => parsed_nat(s@, 10, usize::MAX as nat) == Some(v as nat),
            None => parsed_nat(s@, 10, usize::MAX as nat) is None,
        },
{
    match parse_nat(s, 10, usize::MAX as u64) {
        Some(v) => Some(v as usize),
        None => None,
    }
}

/// Reads an `i32` in decimal.
pub fn parse_i32(s: &[char]) -> (r: Option<i32>)
    ensures
        match r {
            Some(v) => parsed_i32(s@) == Some(v as int),
            None => parsed_i32(s@) is None,
        },
{
    if s.len() > 0 && s[0] == '-' {
        assert(s@.subrange(1, s@.len() as int) =~= s@.drop_first());
        match digits(slice_subrange(s, 1, s.len()), 10, 0x8000_0000) {
            Some(v) => {
                let w: i64 = 0 - (v as i64);
                Some(w as i32)
            },
            None => None,
        }
    } else {
        match parse_nat(s, 10, 0x7fff_ffff) {
            Some(v) => Some(v as i32),
            None => None,
        }
    }
}

/// The decimal digit for `d`.
pub open spec fn digit_char(d: nat) -> char {
    (48 + d) as u8 as char
}

/// `n` in decimal, without leading zeros.
pub open spec fn decimal(n: nat) -> Seq<char>
    decreases n,
{
    if n < 10 {
        seq![digit_char(n)]
    } else {
        decimal(n / 10).push(digit_char(n % 10))
    }
}

/// What is written in decimal reads back as the same number.
pub proof fn lemma_decimal_reads_back(n: nat)
    ensures
        decimal(n).len() > 0,
        all_digits(decimal(n), 10),
        value_of(decimal(n), 10) == n,
        forall|i: int| 0 <= i < decimal(n).len() ==> is_digit_spec(#[trigger] decimal(n)[i]),
    decreases n,
{
    if n < 10 {
        let d = digit_char(n);
        assert(decimal(n).drop_last() =~= Seq::<char>::empty());
        assert(d as u32 == 48 + n);
        assert(digit_value(d, 10) == Some(n));
        assert(value_of(Seq::<char>::empty(), 10) == 0);
        assert(value_of(decimal(n), 10) == n);
    } else {
        lemma_decimal_reads_back(n / 10);
        let d = digit_char(n % 10);
        assert(d as u32 == 48 + n % 10);
        assert(digit_value(d, 10) == Some(n % 10));
        assert(decimal(n).drop_last() =~= decimal(n / 10));
        assert(decimal(n).last() == d);
        assert forall|i: int| 0 <= i < decimal(n).len() implies (#[trigger] digit_value(
            decimal(n)[i],
            10,
        )) is Some && is_digit_spec(decimal(n)[i]) by {
            if i < decimal(n / 10).len() {
                assert(decimal(n)[i] == decimal(n / 10)[i]);
                assert(digit_value(decimal(n / 10)[i], 10) is Some);
            }
        }
    }
}

/// Appends `n` in decimal to `out`.
pub fn push_decimal(out: &mut Vec<char>, n: u64)
    ensures
        final(out)@ == old(out)@ + decimal(n as nat),
    decreases n,
{
    let ghost before = out@;
    if n >= 10 {
        push_decimal(out, n / 10);
    }
    let d: u8 = (48 + n % 10) as u8;
    out.push(d as char);
    proof {
        assert(out@ =~= before + decimal(n as nat));
    }
}

} // verus!
