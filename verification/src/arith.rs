//! Bounded arithmetic on treasuries and counters.
//!
//! Gold, wheat and statistics are machine integers. Where a sum could leave
//! the type's range, the value is held at the nearest bound instead, and the
//! contracts say so through the spec functions below.

use vstd::prelude::*;
use vstd::string::*;

verus! {

/// `x` held within the range of `i32`.
pub open spec fn clamp32(x: int) -> i32 {
    if x < i32::MIN {
        i32::MIN
    } else if x > i32::MAX {
        i32::MAX
    } else {
        x as i32
    }
}

/// `x` held within the range of `u32` (never below zero for the callers here).
pub open spec fn cap_u32(x: int) -> u32 {
    if x > u32::MAX {
        u32::MAX
    } else if x < 0 {
        0
    } else {
        x as u32
    }
}

/// `x` held within the range of `u64`.
pub open spec fn cap_u64(x: int) -> u64 {
    if x > u64::MAX {
        u64::MAX
    } else if x < 0 {
        0
    } else {
        x as u64
    }
}

pub fn clamp_i64(x: i64) -> (r: i32)
    ensures
        r == clamp32(x as int),
{
    if x < i32::MIN as i64 {
        i32::MIN
    } else if x > i32::MAX as i64 {
        i32::MAX
    } else {
        x as i32
    }
}

/// `a + b`, held within `i32`.
pub fn add32(a: i32, b: i32) -> (r: i32)
    ensures
        r == clamp32(a + b),
{
    clamp_i64(a as i64 + b as i64)
}

/// `a - b`, held within `i32`.
pub fn sub32(a: i32, b: i32) -> (r: i32)
    ensures
        r == clamp32(a - b),
{
    clamp_i64(a as i64 - b as i64)
}

/// `a + 1`, held at `u32::MAX`.
pub fn inc32(a: u32) -> (r: u32)
    ensures
        r == cap_u32(a + 1),
{
    if a == u32::MAX {
        a
    } else {
        a + 1
    }
}

/// `a + b`, held at `u64::MAX`.
pub fn add64(a: u64, b: u64) -> (r: u64)
    ensures
        r == cap_u64(a + b),
{
    if a > u64::MAX - b {
        u64::MAX
    } else {
        a + b
    }
}

/// The larger of two counters.
pub fn max32(a: u32, b: u32) -> (r: u32)
    ensures
        r == (if a >= b { a } else { b }),
{
    if a >= b {
        a
    } else {
        b
    }
}

/// The decimal digits of `n`, most significant first; `"0"` for zero.
pub open spec fn decimal(n: nat) -> Seq<char>
    decreases n,
{
    if n < 10 {
        seq![digit_char(n)]
    } else {
        decimal(n / 10).push(digit_char(n % 10))
    }
}

pub open spec fn digit_char(d: nat) -> char {
    if d == 0 {
        '0'
    } else if d == 1 {
        '1'
    } else if d == 2 {
        '2'
    } else if d == 3 {
        '3'
    } else if d == 4 {
        '4'
    } else if d == 5 {
        '5'
    } else if d == 6 {
        '6'
    } else if d == 7 {
        '7'
    } else if d == 8 {
        '8'
    } else {
        '9'
    }
}


fn digit_str(d: u64) -> (s: &'static str)
    requires
        d < 10,
    ensures
        s@ == seq![digit_char(d as nat)],
{
    if d == 0 {
        proof { reveal_strlit("0"); }
        "0"
    } else if d == 1 {
        proof { reveal_strlit("1"); }
        "1"
    } else if d == 2 {
        proof { reveal_strlit("2"); }
        "2"
    } else if d == 3 {
        proof { reveal_strlit("3"); }
        "3"
    } else if d == 4 {
        proof { reveal_strlit("4"); }
        "4"
    } else if d == 5 {
        proof { reveal_strlit("5"); }
        "5"
    } else if d == 6 {
        proof { reveal_strlit("6"); }
        "6"
    } else if d == 7 {
        proof { reveal_strlit("7"); }
        "7"
    } else if d == 8 {
        proof { reveal_strlit("8"); }
        "8"
    } else {
        proof { reveal_strlit("9"); }
        "9"
    }
}

/// `n` written in decimal, as `to_string` writes it.
pub fn decimal_string(n: u64) -> (s: String)
    ensures
        s@ == decimal(n as nat),
    decreases n,
{
    if n < 10 {
        digit_str(n).to_owned()
    } else {
        let mut s = decimal_string(n / 10);
        s.append(digit_str(n % 10));
        s
    }
}

/// `text` followed by `n` in decimal.
pub fn join_num(text: String, n: u64) -> (s: String)
    ensures
        s@ == text@ + decimal(n as nat),
{
    let d = decimal_string(n);
    join(text, d.as_str())
}

/// `text` followed by `more`.
pub fn join(text: String, more: &str) -> (s: String)
    ensures
        s@ == text@ + more@,
{
    let mut s = text;
    s.append(more);
    s
}

} // verus!
