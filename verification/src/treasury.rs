//! Dividing a treasury between the pieces of a split territory.
//!
//! Each piece gets its share in proportion to its tile count, rounded toward
//! zero; the piece that inherits the territory takes whatever rounding left
//! over, so a split never creates or destroys value.

use vstd::prelude::*;

verus! {

/// The proportional share of `amount` for a piece of `size` tiles out of
/// `total`, rounded toward zero; nothing when there are no tiles at all.
pub open spec fn share_spec(amount: int, size: int, total: int) -> int {
    if total <= 0 {
        0
    } else if amount >= 0 {
        (amount * size) / total
    } else {
        -(((-amount) * size) / total)
    }
}

pub open spec fn sum_sizes(s: Seq<usize>) -> int
    decreases s.len(),
{
    if s.len() == 0 {
        0
    } else {
        sum_sizes(s.drop_last()) + s.last()
    }
}

pub open spec fn sum_parts(s: Seq<i32>) -> int
    decreases s.len(),
{
    if s.len() == 0 {
        0
    } else {
        sum_parts(s.drop_last()) + s.last()
    }
}

proof fn lemma_sum_sizes_take(s: Seq<usize>, i: int)
    requires
        0 <= i < s.len(),
    ensures
        sum_sizes(s.take(i + 1)) == sum_sizes(s.take(i)) + s[i],
{
    assert(s.take(i + 1).drop_last() =~= s.take(i));
}

proof fn lemma_sum_parts_take(s: Seq<i32>, i: int)
    requires
        0 <= i < s.len(),
    ensures
        sum_parts(s.take(i + 1)) == sum_parts(s.take(i)) + s[i],
{
    assert(s.take(i + 1).drop_last() =~= s.take(i));
}

proof fn lemma_sum_sizes_nonneg(s: Seq<usize>)
    ensures
        sum_sizes(s) >= 0,
    decreases s.len(),
{
    if s.len() > 0 {
        lemma_sum_sizes_nonneg(s.drop_last());
    }
}

proof fn lemma_sum_sizes_le(s: Seq<usize>, i: int)
    requires
        0 <= i <= s.len(),
    ensures
        sum_sizes(s.take(i)) <= sum_sizes(s),
        s.len() > 0 && i < s.len() ==> s[i] <= sum_sizes(s),
    decreases s.len() - i,
{
    if i < s.len() {
        lemma_sum_sizes_take(s, i);
        lemma_sum_sizes_le(s, i + 1);
        lemma_sum_sizes_nonneg(s.take(i));
    } else {
        assert(s.take(i) =~= s);
    }
}

/// The share bounds: toward zero, never past the proportional value.
proof fn lemma_share_bounds(amount: int, size: int, total: int)
    requires
        0 <= size <= total,
        total > 0,
    ensures
        amount >= 0 ==> 0 <= share_spec(amount, size, total) <= amount,
        amount >= 0 ==> total * share_spec(amount, size, total) <= amount * size,
        amount < 0 ==> amount <= share_spec(amount, size, total) <= 0,
        amount < 0 ==> total * share_spec(amount, size, total) >= amount * size,
{
    if amount >= 0 {
        let q = (amount * size) / total;
        assert(0 <= amount * size) by (nonlinear_arith)
            requires amount >= 0, size >= 0;
        assert(total * q <= amount * size && q >= 0) by (nonlinear_arith)
            requires q == (amount * size) / total, total > 0, amount * size >= 0;
        assert(q <= amount) by (nonlinear_arith)
            requires total * q <= amount * size, size <= total, amount >= 0, total > 0, q >= 0;
    } else {
        let b = -amount;
        let q = (b * size) / total;
        assert(0 <= b * size) by (nonlinear_arith)
            requires b > 0, size >= 0;
        assert(total * q <= b * size && q >= 0) by (nonlinear_arith)
            requires q == (b * size) / total, total > 0, b * size >= 0;
        assert(q <= b) by (nonlinear_arith)
            requires total * q <= b * size, size <= total, b > 0, total > 0, q >= 0;
        assert(total * (-q) >= amount * size) by (nonlinear_arith)
            requires total * q <= b * size, b == -amount;
    }
}

/// The share of one piece, computed exactly.
fn share(amount: i32, size: usize, total: u128) -> (s: i32)
    requires
        size <= total,
        total <= u64::MAX,
    ensures
        s == share_spec(amount as int, size as int, total as int),
{
    if total == 0 {
        return 0;
    }
    proof {
        lemma_share_bounds(amount as int, size as int, total as int);
    }
    let a = amount as i128;
    let n = size as i128;
    let t = total as i128;
    if a >= 0 {
        assert(0 <= a * n <= 0x8000_0000 * 0x1_0000_0000_0000_0000) by (nonlinear_arith)
            requires 0 <= a <= 0x7fff_ffff, 0 <= n <= 0xffff_ffff_ffff_ffff;
        let q = (a * n) / t;
        q as i32
    } else {
        let b = -a;
        assert(0 <= b * n <= 0x8000_0000 * 0x1_0000_0000_0000_0000) by (nonlinear_arith)
            requires 0 < b <= 0x8000_0000, 0 <= n <= 0xffff_ffff_ffff_ffff;
        let q = (b * n) / t;
        (-q) as i32
    }
}

/// Divide `amount` between pieces of the given sizes: every piece but the
/// heir gets its proportional share, and the heir takes the rest, so the
/// parts add up to `amount` exactly.
pub fn divide(amount: i32, sizes: &Vec<usize>, heir: usize) -> (parts: Vec<i32>)
    requires
        heir < sizes@.len(),
        sum_sizes(sizes@) <= u64::MAX,
    ensures
        parts@.len() == sizes@.len(),
        sum_parts(parts@) == amount,
        forall|i: int| 0 <= i < sizes@.len() && i != heir ==> #[trigger] parts@[i] == share_spec(
            amount as int,
            sizes@[i] as int,
            sum_sizes(sizes@),
        ),
{
    let n = sizes.len();
    let mut total: u128 = 0;
    let mut i: usize = 0;
    while i < n
        invariant
            n == sizes@.len(),
            i <= n,
            total == sum_sizes(sizes@.take(i as int)),
            sum_sizes(sizes@) <= u64::MAX,
        decreases n - i,
    {
        proof {
            lemma_sum_sizes_take(sizes@, i as int);
            lemma_sum_sizes_le(sizes@, i + 1);
        }
        total = total + sizes[i] as u128;
        i = i + 1;
    }
    proof {
        assert(sizes@.take(n as int) =~= sizes@);
    }
    let ghost t = total as int;
    let ghost a = amount as int;
    let mut parts: Vec<i32> = Vec::new();
    let mut others: i64 = 0;
    let ghost mut counted: int = 0;
    let mut i: usize = 0;
    while i < n
        invariant
            n == sizes@.len(),
            heir < n,
            t == sum_sizes(sizes@),
            t == total,
            total <= u64::MAX,
            a == amount,
            i <= n,
            parts@.len() == i,
            forall|j: int| 0 <= j < i && j != heir ==> #[trigger] parts@[j] == share_spec(a, sizes@[j] as int, t),
            forall|j: int| 0 <= j < i && j == heir ==> #[trigger] parts@[j] == share_spec(a, sizes@[j] as int, t),
            others == sum_parts(parts@) - (if heir < i { parts@[heir as int] as int } else { 0 }),
            0 <= counted <= sum_sizes(sizes@.take(i as int)),
            t > 0 && a >= 0 ==> 0 <= others && t * others <= a * counted,
            t > 0 && a < 0 ==> others <= 0 && t * others >= a * counted,
            t == 0 ==> others == 0,
        decreases n - i,
    {
        proof {
            lemma_sum_sizes_le(sizes@, i as int);
            lemma_sum_sizes_le(sizes@, i + 1);
            lemma_sum_sizes_take(sizes@, i as int);
            lemma_sum_parts_take(parts@.push(0), i as int);
        }
        let s = share(amount, sizes[i], total);
        let ghost before = parts@;
        parts.push(s);
        proof {
            lemma_sum_parts_take(parts@, i as int);
            assert(parts@.take(i as int) =~= before);
            assert(parts@.take(i + 1) =~= parts@);
            if t > 0 {
                lemma_share_bounds(a, sizes@[i as int] as int, t);
            }
        }
        if i != heir {
            proof {
                let sz = sizes@[i as int] as int;
                if t > 0 && a >= 0 {
                    assert(t * (others + s) <= a * (counted + sz)) by (nonlinear_arith)
                        requires t * others <= a * counted, t * s <= a * sz;
                } else if t > 0 {
                    assert(t * (others + s) >= a * (counted + sz)) by (nonlinear_arith)
                        requires t * others >= a * counted, t * s >= a * sz;
                }
                counted = counted + sz;
                if t > 0 && a >= 0 {
                    assert(t * others <= a * t) by (nonlinear_arith)
                        requires t * others <= a * (counted - sz), counted - sz <= t, a >= 0, t > 0;
                    assert(others <= a) by (nonlinear_arith)
                        requires t * others <= a * t, t > 0;
                } else if t > 0 {
                    assert(t * others >= a * t) by (nonlinear_arith)
                        requires t * others >= a * (counted - sz), counted - sz <= t, a < 0, t > 0;
                    assert(others >= a) by (nonlinear_arith)
                        requires t * others >= a * t, t > 0;
                }
            }
            others = others + s as i64;
        }
        i = i + 1;
    }
    proof {
        assert(parts@.take(n as int) =~= parts@);
        if t > 0 && a >= 0 {
            assert(t * others <= a * t) by (nonlinear_arith)
                requires t * others <= a * counted, counted <= t, a >= 0, t > 0;
            assert(others <= a) by (nonlinear_arith)
                requires t * others <= a * t, t > 0;
        } else if t > 0 {
            assert(t * others >= a * t) by (nonlinear_arith)
                requires t * others >= a * counted, counted <= t, a < 0, t > 0;
            assert(others >= a) by (nonlinear_arith)
                requires t * others >= a * t, t > 0;
        }
    }
    let rest = (amount as i64 - others) as i32;
    let ghost before = parts@;
    parts.set(heir, rest);
    proof {
        lemma_sum_update(before, heir as int, rest, n - 1);
        assert(before.take(n as int) =~= before);
        assert(parts@.take(n as int) =~= parts@);
    }
    parts
}

proof fn lemma_sum_update(s: Seq<i32>, k: int, v: i32, j: int)
    requires
        0 <= k < s.len(),
        0 <= j < s.len(),
    ensures
        sum_parts(s.update(k, v).take(j + 1)) == sum_parts(s.take(j + 1)) + (if k <= j { v - s[k] } else { 0 }),
    decreases j,
{
    lemma_sum_parts_take(s.update(k, v), j);
    lemma_sum_parts_take(s, j);
    if j > 0 {
        lemma_sum_update(s, k, v, j - 1);
    } else {
        assert(s.update(k, v).take(0) =~= s.take(0));
    }
}

} // verus!
