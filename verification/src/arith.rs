//! Fixed-point arithmetic helpers for the election engine: saturating
//! multiply-then-divide on wide balances, proportion conversions, and the
//! normalization that corrects a rounded distribution so it sums exactly to
//! a targeted total.

use vstd::prelude::*;

verus! {

/// The sum of a sequence of wide balances, as an unbounded integer.
pub open spec fn sum128(s: Seq<u128>) -> int
    decreases s.len(),
{
    if s.len() == 0 {
        0
    } else {
        sum128(s.drop_last()) + s.last()
    }
}

/// Appending one element adds its value to the sum.
pub proof fn lemma_sum128_push(s: Seq<u128>, v: u128)
    ensures
        sum128(s.push(v)) == sum128(s) + v,
{
    assert(s.push(v).drop_last() =~= s);
}

/// Replacing one element changes the sum by the difference.
pub proof fn lemma_sum128_update(s: Seq<u128>, i: int, v: u128)
    requires
        0 <= i < s.len(),
    ensures
        sum128(s.update(i, v)) == sum128(s) - s[i] + v,
    decreases s.len(),
{
    if i == s.len() - 1 {
        assert(s.update(i, v).drop_last() =~= s.drop_last());
        assert(s.update(i, v).last() == v);
    } else {
        assert(s.update(i, v).drop_last() =~= s.drop_last().update(i, v));
        assert(s.update(i, v).last() == s.last());
        lemma_sum128_update(s.drop_last(), i, v);
    }
}

/// The sum of a sequence of nonnegative values is nonnegative.
pub proof fn lemma_sum128_nonneg(s: Seq<u128>)
    ensures
        sum128(s) >= 0,
    decreases s.len(),
{
    if s.len() > 0 {
        lemma_sum128_nonneg(s.drop_last());
    }
}

/// Every element is bounded by the sum of the whole sequence.
pub proof fn lemma_sum128_element(s: Seq<u128>, i: int)
    requires
        0 <= i < s.len(),
    ensures
        s[i] <= sum128(s),
        sum128(s) >= 0,
    decreases s.len(),
{
    lemma_sum128_nonneg(s);
    if i == s.len() - 1 {
        lemma_sum128_nonneg(s.drop_last());
    } else {
        lemma_sum128_element(s.drop_last(), i);
        assert(s.drop_last()[i] == s[i]);
    }
}

/// A prefix sum of nonnegative values never exceeds the full sum.
pub proof fn lemma_sum128_prefix_le(s: Seq<u128>, k: int)
    requires
        0 <= k <= s.len(),
    ensures
        sum128(s.take(k)) <= sum128(s),
    decreases s.len(),
{
    if k == s.len() {
        assert(s.take(k) =~= s);
    } else {
        assert(s.drop_last().take(k) =~= s.take(k));
        lemma_sum128_prefix_le(s.drop_last(), k);
    }
}

/// Sums of sequences bounded elementwise by `b` are bounded by `b * len`.
pub proof fn lemma_sum128_bounded_by(s: Seq<u128>, b: u128)
    requires
        forall|j: int| 0 <= j < s.len() ==> #[trigger] s[j] <= b,
    ensures
        sum128(s) <= b * s.len(),
    decreases s.len(),
{
    if s.len() == 0 {
    } else {
        let d = s.drop_last();
        lemma_sum128_bounded_by(d, b);
        assert(b * s.len() == b * d.len() + b) by (nonlinear_arith)
            requires s.len() == d.len() + 1;
    }
}

/// `floor(a * b / c)`, computed without intermediate overflow where the
/// operands allow it, saturating otherwise. Exact whenever the product fits
/// the wide balance type.
pub fn mul_div(a: u128, b: u128, c: u128) -> (r: u128)
    requires
        c > 0,
    ensures
        a * b <= u128::MAX ==> r == a * b / (c as int),
{
    if a == 0 || b == 0 {
        assert(a * b == 0);
        return 0;
    }
    if b <= u128::MAX / a {
        assert(a * b <= u128::MAX) by (nonlinear_arith)
            requires a > 0 && b <= u128::MAX / a;
        return (a * b) / c;
    }
    proof {
        assert(a * b > u128::MAX) by (nonlinear_arith)
            requires a > 0 && b > u128::MAX / a;
    }
    let (big, small): (u128, u128) = if a >= b { (a, b) } else { (b, a) };
    let q = big / c;
    let r0 = big % c;
    if q > 0 && small > u128::MAX / q {
        return u128::MAX;
    }
    let main: u128 = if q == 0 {
        0u128
    } else {
        assert(q * small <= u128::MAX) by (nonlinear_arith)
            requires q > 0 && small <= u128::MAX / q;
        q * small
    };
    let rest: u128 = if r0 == 0 {
        0u128
    } else if small <= u128::MAX / r0 {
        assert(r0 * small <= u128::MAX) by (nonlinear_arith)
            requires r0 > 0 && small <= u128::MAX / r0;
        (r0 * small) / c
    } else {
        // `floor(r0 * small / c) < small` since `r0 < c`: substitute the bound.
        small - 1
    };
    if rest > u128::MAX - main {
        u128::MAX
    } else {
        main + rest
    }
}

/// `round_to_nearest(a / b)`, rounding half down.
pub open spec fn div_nearest(a: int, b: int) -> int
    recommends
        b > 0,
{
    if 2 * (a % b) > b {
        a / b + 1
    } else {
        a / b
    }
}

/// Converts the exact fraction `p / q` to fixed-point parts, rounding down.
pub fn per_from_rational(p: u128, q: u128) -> (r: u16)
    requires
        0 < q <= u64::MAX,
        p <= q,
    ensures
        r == p * (crate::ACCURACY as int) / (q as int),
        r <= crate::ACCURACY,
{
    proof {
        assert(p * (crate::ACCURACY as int) <= q * (crate::ACCURACY as int)) by (nonlinear_arith)
            requires p <= q;
        assert(q * (crate::ACCURACY as int) <= u128::MAX) by (nonlinear_arith)
            requires q <= u64::MAX;
    }
    let parts = (p * (crate::ACCURACY as u128)) / q;
    proof {
        assert(p * (crate::ACCURACY as int) / (q as int) <= crate::ACCURACY as int) by (nonlinear_arith)
            requires p <= q && q > 0;
    }
    parts as u16
}

/// Applies fixed-point `parts` to `stake`, rounding to the nearest unit,
/// half down. The result never exceeds the stake.
pub fn per_mul(parts: u16, stake: u64) -> (r: u64)
    requires
        parts <= crate::ACCURACY,
    ensures
        r == div_nearest(parts * stake, crate::ACCURACY as int),
        r <= stake,
{
    let acc: u128 = crate::ACCURACY as u128;
    proof {
        assert((parts as int) * (stake as int) <= (crate::ACCURACY as int) * (u64::MAX as int))
            by (nonlinear_arith)
            requires parts <= crate::ACCURACY as int && stake <= u64::MAX as int;
    }
    let prod = (parts as u128) * (stake as u128);
    let q = prod / acc;
    let rem = prod % acc;
    proof {
        vstd::arithmetic::div_mod::lemma_fundamental_div_mod(prod as int, acc as int);
        assert(q <= stake) by (nonlinear_arith)
            requires
                prod == parts * stake,
                parts <= crate::ACCURACY as int,
                prod == q * (crate::ACCURACY as int) + rem,
                0 <= rem < crate::ACCURACY as int,
                stake >= 0;
    }
    if 2 * rem > acc {
        proof {
            // rounding up stays within the stake: the fraction is below one.
            assert(q < stake) by (nonlinear_arith)
                requires
                    prod == parts * stake,
                    parts <= crate::ACCURACY as int,
                    prod == q * (crate::ACCURACY as int) + rem,
                    0 <= rem < crate::ACCURACY as int,
                    2 * rem > crate::ACCURACY as int,
                    q <= stake;
        }
        (q + 1) as u64
    } else {
        q as u64
    }
}

/// Corrects a rounded distribution so it sums exactly to `targeted`:
/// shortfall is poured in as an even share per entry plus single units onto
/// the first smallest entry; excess is drained from the first largest entry.
/// Returns `None` only when the input's sum overflows the balance type. An
/// empty input stays empty.
pub fn normalize_vec(input: &Vec<u128>, targeted: u128) -> (r: Option<Vec<u128>>)
    ensures
        r.is_some() <==> sum128(input@) <= u128::MAX,
        r.is_some() ==> r.unwrap().len() == input.len(),
        r.is_some() && input.len() > 0 ==> sum128(r.unwrap()@) == targeted,
        r.is_some() ==> forall|i: int| 0 <= i < input.len() ==>
            #[trigger] r.unwrap()@[i] <= targeted || r.unwrap()@[i] <= input@[i],
{
    let n = input.len();
    let mut sum: u128 = 0;
    let mut k: usize = 0;
    while k < n
        invariant
            k <= n,
            n == input.len(),
            sum == sum128(input@.take(k as int)),
        decreases n - k,
    {
        proof {
            assert(input@.take(k + 1).drop_last() =~= input@.take(k as int));
            assert(input@.take(k + 1).last() == input@[k as int]);
        }
        let v = input[k];
        if v > u128::MAX - sum {
            proof {
                lemma_sum128_prefix_le(input@, k + 1);
            }
            return None;
        }
        sum = sum + v;
        k = k + 1;
    }
    proof {
        assert(input@.take(n as int) =~= input@);
    }
    if n == 0 {
        return Some(Vec::new());
    }
    let mut out: Vec<u128> = Vec::new();
    let mut k: usize = 0;
    while k < n
        invariant
            k <= n,
            n == input.len(),
            out@ =~= input@.take(k as int),
        decreases n - k,
    {
        out.push(input[k]);
        k = k + 1;
    }
    proof {
        assert(out@ =~= input@);
        lemma_sum128_nonneg(input@);
    }
    if sum == targeted {
        return Some(out);
    }
    if targeted > sum {
        let diff = targeted - sum;
        let count = n as u128;
        let per_round = diff / count;
        let leftover = diff % count;
        proof {
            vstd::arithmetic::div_mod::lemma_fundamental_div_mod(diff as int, count as int);
            assert((count as int) * (per_round as int) == (per_round as int) * (count as int))
                by (nonlinear_arith);
            assert(diff == per_round * count + leftover);
        }
        let mut added: u128 = 0;
        if per_round > 0 {
            let mut i: usize = 0;
            while i < n
                invariant
                    i <= n,
                    n == out.len(),
                    n == input.len(),
                    n >= 1,
                    count == n as u128,
                    diff == per_round * count + leftover,
                    0 <= leftover < count,
                    diff == targeted - sum,
                    sum == sum128(input@),
                    added == per_round * i,
                    sum128(out@) == sum + added,
                    added + per_round * (n - i) + leftover == diff,
                    forall|j: int| 0 <= j < n ==>
                        #[trigger] out@[j] <= targeted || out@[j] <= input@[j],
                decreases n - i,
            {
                proof {
                    lemma_sum128_element(out@, i as int);
                    assert(per_round * (n - i) >= per_round) by (nonlinear_arith)
                        requires n - i >= 1 && per_round >= 0;
                }
                let v = out[i];
                let ghost pre = out@;
                out.set(i, v + per_round);
                proof {
                    lemma_sum128_update(pre, i as int, (v + per_round) as u128);
                }
                added = added + per_round;
                i = i + 1;
                proof {
                    assert(added == per_round * i) by (nonlinear_arith)
                        requires added == per_round * (i - 1) + per_round;
                    assert(added + per_round * (n - i) + leftover == diff) by (nonlinear_arith)
                        requires
                            added == per_round * i,
                            diff == per_round * count + leftover,
                            count == n,
                            i <= n;
                }
            }
            proof {
                assert(added == per_round * count) by (nonlinear_arith)
                    requires added == per_round * (n as int) && count == n as u128;
            }
        } else {
            proof {
                assert(per_round * count == 0) by (nonlinear_arith)
                    requires per_round == 0;
            }
        }
        let mut left = if per_round > 0 { leftover } else { diff };
        while left > 0
            invariant
                n == out.len(),
                n == input.len(),
                n >= 1,
                sum128(out@) == targeted - left,
                forall|j: int| 0 <= j < n ==>
                    #[trigger] out@[j] <= targeted || out@[j] <= input@[j],
            decreases left,
        {
            let mut min_idx: usize = 0;
            let mut m: usize = 1;
            while m < n
                invariant
                    min_idx < m <= n,
                    n == out.len(),
                    forall|j: int| 0 <= j < m ==> out@[min_idx as int] <= #[trigger] out@[j],
                decreases n - m,
            {
                if out[m] < out[min_idx] {
                    min_idx = m;
                }
                m = m + 1;
            }
            proof {
                lemma_sum128_element(out@, min_idx as int);
            }
            let v = out[min_idx];
            let ghost pre = out@;
            out.set(min_idx, v + 1);
            proof {
                lemma_sum128_update(pre, min_idx as int, (v + 1) as u128);
            }
            left = left - 1;
        }
        return Some(out);
    }
    let mut left = sum - targeted;
    while left > 0
        invariant
            n == out.len(),
            n == input.len(),
            n >= 1,
            sum128(out@) == targeted + left,
            forall|j: int| 0 <= j < n ==>
                #[trigger] out@[j] <= targeted || out@[j] <= input@[j],
        decreases left,
    {
        let mut max_idx: usize = 0;
        let mut m: usize = 1;
        while m < n
            invariant
                max_idx < m <= n,
                n == out.len(),
                forall|j: int| 0 <= j < m ==> out@[max_idx as int] >= #[trigger] out@[j],
            decreases n - m,
        {
            if out[m] > out[max_idx] {
                max_idx = m;
            }
            m = m + 1;
        }
        let v = out[max_idx];
        proof {
            lemma_sum128_bounded_by(out@, v);
            assert(v >= 1) by (nonlinear_arith)
                requires
                    sum128(out@) <= v * (n as int),
                    sum128(out@) >= 1,
                    v >= 0,
                    n >= 1;
        }
        let take = if v <= left { v } else { left };
        let ghost pre = out@;
        out.set(max_idx, v - take);
        proof {
            lemma_sum128_update(pre, max_idx as int, (v - take) as u128);
        }
        left = left - take;
    }
    Some(out)
}

} // verus!
