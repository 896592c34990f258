//! Supports and scoring: converting fixed-point assignments to absolute
//! stake, rebuilding the per-target support table, merging per-page support
//! tables, and evaluating the paging-invariant score triple.

use vstd::prelude::*;
use crate::arith::{lemma_sum128_bounded_by, lemma_sum128_push, normalize_vec, per_mul, sum128};
use crate::solver::Assignment;
use crate::{AccountId, ElectionScore, ExtendedBalance, MAX_VOTES_PER_VOTER};

verus! {

/// One voter's stake split in absolute stake units.
#[derive(Debug, PartialEq, Eq)]
pub struct StakedAssignment {
    pub who: AccountId,
    pub distribution: Vec<(AccountId, ExtendedBalance)>,
}

/// One target's reconstructed backing: the total and the contributing
/// voters in discovery order.
#[derive(Clone, Debug, PartialEq, Eq)]
pub struct Support {
    pub total: ExtendedBalance,
    pub voters: Vec<(AccountId, ExtendedBalance)>,
}

/// A target-major election outcome: targets with their supports.
pub type Supports = Vec<(AccountId, Support)>;

/// The predicate selecting the entries backing target `t`.
pub open spec fn tpred(t: AccountId) -> spec_fn((AccountId, u128)) -> bool {
    |p: (AccountId, u128)| p.0 == t
}

/// The contributions of one staked assignment to target `t`, in order.
pub open spec fn entries_of(a: StakedAssignment, t: AccountId) -> Seq<(AccountId, u128)> {
    a.distribution@.filter(tpred(t)).map_values(|p: (AccountId, u128)| (a.who, p.1))
}

/// The contributions of a staked assignment list to target `t`, in order.
pub open spec fn contribs(s: Seq<StakedAssignment>, t: AccountId) -> Seq<(AccountId, u128)>
    decreases s.len(),
{
    if s.len() == 0 {
        Seq::empty()
    } else {
        contribs(s.drop_last(), t) + entries_of(s.last(), t)
    }
}

/// The amount of one contribution.
pub open spec fn amount_of() -> spec_fn((AccountId, u128)) -> u128 {
    |e: (AccountId, u128)| e.1
}

/// The sum of the amounts of a contribution list.
pub open spec fn amount_sum(es: Seq<(AccountId, u128)>) -> int {
    sum128(es.map_values(amount_of()))
}

/// The total backing of target `t` across a staked assignment list.
pub open spec fn total_of(s: Seq<StakedAssignment>, t: AccountId) -> int {
    amount_sum(contribs(s, t))
}

/// Bounds of a staked assignment list that keep every reconstructed total
/// inside the wide balance type.
pub open spec fn staked_bounded(s: Seq<StakedAssignment>) -> bool {
    &&& s.len() <= u32::MAX
    &&& forall|k: int| 0 <= k < s.len() ==> {
        let a = #[trigger] s[k];
        &&& a.distribution@.len() <= MAX_VOTES_PER_VOTER
        &&& forall|j: int| 0 <= j < a.distribution@.len()
            ==> ((#[trigger] a.distribution@[j]).1 as int) <= u64::MAX
    }
}

/// Every element of a filtered sequence comes from the original one.
pub proof fn lemma_filter_sub<A>(s: Seq<A>, pred: spec_fn(A) -> bool, j: int)
    requires
        0 <= j < s.filter(pred).len(),
    ensures
        exists|i: int| 0 <= i < s.len() && s[i] == s.filter(pred)[j],
    decreases s.len(),
{
    reveal(Seq::filter);
    if s.len() > 0 {
        let d = s.drop_last();
        if pred(s.last()) && j == s.filter(pred).len() - 1 {
            assert(s[s.len() - 1] == s.filter(pred)[j]);
        } else {
            lemma_filter_sub(d, pred, j);
            let i0 = choose|i0: int| 0 <= i0 < d.len() && d[i0] == d.filter(pred)[j];
            assert(s[i0] == s.filter(pred)[j]);
        }
    }
}

/// Contribution lists grow by at most the distribution width per record.
proof fn lemma_contribs_len(s: Seq<StakedAssignment>, t: AccountId)
    requires
        forall|k: int| 0 <= k < s.len()
            ==> (#[trigger] s[k]).distribution@.len() <= MAX_VOTES_PER_VOTER,
    ensures
        contribs(s, t).len() <= s.len() * MAX_VOTES_PER_VOTER,
    decreases s.len(),
{
    if s.len() == 0 {
    } else {
        let d = s.drop_last();
        lemma_contribs_len(d, t);
        let a = s.last();
        a.distribution@.lemma_filter_len(tpred(t));
        assert(entries_of(a, t).len() <= MAX_VOTES_PER_VOTER);
        assert(s.len() * MAX_VOTES_PER_VOTER == d.len() * MAX_VOTES_PER_VOTER
            + MAX_VOTES_PER_VOTER) by (nonlinear_arith)
            requires s.len() == d.len() + 1;
    }
}

/// Every contribution amount of a bounded list fits one voter's stake.
proof fn lemma_contribs_amounts(s: Seq<StakedAssignment>, t: AccountId)
    requires
        staked_bounded(s),
    ensures
        forall|j: int| 0 <= j < contribs(s, t).len()
            ==> ((#[trigger] contribs(s, t)[j]).1 as int) <= u64::MAX,
    decreases s.len(),
{
    if s.len() > 0 {
        let d = s.drop_last();
        assert(staked_bounded(d));
        lemma_contribs_amounts(d, t);
        let a = s.last();
        let pred = tpred(t);
        assert forall|j: int| 0 <= j < entries_of(a, t).len()
            implies ((#[trigger] entries_of(a, t)[j]).1 as int) <= u64::MAX by {
            let f = a.distribution@.filter(pred);
            assert(entries_of(a, t)[j].1 == f[j].1);
            lemma_filter_sub(a.distribution@, pred, j);
            let j2 = choose|j2: int|
                0 <= j2 < a.distribution@.len() && a.distribution@[j2] == f[j];
            assert(s.contains(a));
            let k0 = choose|k0: int| 0 <= k0 < s.len() && s[k0] == a;
            assert(s[k0].distribution@[j2].1 <= u64::MAX);
        }
        assert forall|j: int| 0 <= j < contribs(s, t).len()
            implies ((#[trigger] contribs(s, t)[j]).1 as int) <= u64::MAX by {
            if j < contribs(d, t).len() {
                assert(contribs(s, t)[j] == contribs(d, t)[j]);
            } else {
                assert(contribs(s, t)[j] == entries_of(a, t)[j - contribs(d, t).len()]);
            }
        }
    }
}

/// What the staked conversion promises of its output: the same voter, at
/// most as many entries as the fixed-point distribution, all of them
/// approved-by-construction targets of it with amounts within the stake,
/// the amounts summing exactly to the stake whenever anything at all was
/// distributed, and something distributed exactly when some proportion is
/// positive.
pub open spec fn staked_rel(a: Assignment, stake: u64, sa: StakedAssignment) -> bool {
    &&& sa.who == a.who
    &&& sa.distribution@.len() <= a.distribution@.len()
    &&& forall|j: int| 0 <= j < sa.distribution@.len()
        ==> ((#[trigger] sa.distribution@[j]).1 as int) <= stake
    &&& forall|j: int| 0 <= j < sa.distribution@.len()
        ==> exists|j2: int|
            0 <= j2 < a.distribution@.len() && (#[trigger] sa.distribution@[j]).0
                == a.distribution@[j2].0
    &&& sa.distribution@.len() > 0 ==> amount_sum(sa.distribution@) == stake
    &&& (sa.distribution@.len() > 0 <==> exists|j: int|
        0 <= j < a.distribution@.len() && (#[trigger] a.distribution@[j]).1 > 0)
}

/// Converts one fixed-point assignment to absolute stake: each nonzero
/// proportion is applied to the voter's stake, then the amounts are
/// corrected to sum exactly to the stake.
#[verifier::loop_isolation(false)]
pub fn assignment_into_staked(a: &Assignment, stake: u64) -> (r: StakedAssignment)
    requires
        a.distribution@.len() <= MAX_VOTES_PER_VOTER,
        forall|j: int| 0 <= j < a.distribution@.len()
            ==> (#[trigger] a.distribution@[j]).1 <= crate::ACCURACY,
    ensures
        r.who == a.who,
        r.distribution@.len() <= a.distribution@.len(),
        forall|j: int| 0 <= j < r.distribution@.len()
            ==> ((#[trigger] r.distribution@[j]).1 as int) <= stake,
        forall|j: int| 0 <= j < r.distribution@.len()
            ==> exists|j2: int|
                0 <= j2 < a.distribution@.len() && (#[trigger] r.distribution@[j]).0
                    == a.distribution@[j2].0,
        r.distribution@.len() > 0 ==> amount_sum(
            r.distribution@.map_values(|p: (AccountId, u128)| (a.who, p.1)),
        ) == stake,
        r.distribution@.len() > 0 <==> exists|j: int|
            0 <= j < a.distribution@.len() && (#[trigger] a.distribution@[j]).1 > 0,
        staked_rel(*a, stake, r),
{
    let n = a.distribution.len();
    let mut ts: Vec<AccountId> = Vec::new();
    let mut ws: Vec<u128> = Vec::new();
    let mut j: usize = 0;
    while j < n
        invariant
            j <= n,
            ts@.len() == ws@.len(),
            ts@.len() <= j,
            forall|j2: int| 0 <= j2 < ws@.len() ==> (#[trigger] ws@[j2] as int) <= stake,
            forall|j2: int| 0 <= j2 < ts@.len()
                ==> exists|j3: int|
                    0 <= j3 < a.distribution@.len() && (#[trigger] ts@[j2])
                        == a.distribution@[j3].0,
            ts@.len() > 0 <==> exists|j2: int|
                0 <= j2 < j && (#[trigger] a.distribution@[j2]).1 > 0,
        decreases n - j,
    {
        let (t, p) = a.distribution[j];
        if p > 0 {
            let w = per_mul(p, stake);
            ts.push(t);
            ws.push(w as u128);
            proof {
                assert(a.distribution@[j as int].1 > 0);
            }
        }
        j = j + 1;
    }
    if ts.len() == 0 {
        return StakedAssignment { who: a.who, distribution: Vec::new() };
    }
    proof {
        assert(ts@.len() > 0);
    }
    proof {
        lemma_sum128_bounded_by(ws@, stake as u128);
        assert((stake as u128) * ws@.len() <= (u64::MAX as int) * (MAX_VOTES_PER_VOTER as int))
            by (nonlinear_arith)
            requires stake <= u64::MAX && ws@.len() <= MAX_VOTES_PER_VOTER;
    }
    let normalized = normalize_vec(&ws, stake as u128);
    let norm = normalized.unwrap();
    let mut distribution: Vec<(AccountId, u128)> = Vec::new();
    let nn = ts.len();
    let mut j: usize = 0;
    while j < nn
        invariant
            j <= nn,
            distribution@.len() == j,
            forall|j2: int| 0 <= j2 < j ==> (#[trigger] distribution@[j2]).0 == ts@[j2]
                && distribution@[j2].1 == norm@[j2],
            amount_sum(distribution@.map_values(|p: (AccountId, u128)| (a.who, p.1)))
                == sum128(norm@.take(j as int)),
        decreases nn - j,
    {
        let ghost pre = distribution@;
        distribution.push((ts[j], norm[j]));
        proof {
            let m = |p: (AccountId, u128)| (a.who, p.1);
            let m2 = |e: (AccountId, u128)| e.1;
            assert(pre.push((ts@[j as int], norm@[j as int])).map_values(m)
                =~= pre.map_values(m).push((a.who, norm@[j as int])));
            assert(pre.map_values(m).push((a.who, norm@[j as int])).map_values(m2)
                =~= pre.map_values(m).map_values(m2).push(norm@[j as int]));
            lemma_sum128_push(pre.map_values(m).map_values(m2), norm@[j as int]);
            assert(norm@.take(j + 1).drop_last() =~= norm@.take(j as int));
        }
        j = j + 1;
    }
    proof {
        assert(norm@.take(nn as int) =~= norm@);
        // the amounts are the same whether keyed by target or by voter.
        assert(distribution@.map_values(amount_of()) =~= distribution@.map_values(
            |p: (AccountId, u128)| (a.who, p.1),
        ).map_values(amount_of()));
    }
    StakedAssignment { who: a.who, distribution }
}

/// Mirror of the score evaluation over a support list: the least total,
/// the saturating sum of totals, and the saturating sum of their squares.
pub open spec fn eval_spec(s: Seq<(AccountId, Support)>) -> ElectionScore
    decreases s.len(),
{
    if s.len() == 0 {
        ElectionScore {
            minimal_stake: u128::MAX,
            sum_stake: 0,
            sum_stake_squared: 0,
        }
    } else {
        let prev = eval_spec(s.drop_last());
        let t = s.last().1.total;
        ElectionScore {
            minimal_stake: if t < prev.minimal_stake {
                t
            } else {
                prev.minimal_stake
            },
            sum_stake: if prev.sum_stake + t > u128::MAX {
                u128::MAX
            } else {
                (prev.sum_stake + t) as u128
            },
            sum_stake_squared: {
                let sq = if t * t > u128::MAX {
                    u128::MAX
                } else {
                    (t * t) as u128
                };
                if prev.sum_stake_squared + sq > u128::MAX {
                    u128::MAX
                } else {
                    (prev.sum_stake_squared + sq) as u128
                }
            },
        }
    }
}

/// Evaluates the score triple of a support list, saturating on overflow.
#[verifier::loop_isolation(false)]
pub fn evaluate_support(supports: &Supports) -> (r: ElectionScore)
    ensures
        r == eval_spec(supports@),
{
    let n = supports.len();
    let mut minimal_stake: u128 = u128::MAX;
    let mut sum_stake: u128 = 0;
    let mut sum_stake_squared: u128 = 0;
    let mut k: usize = 0;
    while k < n
        invariant
            k <= n,
            (ElectionScore { minimal_stake, sum_stake, sum_stake_squared }) == eval_spec(
                supports@.take(k as int),
            ),
        decreases n - k,
    {
        let t = supports[k].1.total;
        proof {
            assert(supports@.take(k + 1).drop_last() =~= supports@.take(k as int));
        }
        if t < minimal_stake {
            minimal_stake = t;
        }
        sum_stake = if t > u128::MAX - sum_stake {
            u128::MAX
        } else {
            sum_stake + t
        };
        let sq = if t > 0 && t > u128::MAX / t {
            proof {
                assert(t * t > u128::MAX) by (nonlinear_arith)
                    requires t > 0 && t > u128::MAX / t;
            }
            u128::MAX
        } else {
            proof {
                if t > 0 {
                    assert(t * t <= u128::MAX) by (nonlinear_arith)
                        requires t > 0 && t <= u128::MAX / t;
                }
            }
            t * t
        };
        sum_stake_squared = if sq > u128::MAX - sum_stake_squared {
            u128::MAX
        } else {
            sum_stake_squared + sq
        };
        k = k + 1;
    }
    proof {
        assert(supports@.take(n as int) =~= supports@);
    }
    ElectionScore { minimal_stake, sum_stake, sum_stake_squared }
}

/// What the support reconstruction promises of its table: targets in
/// strictly ascending order, each with exactly the reconstructed total and
/// contribution list of the staked records, and no target with any
/// contribution left out.
pub open spec fn supports_rel(staked: Seq<StakedAssignment>, sup: Seq<(AccountId, Support)>) -> bool {
    &&& forall|i1: int, i2: int|
        0 <= i1 < i2 < sup.len() ==> (#[trigger] sup[i1]).0 < (#[trigger] sup[i2]).0
    &&& forall|i: int| 0 <= i < sup.len() ==> {
        let e = #[trigger] sup[i];
        &&& e.1.total == total_of(staked, e.0)
        &&& e.1.voters@ == contribs(staked, e.0)
        &&& e.1.voters@.len() > 0
    }
    &&& forall|t: AccountId|
        (forall|i: int| 0 <= i < sup.len() ==> (#[trigger] sup[i]).0 != t)
            ==> (#[trigger] contribs(staked, t)).len() == 0
}

/// Rebuilds the per-target support table of a staked assignment list:
/// targets in ascending order, each carrying its exact reconstructed total
/// and its contributions in discovery order.
#[verifier::loop_isolation(false)]
#[verifier::rlimit(60)]
#[verifier::spinoff_prover]
pub fn to_supports(staked: &Vec<StakedAssignment>) -> (r: Supports)
    requires
        staked_bounded(staked@),
    ensures
        forall|i1: int, i2: int|
            0 <= i1 < i2 < r@.len() ==> (#[trigger] r@[i1]).0 < (#[trigger] r@[i2]).0,
        forall|i: int| 0 <= i < r@.len() ==> {
            let e = #[trigger] r@[i];
            &&& e.1.total == total_of(staked@, e.0)
            &&& e.1.voters@ == contribs(staked@, e.0)
            &&& e.1.voters@.len() > 0
        },
        forall|t: AccountId|
            (forall|i: int| 0 <= i < r@.len() ==> (#[trigger] r@[i]).0 != t)
                ==> (#[trigger] contribs(staked@, t)).len() == 0,
        supports_rel(staked@, r@),
{
    let n = staked.len();
    let mut acc: Supports = Vec::new();
    let mut k: usize = 0;
    while k < n
        invariant
            k <= n,
            forall|i1: int, i2: int|
                0 <= i1 < i2 < acc@.len() ==> (#[trigger] acc@[i1]).0 < (#[trigger] acc@[i2]).0,
            forall|i: int| 0 <= i < acc@.len() ==> {
                let e = #[trigger] acc@[i];
                &&& e.1.total == total_of(staked@.take(k as int), e.0)
                &&& e.1.voters@ == contribs(staked@.take(k as int), e.0)
                &&& e.1.voters@.len() > 0
            },
            forall|t: AccountId|
                (forall|i: int| 0 <= i < acc@.len() ==> (#[trigger] acc@[i]).0 != t)
                    ==> (#[trigger] contribs(staked@.take(k as int), t)).len() == 0,
        decreases n - k,
    {
        let a = &staked[k];
        let who = a.who;
        let dn = a.distribution.len();
        let ghost prefix = staked@.take(k as int);
        let ghost cur = staked@[k as int];
        let mut j: usize = 0;
        while j < dn
            invariant
                j <= dn,
                k < n,
                dn == cur.distribution@.len(),
                cur == staked@[k as int],
                who == cur.who,
                prefix == staked@.take(k as int),
                staked_bounded(staked@),
                forall|i1: int, i2: int|
                    0 <= i1 < i2 < acc@.len() ==> (#[trigger] acc@[i1]).0
                        < (#[trigger] acc@[i2]).0,
                forall|i: int| 0 <= i < acc@.len() ==> {
                    let e = #[trigger] acc@[i];
                    &&& e.1.total == amount_sum(
                        contribs(prefix, e.0) + entries_prefix(cur, j as int, e.0),
                    )
                    &&& e.1.voters@ == contribs(prefix, e.0) + entries_prefix(cur, j as int, e.0)
                    &&& e.1.voters@.len() > 0
                },
                forall|t: AccountId|
                    (forall|i: int| 0 <= i < acc@.len() ==> (#[trigger] acc@[i]).0 != t)
                        ==> (#[trigger] contribs(prefix, t)).len() + entries_prefix(
                        cur,
                        j as int,
                        t,
                    ).len() == 0,
            decreases dn - j,
        {
            let (t0, w) = a.distribution[j];
            proof {
                assert(cur.distribution@[j as int] == (t0, w));
            }
            // find the sorted position of `t0` in the accumulator.
            let an = acc.len();
            let mut pos: usize = 0;
            while pos < an && acc[pos].0 < t0
                invariant
                    pos <= an,
                    an == acc@.len(),
                    forall|i: int| 0 <= i < pos ==> (#[trigger] acc@[i]).0 < t0,
                decreases an - pos,
            {
                pos = pos + 1;
            }
            let ghost pre_acc = acc@;
            if pos < an && acc[pos].0 == t0 {
                // existing target: extend its support.
                let mut row = acc.remove(pos);
                proof {
                    lemma_partial_total_bound(staked@, k as int, j as int, t0);
                    assert(w <= u64::MAX);
                }
                let total = row.1.total + w;
                row.1.total = total;
                row.1.voters.push((who, w));
                acc.insert(pos, row);
                proof {
                    assert(acc@ =~= pre_acc.update(pos as int, acc@[pos as int]));
                    assert forall|i: int|
                        0 <= i < pre_acc.len() implies exists|i2: int|
                        0 <= i2 < acc@.len() && (#[trigger] pre_acc[i]).0 == acc@[i2].0 by {
                        if i == pos {
                            assert(acc@[pos as int].0 == pre_acc[i].0);
                        } else {
                            assert(acc@[i].0 == pre_acc[i].0);
                        }
                    }
                }
            } else {
                // new target: insert it in order.
                proof {
                    assert forall|i: int|
                        pos <= i < an implies (#[trigger] pre_acc[i]).0 > t0 by {
                        if i > pos {
                            assert(pre_acc[pos as int].0 < pre_acc[i].0);
                        }
                    }
                }
                let mut voters: Vec<(AccountId, ExtendedBalance)> = Vec::new();
                voters.push((who, w));
                acc.insert(pos, (t0, Support { total: w, voters }));
                proof {
                    assert forall|i: int|
                        0 <= i < pre_acc.len() implies exists|i2: int|
                        0 <= i2 < acc@.len() && (#[trigger] pre_acc[i]).0 == acc@[i2].0 by {
                        if i < pos {
                            assert(acc@[i].0 == pre_acc[i].0);
                        } else {
                            assert(acc@[i + 1].0 == pre_acc[i].0);
                        }
                    }
                }
            }
            proof {
                lemma_entries_prefix_step(cur, j as int);
                assert forall|i: int| 0 <= i < acc@.len() implies {
                    let e = #[trigger] acc@[i];
                    &&& e.1.total == amount_sum(
                        contribs(prefix, e.0) + entries_prefix(cur, j + 1, e.0),
                    )
                    &&& e.1.voters@ == contribs(prefix, e.0) + entries_prefix(cur, j + 1, e.0)
                    &&& e.1.voters@.len() > 0
                } by {
                    let e = acc@[i];
                    let old_list = contribs(prefix, e.0) + entries_prefix(cur, j as int, e.0);
                    if e.0 == t0 {
                        assert(entries_prefix(cur, j + 1, e.0) =~= entries_prefix(
                            cur,
                            j as int,
                            e.0,
                        ).push((cur.who, w)));
                        assert(e.1.voters@ =~= old_list.push((cur.who, w)));
                        amount_sum_push(old_list, (cur.who, w));
                    } else {
                        assert(entries_prefix(cur, j + 1, e.0) =~= entries_prefix(
                            cur,
                            j as int,
                            e.0,
                        ));
                    }
                }
                assert forall|t: AccountId|
                    (forall|i: int| 0 <= i < acc@.len() ==> (#[trigger] acc@[i]).0 != t)
                        implies (#[trigger] contribs(prefix, t)).len() + entries_prefix(
                    cur,
                    j + 1,
                    t,
                ).len() == 0 by {
                    assert(t != t0);
                    assert(entries_prefix(cur, j + 1, t) =~= entries_prefix(cur, j as int, t));
                    assert forall|i: int|
                        0 <= i < pre_acc.len() implies (#[trigger] pre_acc[i]).0 != t by {
                        let i2 = choose|i2: int|
                            0 <= i2 < acc@.len() && pre_acc[i].0 == acc@[i2].0;
                        assert(acc@[i2].0 != t);
                    }
                }
            }
            j = j + 1;
        }
        proof {
            lemma_contribs_step(staked@, k as int);
            assert forall|t: AccountId| true implies #[trigger] entries_prefix(cur, dn as int, t)
                =~= entries_of(cur, t) by {
                assert(cur.distribution@.take(dn as int) =~= cur.distribution@);
            }
        }
        k = k + 1;
    }
    proof {
        assert(staked@.take(n as int) =~= staked@);
    }
    acc
}

/// The contributions of the first `j` entries of one staked assignment.
pub open spec fn entries_prefix(a: StakedAssignment, j: int, t: AccountId) -> Seq<
    (AccountId, u128),
> {
    a.distribution@.take(j).filter(tpred(t)).map_values(|p: (AccountId, u128)| (a.who, p.1))
}

/// Extending the entry prefix by one entry appends exactly that entry's
/// contribution to its own target and nothing to any other.
proof fn lemma_entries_prefix_step(a: StakedAssignment, j: int)
    requires
        0 <= j < a.distribution@.len(),
    ensures
        forall|t: AccountId|
            #[trigger] entries_prefix(a, j + 1, t) == if a.distribution@[j].0 == t {
                entries_prefix(a, j, t).push((a.who, a.distribution@[j].1))
            } else {
                entries_prefix(a, j, t)
            },
{
    assert forall|t: AccountId| true implies #[trigger] entries_prefix(a, j + 1, t)
        == if a.distribution@[j].0 == t {
        entries_prefix(a, j, t).push((a.who, a.distribution@[j].1))
    } else {
        entries_prefix(a, j, t)
    } by {
        let pred = tpred(t);
        let m = |p: (AccountId, u128)| (a.who, p.1);
        let e = a.distribution@[j];
        assert(a.distribution@.take(j + 1) =~= a.distribution@.take(j) + seq![e]);
        Seq::filter_distributes_over_add(a.distribution@.take(j), seq![e], pred);
        crate::solution::lemma_filter_singleton(e, pred);
        if pred(e) {
            assert(a.distribution@.take(j + 1).filter(pred) =~= a.distribution@.take(j).filter(
                pred,
            ).push(e));
            assert(a.distribution@.take(j + 1).filter(pred).map_values(m) =~= a.distribution@.take(
                j,
            ).filter(pred).map_values(m).push(m(e)));
        } else {
            assert(a.distribution@.take(j + 1).filter(pred) =~= a.distribution@.take(j).filter(
                pred,
            ));
            assert(entries_prefix(a, j + 1, t) =~= entries_prefix(a, j, t));
        }
    }
}

/// One step of the contribution recursion, for a prefix.
proof fn lemma_contribs_step(s: Seq<StakedAssignment>, k: int)
    requires
        0 <= k < s.len(),
    ensures
        forall|t: AccountId|
            #[trigger] contribs(s.take(k + 1), t) == contribs(s.take(k), t)
                + entries_of(s[k], t),
{
    assert forall|t: AccountId| true implies #[trigger] contribs(s.take(k + 1), t)
        == contribs(s.take(k), t) + entries_of(s[k], t) by {
        assert(s.take(k + 1).drop_last() =~= s.take(k));
        assert(s.take(k + 1).last() == s[k]);
    }
}

/// Appending one contribution adds its amount to the sum.
proof fn amount_sum_push(es: Seq<(AccountId, u128)>, e: (AccountId, u128))
    ensures
        amount_sum(es.push(e)) == amount_sum(es) + e.1,
{
    let m = amount_of();
    assert(es.push(e).map_values(m) =~= es.map_values(m).push(e.1));
    lemma_sum128_push(es.map_values(m), e.1);
}

/// A partial reconstructed total leaves room for one more bounded amount.
proof fn lemma_partial_total_bound(s: Seq<StakedAssignment>, k: int, j: int, t: AccountId)
    requires
        staked_bounded(s),
        0 <= k < s.len(),
        0 <= j <= s[k].distribution@.len(),
    ensures
        0 <= amount_sum(contribs(s.take(k), t) + entries_prefix(s[k], j, t)),
        amount_sum(contribs(s.take(k), t) + entries_prefix(s[k], j, t)) + u64::MAX
            <= u128::MAX,
{
    let pre = s.take(k);
    assert(staked_bounded(pre));
    lemma_contribs_len(pre, t);
    lemma_contribs_amounts(pre, t);
    let cur = s[k];
    let pred = tpred(t);
    cur.distribution@.take(j).lemma_filter_len(pred);
    let full = contribs(pre, t) + entries_prefix(cur, j, t);
    let amounts = full.map_values(amount_of());
    assert forall|i: int| 0 <= i < amounts.len() implies #[trigger] amounts[i] <= u64::MAX by {
        if i < contribs(pre, t).len() {
            assert(full[i] == contribs(pre, t)[i]);
        } else {
            let f = cur.distribution@.take(j).filter(pred);
            let i2 = i - contribs(pre, t).len();
            assert(full[i] == (cur.who, f[i2].1));
            lemma_filter_sub(cur.distribution@.take(j), pred, i2);
            let i3 = choose|i3: int|
                0 <= i3 < cur.distribution@.take(j).len() && cur.distribution@.take(j)[i3]
                    == f[i2];
            assert(cur.distribution@[i3] == f[i2]);
            assert(s[k].distribution@[i3].1 <= u64::MAX);
        }
    }
    lemma_sum128_bounded_by(amounts, u64::MAX as u128);
    crate::arith::lemma_sum128_nonneg(amounts);
    assert(amounts.len() <= (u32::MAX as int) * (MAX_VOTES_PER_VOTER as int)
        + MAX_VOTES_PER_VOTER) by {
        assert(pre.len() * (MAX_VOTES_PER_VOTER as int) <= (u32::MAX as int) * (
        MAX_VOTES_PER_VOTER as int)) by (nonlinear_arith)
            requires pre.len() <= u32::MAX as int;
    }
    assert((u64::MAX as int) * amounts.len() <= (u64::MAX as int) * ((u32::MAX as int) * (
    MAX_VOTES_PER_VOTER as int) + MAX_VOTES_PER_VOTER)) by (nonlinear_arith)
        requires amounts.len() <= (u32::MAX as int) * (MAX_VOTES_PER_VOTER as int)
            + MAX_VOTES_PER_VOTER;
}

} // verus!
