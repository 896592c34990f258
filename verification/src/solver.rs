//! The election solver: a sequential proportional election over the full,
//! unpaged electorate. It maintains a load per voter, repeatedly elects the
//! target with the lowest marginal load increase (ties broken by the lowest
//! target position), and finally distributes each voter's stake across its
//! elected targets in proportion to the load increments, as fixed-point
//! parts that sum exactly to one whole stake.

use vstd::prelude::*;
use crate::arith::{mul_div, normalize_vec, per_from_rational, sum128};
use crate::arith::{lemma_sum128_bounded_by, lemma_sum128_push};
use crate::{AccountId, ElectionError, VoterRecord, ACCURACY, MAX_VOTES_PER_VOTER};

verus! {

/// One voter's stake split across a subset of its approved targets, as
/// fixed-point parts of the voter's whole stake.
#[derive(Clone, Debug, PartialEq, Eq)]
pub struct Assignment {
    pub who: AccountId,
    pub distribution: Vec<(AccountId, u16)>,
}

/// Winners in order of election, and the full assignment set.
#[derive(Debug)]
pub struct ElectionResult {
    pub winners: Vec<AccountId>,
    pub assignments: Vec<Assignment>,
}

/// The amount of one distribution entry.
pub open spec fn part_amount() -> spec_fn((AccountId, u16)) -> u128 {
    |p: (AccountId, u16)| p.1 as u128
}

/// The sum of the fixed-point parts of one distribution.
pub open spec fn parts_sum(d: Seq<(AccountId, u16)>) -> int {
    sum128(d.map_values(part_amount()))
}

/// Whether some voter with positive stake approves some known target:
/// exactly the electorates on which an election is feasible.
pub open spec fn has_electable(voters: Seq<VoterRecord>, targets: Seq<AccountId>) -> bool {
    exists|i: int, j: int|
        0 <= i < voters.len() && 0 <= j < voters[i].votes@.len()
            && voters[i].stake > 0 && targets.contains(voters[i].votes@[j])
}

/// A well-formed assignment for voter `v`: it carries the voter's identity
/// and splits the whole stake, in parts summing exactly to one, across
/// distinct targets that the voter approves and that are all winners.
pub open spec fn asg_wf_for(v: VoterRecord, winners: Seq<AccountId>, a: Assignment) -> bool {
    &&& a.who == v.who
    &&& 1 <= a.distribution@.len() <= v.votes@.len()
    &&& forall|j: int| 0 <= j < a.distribution@.len() ==> {
        &&& v.votes@.contains((#[trigger] a.distribution@[j]).0)
        &&& winners.contains(a.distribution@[j].0)
        &&& a.distribution@[j].1 <= ACCURACY
    }
    &&& forall|j1: int, j2: int|
        0 <= j1 < j2 < a.distribution@.len()
            ==> (#[trigger] a.distribution@[j1]).0 != (#[trigger] a.distribution@[j2]).0
    &&& parts_sum(a.distribution@) == ACCURACY as int
}

/// All assignments of a result are well-formed for distinct voters of the
/// electorate.
pub open spec fn assignments_wf(
    voters: Seq<VoterRecord>,
    winners: Seq<AccountId>,
    asgs: Seq<Assignment>,
) -> bool {
    &&& forall|k: int| 0 <= k < asgs.len()
        ==> exists|i: int|
            0 <= i < voters.len() && asg_wf_for(voters[i], winners, #[trigger] asgs[k])
    &&& forall|k1: int, k2: int|
        0 <= k1 < k2 < asgs.len() ==> (#[trigger] asgs[k1]).who != (#[trigger] asgs[k2]).who
}

/// Position of `who` in the target list, if present.
#[verifier::loop_isolation(false)]
pub fn target_position(targets: &Vec<AccountId>, who: AccountId) -> (r: Option<usize>)
    ensures
        match r {
            Some(i) => i < targets.len() && targets@[i as int] == who,
            None => !targets@.contains(who),
        },
{
    let n = targets.len();
    let mut i: usize = 0;
    while i < n
        invariant
            i <= n,
            forall|j: int| 0 <= j < i ==> targets@[j] != who,
        decreases n - i,
    {
        if targets[i] == who {
            return Some(i);
        }
        i = i + 1;
    }
    None
}

/// Runs the sequential proportional election.
///
/// Success is owed exactly when there is something to elect: a positive
/// desired winner count and at least one positively staked voter approving
/// a known target. Winners are distinct known targets, at most `to_elect`
/// of them and at least one; every assignment splits one distinct voter's
/// whole stake across approved winners. A voter whose every stake split
/// rounds down to nothing is pruned along with its zero-weight edges, so a
/// stake smaller than the number of elected backed targets may leave no
/// assignment behind.
#[verifier::loop_isolation(false)]
#[verifier::rlimit(60)]
#[verifier::spinoff_prover]
pub fn seq_phragmen(to_elect: u32, targets: &Vec<AccountId>, voters: &Vec<VoterRecord>) -> (r:
    Result<ElectionResult, ElectionError>)
    requires
        forall|i: int, j: int|
            0 <= i < j < targets@.len() ==> targets@[i] != targets@[j],
        forall|i: int, j: int|
            0 <= i < j < voters@.len()
                ==> (#[trigger] voters@[i]).who != (#[trigger] voters@[j]).who,
        forall|i: int|
            0 <= i < voters@.len()
                ==> (#[trigger] voters@[i]).votes@.len() <= MAX_VOTES_PER_VOTER,
    ensures
        r.is_err() <==> !(to_elect > 0 && has_electable(voters@, targets@)),
        r.is_err() ==> r == Err::<ElectionResult, ElectionError>(
            ElectionError::NoFeasibleElection,
        ),
        r.is_ok() ==> {
            let res = r.unwrap();
            &&& 1 <= res.winners@.len() <= to_elect
            &&& forall|i: int|
                0 <= i < res.winners@.len() ==> targets@.contains(#[trigger] res.winners@[i])
            &&& forall|i: int, j: int|
                0 <= i < j < res.winners@.len() ==> res.winners@[i] != res.winners@[j]
            &&& assignments_wf(voters@, res.winners@, res.assignments@)
            &&& res.assignments@.len() <= voters@.len()
        },
{
    let nt = targets.len();
    let nv = voters.len();
    if to_elect == 0 || nt == 0 || nv == 0 {
        return Err(ElectionError::NoFeasibleElection);
    }

    // electorate setup: per-candidate approval stake, per-voter edge lists.
    let mut approval: Vec<u128> = Vec::new();
    let mut i: usize = 0;
    while i < nt
        invariant
            i <= nt,
            approval@.len() == i,
            forall|c: int| 0 <= c < i ==> #[trigger] approval@[c] == 0,
        decreases nt - i,
    {
        approval.push(0);
        i = i + 1;
    }

    let mut sv_vidx: Vec<usize> = Vec::new();
    let mut sv_edges: Vec<Vec<usize>> = Vec::new();
    let mut iv: usize = 0;
    while iv < nv
        invariant
            iv <= nv,
            approval@.len() == nt,
            sv_vidx@.len() == sv_edges@.len(),
            sv_vidx@.len() <= iv,
            forall|s: int| 0 <= s < sv_vidx@.len() ==> #[trigger] sv_vidx@[s] < iv,
            forall|s1: int, s2: int|
                0 <= s1 < s2 < sv_vidx@.len() ==> sv_vidx@[s1] < sv_vidx@[s2],
            forall|s: int| 0 <= s < sv_edges@.len() ==> {
                &&& 1 <= (#[trigger] sv_edges@[s])@.len()
                    <= voters@[sv_vidx@[s] as int].votes@.len()
                &&& forall|k: int| 0 <= k < sv_edges@[s]@.len() ==> {
                    &&& (#[trigger] sv_edges@[s]@[k]) < nt
                    &&& voters@[sv_vidx@[s] as int].votes@.contains(
                        targets@[sv_edges@[s]@[k] as int])
                }
                &&& forall|k1: int, k2: int|
                    0 <= k1 < k2 < sv_edges@[s]@.len()
                        ==> sv_edges@[s]@[k1] != sv_edges@[s]@[k2]
            },
            forall|s: int, k: int|
                0 <= s < sv_edges@.len() && 0 <= k < sv_edges@[s]@.len()
                    ==> approval@[#[trigger] sv_edges@[s]@[k] as int]
                        >= voters@[sv_vidx@[s] as int].stake,
            (exists|c: int| 0 <= c < nt && approval@[c] > 0)
                ==> has_electable(voters@, targets@),
            forall|i2: int|
                0 <= i2 < iv && (exists|j: int|
                    0 <= j < (#[trigger] voters@[i2]).votes@.len() && targets@.contains(
                        voters@[i2].votes@[j]))
                    ==> exists|s: int| 0 <= s < sv_vidx@.len() && sv_vidx@[s] == i2,
        decreases nv - iv,
    {
        let votes_n = voters[iv].votes.len();
        let mut edges: Vec<usize> = Vec::new();
        let mut jv: usize = 0;
        while jv < votes_n
            invariant
                jv <= votes_n,
                approval@.len() == nt,
                edges@.len() <= jv,
                forall|k: int| 0 <= k < edges@.len() ==> {
                    &&& (#[trigger] edges@[k]) < nt
                    &&& voters@[iv as int].votes@.contains(targets@[edges@[k] as int])
                },
                forall|k1: int, k2: int|
                    0 <= k1 < k2 < edges@.len() ==> edges@[k1] != edges@[k2],
                forall|j: int|
                    0 <= j < jv && targets@.contains((#[trigger] voters@[iv as int].votes@[j]))
                        ==> edges@.len() > 0,
                forall|k: int|
                    0 <= k < edges@.len()
                        ==> approval@[#[trigger] edges@[k] as int] >= voters@[iv as int].stake,
                forall|s: int, k: int|
                    0 <= s < sv_edges@.len() && 0 <= k < sv_edges@[s]@.len()
                        ==> approval@[#[trigger] sv_edges@[s]@[k] as int]
                            >= voters@[sv_vidx@[s] as int].stake,
                (exists|c: int| 0 <= c < nt && approval@[c] > 0)
                    ==> has_electable(voters@, targets@),
            decreases votes_n - jv,
        {
            let vote = voters[iv].votes[jv];
            match target_position(targets, vote) {
                Some(c) => {
                    // skip duplicate edges to the same candidate.
                    let mut dup = false;
                    let mut k: usize = 0;
                    let en = edges.len();
                    while k < en
                        invariant
                            k <= en,
                            dup <==> exists|k2: int| 0 <= k2 < k && edges@[k2] == c,
                        decreases en - k,
                    {
                        if edges[k] == c {
                            proof {
                                assert(edges@[k as int] == c);
                            }
                            dup = true;
                            k = en;
                        } else {
                            k = k + 1;
                        }
                    }
                    if !dup {
                        let stake = voters[iv].stake;
                        let cur = approval[c];
                        let next = if (stake as u128) > u128::MAX - cur {
                            u128::MAX
                        } else {
                            cur + (stake as u128)
                        };
                        approval.set(c, next);
                        proof {
                            if stake > 0 {
                                assert(voters@[iv as int].votes@[jv as int] == vote);
                                assert(targets@.contains(vote));
                                assert(has_electable(voters@, targets@));
                            }
                        }
                        edges.push(c);
                    }
                },
                None => {},
            }
            jv = jv + 1;
        }
        if edges.len() > 0 {
            let ghost pre_vidx = sv_vidx@;
            sv_vidx.push(iv);
            sv_edges.push(edges);
            proof {
                assert(sv_vidx@[sv_vidx@.len() - 1] == iv);
                assert forall|i2: int|
                    0 <= i2 < iv + 1 && (exists|j: int|
                        0 <= j < (#[trigger] voters@[i2]).votes@.len() && targets@.contains(
                            voters@[i2].votes@[j]))
                        implies exists|s: int|
                        0 <= s < sv_vidx@.len() && sv_vidx@[s] == i2 by {
                    if i2 < iv {
                        let s0 = choose|s0: int|
                            0 <= s0 < pre_vidx.len() && pre_vidx[s0] == i2;
                        assert(sv_vidx@[s0] == i2);
                    } else {
                        assert(sv_vidx@[sv_vidx@.len() - 1] == i2);
                    }
                }
            }
        } else {
            proof {
                assert(forall|j: int|
                    0 <= j < voters@[iv as int].votes@.len()
                        ==> !targets@.contains((#[trigger] voters@[iv as int].votes@[j])));
            }
        }
        iv = iv + 1;
    }

    let ns = sv_vidx.len();

    // main election loop.
    let den: u128 = u128::MAX;
    let mut score: Vec<u128> = Vec::new();
    let mut elected: Vec<bool> = Vec::new();
    let mut i: usize = 0;
    while i < nt
        invariant
            i <= nt,
            score@.len() == i,
            elected@.len() == i,
            forall|c: int| 0 <= c < i ==> !(#[trigger] elected@[c]),
        decreases nt - i,
    {
        score.push(0);
        elected.push(false);
        i = i + 1;
    }
    let mut vload: Vec<u128> = Vec::new();
    let mut i: usize = 0;
    while i < ns
        invariant
            i <= ns,
            vload@.len() == i,
        decreases ns - i,
    {
        vload.push(0);
        i = i + 1;
    }

    let rounds = if (to_elect as usize) < nt {
        to_elect as usize
    } else {
        nt
    };
    let mut winners_idx: Vec<usize> = Vec::new();
    let mut round: usize = 0;
    let mut done = false;
    while !done && round < rounds
        invariant
            round <= rounds,
            score@.len() == nt,
            elected@.len() == nt,
            vload@.len() == ns,
            winners_idx@.len() == round,
            done ==> winners_idx@.len() >= 1,
            forall|w: int| 0 <= w < winners_idx@.len() ==> #[trigger] winners_idx@[w] < nt,
            forall|w1: int, w2: int|
                0 <= w1 < w2 < winners_idx@.len() ==> winners_idx@[w1] != winners_idx@[w2],
            forall|w: int|
                0 <= w < winners_idx@.len() ==> elected@[#[trigger] winners_idx@[w] as int],
            forall|c: int|
                0 <= c < nt && #[trigger] elected@[c]
                    ==> exists|w: int| 0 <= w < winners_idx@.len() && winners_idx@[w] == c,
            forall|w: int|
                0 <= w < winners_idx@.len()
                    ==> approval@[#[trigger] winners_idx@[w] as int] > 0,
        decreases rounds - round, (if done { 0int } else { 1int }),
    {
        // initialize scores of unelected candidates.
        let mut c: usize = 0;
        while c < nt
            invariant
                c <= nt,
                score@.len() == nt,
            decreases nt - c,
        {
            if !elected[c] {
                let a = approval[c];
                let s = if a == 0 {
                    u128::MAX
                } else {
                    den / a
                };
                score.set(c, s);
            }
            c = c + 1;
        }
        // increment scores by voter loads.
        let mut s: usize = 0;
        while s < ns
            invariant
                s <= ns,
                score@.len() == nt,
            decreases ns - s,
        {
            let vidx = sv_vidx[s];
            let budget = voters[vidx].stake as u128;
            let load = vload[s];
            let en = sv_edges[s].len();
            let mut k: usize = 0;
            while k < en
                invariant
                    k <= en,
                    score@.len() == nt,
                decreases en - k,
            {
                let c = sv_edges[s][k];
                if !elected[c] && approval[c] > 0 {
                    let inc = mul_div(load, budget, approval[c]);
                    let cur = score[c];
                    let next = if inc > u128::MAX - cur {
                        u128::MAX
                    } else {
                        cur + inc
                    };
                    score.set(c, next);
                }
                k = k + 1;
            }
            s = s + 1;
        }
        // pick the first unelected candidate with approval and lowest score.
        let mut best: usize = nt;
        let mut c: usize = 0;
        while c < nt
            invariant
                c <= nt,
                best <= nt,
                best < nt ==> !elected@[best as int] && approval@[best as int] > 0,
                best == nt ==> forall|c2: int|
                    0 <= c2 < c ==> !(!(#[trigger] elected@[c2]) && approval@[c2] > 0),
            decreases nt - c,
        {
            if !elected[c] && approval[c] > 0 {
                if best == nt || score[c] < score[best] {
                    best = c;
                }
            }
            c = c + 1;
        }
        if best == nt {
            // no electable candidate remains.
            if winners_idx.len() == 0 {
                proof {
                    // nothing was elected and no candidate has any approval
                    // stake: the electorate is infeasible.
                    if has_electable(voters@, targets@) {
                        let (i0, j0): (int, int) = choose|i0: int, j0: int|
                            0 <= i0 < voters@.len() && 0 <= j0 < voters@[i0].votes@.len()
                                && voters@[i0].stake > 0 && targets@.contains(
                                voters@[i0].votes@[j0]);
                        assert(0 <= j0 < voters@[i0].votes@.len() && targets@.contains(
                            voters@[i0].votes@[j0]));
                        assert(exists|s0: int|
                            0 <= s0 < sv_vidx@.len() && sv_vidx@[s0] == i0);
                        let s0 = choose|s0: int|
                            0 <= s0 < sv_vidx@.len() && sv_vidx@[s0] == i0;
                        let c0 = sv_edges@[s0]@[0];
                        assert(c0 < nt);
                        assert(approval@[c0 as int] >= voters@[sv_vidx@[s0] as int].stake);
                        assert(approval@[c0 as int] > 0);
                        if elected@[c0 as int] {
                            let w0 = choose|w0: int|
                                0 <= w0 < winners_idx@.len() && winners_idx@[w0] == c0;
                            assert(false);
                        }
                        assert(!(!elected@[c0 as int] && approval@[c0 as int] > 0));
                        assert(false);
                    }
                }
                return Err(ElectionError::NoFeasibleElection);
            }
            done = true;
        } else {
        let wscore = score[best];
        let ghost pre_elected = elected@;
        let ghost pre_widx = winners_idx@;
        elected.set(best, true);
        winners_idx.push(best);
        proof {
            assert(winners_idx@[winners_idx@.len() - 1] == best);
            assert forall|c: int|
                0 <= c < nt && #[trigger] elected@[c]
                    implies exists|w: int|
                    0 <= w < winners_idx@.len() && winners_idx@[w] == c by {
                if c == best {
                    assert(winners_idx@[winners_idx@.len() - 1] == c);
                } else {
                    assert(pre_elected[c]);
                    let w0 = choose|w0: int| 0 <= w0 < pre_widx.len() && pre_widx[w0] == c;
                    assert(winners_idx@[w0] == c);
                }
            }
            assert forall|w1: int, w2: int|
                0 <= w1 < w2 < winners_idx@.len()
                    implies winners_idx@[w1] != winners_idx@[w2] by {
                if w2 == winners_idx@.len() - 1 {
                    assert(pre_elected[pre_widx[w1] as int]);
                    assert(!pre_elected[best as int]);
                }
            }
        }
        // update the load of every voter approving the winner.
        let mut s: usize = 0;
        while s < ns
            invariant
                s <= ns,
                vload@.len() == ns,
            decreases ns - s,
        {
            let en = sv_edges[s].len();
            let mut k: usize = 0;
            let mut approves = false;
            while k < en
                invariant
                    k <= en,
                decreases en - k,
            {
                if sv_edges[s][k] == best {
                    approves = true;
                    k = en;
                } else {
                    k = k + 1;
                }
            }
            if approves {
                vload.set(s, wscore);
            }
            s = s + 1;
        }
        round = round + 1;
        }
    }
    proof {
        assert(winners_idx@.len() >= 1);
    }

    let nw = winners_idx.len();
    let mut winners: Vec<AccountId> = Vec::new();
    let mut w: usize = 0;
    while w < nw
        invariant
            w <= nw,
            winners@.len() == w,
            forall|w2: int|
                0 <= w2 < w ==> #[trigger] winners@[w2] == targets@[winners_idx@[w2] as int],
        decreases nw - w,
    {
        let c = winners_idx[w];
        winners.push(targets[c]);
        w = w + 1;
    }
    proof {
        assert forall|w1: int, w2: int|
            0 <= w1 < w2 < winners@.len() implies winners@[w1] != winners@[w2] by {
            assert(winners@[w1] == targets@[winners_idx@[w1] as int]);
            assert(winners@[w2] == targets@[winners_idx@[w2] as int]);
        }
        assert forall|w2: int|
            0 <= w2 < winners@.len() implies targets@.contains(#[trigger] winners@[w2]) by {
            assert(targets@[winners_idx@[w2] as int] == winners@[w2]);
        }
    }

    // distribute each stored voter's stake across its elected edges.
    let mut assignments: Vec<Assignment> = Vec::new();
    let mut s: usize = 0;
    while s < ns
        invariant
            s <= ns,
            assignments@.len() <= s,
            forall|k: int| 0 <= k < assignments@.len()
                ==> exists|i: int|
                    0 <= i < voters@.len()
                        && asg_wf_for(voters@[i], winners@, #[trigger] assignments@[k]),
            forall|k: int| 0 <= k < assignments@.len()
                ==> exists|s2: int|
                    0 <= s2 < s && (#[trigger] assignments@[k]).who
                        == voters@[sv_vidx@[s2] as int].who,
            forall|k1: int, k2: int|
                0 <= k1 < k2 < assignments@.len()
                    ==> (#[trigger] assignments@[k1]).who != (#[trigger] assignments@[k2]).who,
        decreases ns - s,
    {
        let vidx = sv_vidx[s];
        let budget = voters[vidx].stake;
        let en = sv_edges[s].len();
        // the load increment of each edge, assigned in election order.
        let mut eload: Vec<u128> = Vec::new();
        let mut k: usize = 0;
        while k < en
            invariant
                k <= en,
                eload@.len() == k,
            decreases en - k,
        {
            eload.push(0);
            k = k + 1;
        }
        let mut load_prev: u128 = 0;
        let mut w: usize = 0;
        while w < nw
            invariant
                w <= nw,
                eload@.len() == en,
            decreases nw - w,
        {
            let c = winners_idx[w];
            let wscore = score[c];
            let mut k: usize = 0;
            while k < en
                invariant
                    k <= en,
                    eload@.len() == en,
                decreases en - k,
            {
                if sv_edges[s][k] == c {
                    let el = if wscore > load_prev {
                        wscore - load_prev
                    } else {
                        0
                    };
                    eload.set(k, el);
                    load_prev = wscore;
                }
                k = k + 1;
            }
            w = w + 1;
        }
        // edge weights: the budget split by load increments, capped at the
        // budget; only positive weights of elected edges are kept.
        let mut kept_idx: Vec<usize> = Vec::new();
        let mut kept_w: Vec<u128> = Vec::new();
        let mut k: usize = 0;
        while k < en
            invariant
                k <= en,
                kept_idx@.len() == kept_w@.len(),
                kept_idx@.len() <= k,
                forall|k2: int| 0 <= k2 < kept_idx@.len() ==> #[trigger] kept_idx@[k2] < k,
                forall|k2: int| 0 <= k2 < kept_idx@.len() ==> #[trigger] kept_idx@[k2] < en,
                forall|k1: int, k2: int|
                    0 <= k1 < k2 < kept_idx@.len() ==> kept_idx@[k1] < kept_idx@[k2],
                forall|k2: int|
                    0 <= k2 < kept_idx@.len()
                        ==> elected@[sv_edges@[s as int]@[#[trigger] kept_idx@[k2] as int] as int],
                forall|k2: int| 0 <= k2 < kept_w@.len() ==> #[trigger] kept_w@[k2] <= budget,
            decreases en - k,
        {
            let el = eload[k];
            let c = sv_edges[s][k];
            if elected[c] && el > 0 && load_prev > 0 {
                let wraw = mul_div(budget as u128, el, load_prev);
                let wgt = if wraw > budget as u128 {
                    budget as u128
                } else {
                    wraw
                };
                if wgt > 0 {
                    kept_idx.push(k);
                    kept_w.push(wgt);
                }
            }
            k = k + 1;
        }
        if kept_w.len() > 0 && budget > 0 {
            proof {
                lemma_sum128_bounded_by(kept_w@, budget as u128);
                assert((budget as u128) * kept_w@.len() <= (u64::MAX as int) * (
                MAX_VOTES_PER_VOTER as int)) by (nonlinear_arith)
                    requires
                        budget <= u64::MAX,
                        kept_w@.len() <= MAX_VOTES_PER_VOTER,
                        budget >= 0;
            }
            let normalized = normalize_vec(&kept_w, budget as u128);
            let norm = normalized.unwrap();
            // fixed-point parts of the whole budget, dropping zero entries.
            let kn = kept_idx.len();
            let mut parts_t: Vec<AccountId> = Vec::new();
            let mut parts_v: Vec<u128> = Vec::new();
            let ghost mut psrc: Seq<int> = Seq::empty();
            let mut k: usize = 0;
            while k < kn
                invariant
                    k <= kn,
                    parts_t@.len() == parts_v@.len(),
                    psrc.len() == parts_t@.len(),
                    parts_t@.len() <= k,
                    forall|k2: int| 0 <= k2 < psrc.len() ==> 0 <= #[trigger] psrc[k2] < k,
                    forall|k1: int, k2: int|
                        0 <= k1 < k2 < psrc.len() ==> psrc[k1] < psrc[k2],
                    forall|k2: int|
                        0 <= k2 < parts_t@.len() ==> #[trigger] parts_t@[k2] == targets@[
                            sv_edges@[s as int]@[kept_idx@[psrc[k2]] as int] as int],
                    forall|k2: int|
                        0 <= k2 < parts_t@.len() ==> winners@.contains(#[trigger] parts_t@[k2])
                            && voters@[vidx as int].votes@.contains(parts_t@[k2]),
                    forall|k2: int| 0 <= k2 < parts_v@.len()
                        ==> 0 < #[trigger] parts_v@[k2] <= ACCURACY as u128,
                decreases kn - k,
            {
                let wgt = norm[k];
                let p = per_from_rational(wgt, budget as u128);
                if p > 0 {
                    let eidx = kept_idx[k];
                    let c = sv_edges[s][eidx];
                    proof {
                        let w0 = choose|w0: int|
                            0 <= w0 < winners_idx@.len() && winners_idx@[w0] == c;
                        assert(winners@[w0] == targets@[c as int]);
                        assert(winners@.contains(targets@[c as int]));
                    }
                    parts_t.push(targets[c]);
                    parts_v.push(p as u128);
                    proof {
                        psrc = psrc.push(k as int);
                    }
                }
                k = k + 1;
            }
            if parts_v.len() > 0 {
                proof {
                    lemma_sum128_bounded_by(parts_v@, ACCURACY as u128);
                }
                let normalized_parts = normalize_vec(&parts_v, ACCURACY as u128);
                let parts = normalized_parts.unwrap();
                let pn = parts_t.len();
                let mut distribution: Vec<(AccountId, u16)> = Vec::new();
                let mut k: usize = 0;
                while k < pn
                    invariant
                        k <= pn,
                        distribution@.len() == k,
                        forall|k2: int|
                            0 <= k2 < k ==> (#[trigger] distribution@[k2]).0 == parts_t@[k2]
                                && distribution@[k2].1 == parts@[k2],
                        parts_sum(distribution@) == sum128(parts@.take(k as int)),
                    decreases pn - k,
                {
                    let p = parts[k];
                    let ghost pre = distribution@;
                    distribution.push((parts_t[k], p as u16));
                    proof {
                        let m = part_amount();
                        assert(pre.push((parts_t@[k as int], p as u16)).map_values(m)
                            =~= pre.map_values(m).push(p as u128));
                        lemma_sum128_push(pre.map_values(m), p as u128);
                        assert(parts@.take(k + 1).drop_last() =~= parts@.take(k as int));
                    }
                    k = k + 1;
                }
                proof {
                    assert(parts@.take(pn as int) =~= parts@);
                }
                let asg = Assignment { who: voters[vidx].who, distribution };
                proof {
                    // distinct targets within the distribution: distinct kept
                    // positions give distinct edges, hence distinct targets.
                    assert forall|j1: int, j2: int|
                        0 <= j1 < j2 < asg.distribution@.len()
                            implies (#[trigger] asg.distribution@[j1]).0
                                != (#[trigger] asg.distribution@[j2]).0 by {
                        let e1 = kept_idx@[psrc[j1]];
                        let e2 = kept_idx@[psrc[j2]];
                        assert(e1 < e2);
                        assert(sv_edges@[s as int]@[e1 as int]
                            != sv_edges@[s as int]@[e2 as int]);
                    }
                    assert(asg_wf_for(voters@[vidx as int], winners@, asg));
                }
                let ghost pre_asgs = assignments@;
                assignments.push(asg);
                proof {
                    assert forall|k1: int, k2: int|
                        0 <= k1 < k2 < assignments@.len()
                            implies (#[trigger] assignments@[k1]).who
                                != (#[trigger] assignments@[k2]).who by {
                        if k2 == assignments@.len() - 1 {
                            let s2 = choose|s2: int|
                                0 <= s2 < s && pre_asgs[k1].who
                                    == voters@[sv_vidx@[s2] as int].who;
                            assert(sv_vidx@[s2] < sv_vidx@[s as int]);
                        }
                    }
                }
            }
        }
        s = s + 1;
    }

    proof {
        // at least one winner was elected, so some candidate had approval,
        // which witnesses a feasible electorate.
        assert(winners_idx@[0] < nt);
        assert(approval@[winners_idx@[0] as int] > 0);
        assert(exists|c: int| 0 <= c < nt && approval@[c] > 0);
    }
    Ok(ElectionResult { winners, assignments })
}

} // verus!
