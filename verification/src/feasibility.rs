//! The feasibility checker: the trust boundary that re-derives a page's
//! supports from an untrusted encoded solution, rejecting out-of-bounds
//! indices, forged backings, proportion sums off by more than the rounding
//! tolerance, and winner sets beyond the desired count.

use vstd::prelude::*;
use crate::score::{assignment_into_staked, staked_rel, supports_rel, to_supports};
use crate::score::{staked_bounded, StakedAssignment, Supports};
use crate::snapshot::{lemma_stake_in_page_at, stake_in_page, Snapshot};
use crate::solution::{decode_page, decoded_rel, page_indices_ok, split_sum, voter_position};
use crate::solution::SolutionPage;
use crate::solver::Assignment;
use crate::{AccountId, FeasibilityError, VoterRecord, ACCURACY, MAX_VOTES_PER_VOTER};

verus! {

/// Every backing of the encoded page is approved by the referencing voter.
pub open spec fn no_forgery(
    page: Seq<VoterRecord>,
    targets: Seq<AccountId>,
    s: SolutionPage,
) -> bool {
    &&& forall|k: int| 0 <= k < s.votes1@.len() ==> {
        let v = #[trigger] s.votes1@[k];
        page[v.0 as int].votes@.contains(targets[v.1 as int])
    }
    &&& forall|k: int| 0 <= k < s.votes2@.len() ==> {
        let v = #[trigger] s.votes2@[k];
        &&& page[v.0 as int].votes@.contains(targets[v.1.0 as int])
        &&& page[v.0 as int].votes@.contains(targets[v.2 as int])
    }
    &&& forall|k: int| 0 <= k < s.votes_rest@.len() ==> {
        let v = #[trigger] s.votes_rest@[k];
        &&& forall|j: int|
            0 <= j < v.split@.len() ==> page[v.voter as int].votes@.contains(
                targets[(#[trigger] v.split@[j]).0 as int],
            )
        &&& page[v.voter as int].votes@.contains(targets[v.last as int])
    }
}

/// Every record's proportions sum to one whole stake within the rounding
/// tolerance of one unit per backed target. Single- and two-target records
/// meet this by construction; a wider record fails exactly when its
/// explicit splits overshoot the whole by more than the tolerance.
pub open spec fn sums_ok(s: SolutionPage) -> bool {
    forall|k: int| 0 <= k < s.votes_rest@.len() ==> {
        let v = #[trigger] s.votes_rest@[k];
        split_sum(v.split@) <= ACCURACY as int + v.split@.len() + 1
    }
}

/// Whether the encoded page references target index `ti` anywhere.
pub open spec fn target_listed(s: SolutionPage, ti: u16) -> bool {
    ||| exists|k: int| 0 <= k < s.votes1@.len() && (#[trigger] s.votes1@[k]).1 == ti
    ||| exists|k: int|
        0 <= k < s.votes2@.len() && ((#[trigger] s.votes2@[k]).1.0 == ti || s.votes2@[k].2
            == ti)
    ||| exists|k: int, j: int|
        0 <= k < s.votes_rest@.len() && 0 <= j < s.votes_rest@[k].split@.len()
            && (#[trigger] s.votes_rest@[k].split@[j]).0 == ti
    ||| exists|k: int| 0 <= k < s.votes_rest@.len() && (#[trigger] s.votes_rest@[k]).last == ti
}

/// The page lists no more records than the page holds voters: a longer
/// list necessarily repeats a voter index.
pub open spec fn rows_fit(s: SolutionPage, page: Seq<VoterRecord>) -> bool {
    s.votes1@.len() + s.votes2@.len() + s.votes_rest@.len() <= page.len()
}

/// No voter is referenced by more than one record of the page: a repeated
/// reference would stake the voter once per record, distributing more than
/// its whole stake.
pub open spec fn voters_distinct(s: SolutionPage) -> bool {
    &&& forall|k1: int, k2: int|
        0 <= k1 < k2 < s.votes1@.len() ==> (#[trigger] s.votes1@[k1]).0
            != (#[trigger] s.votes1@[k2]).0
    &&& forall|k1: int, k2: int|
        0 <= k1 < k2 < s.votes2@.len() ==> (#[trigger] s.votes2@[k1]).0
            != (#[trigger] s.votes2@[k2]).0
    &&& forall|k1: int, k2: int|
        0 <= k1 < k2 < s.votes_rest@.len() ==> (#[trigger] s.votes_rest@[k1]).voter
            != (#[trigger] s.votes_rest@[k2]).voter
    &&& forall|k1: int, k2: int|
        0 <= k1 < s.votes1@.len() && 0 <= k2 < s.votes2@.len()
            ==> (#[trigger] s.votes1@[k1]).0 != (#[trigger] s.votes2@[k2]).0
    &&& forall|k1: int, k2: int|
        0 <= k1 < s.votes1@.len() && 0 <= k2 < s.votes_rest@.len()
            ==> (#[trigger] s.votes1@[k1]).0 != (#[trigger] s.votes_rest@[k2]).voter
    &&& forall|k1: int, k2: int|
        0 <= k1 < s.votes2@.len() && 0 <= k2 < s.votes_rest@.len()
            ==> (#[trigger] s.votes2@[k1]).0 != (#[trigger] s.votes_rest@[k2]).voter
}

/// The page references no more distinct targets than desired: some
/// duplicate-free index list of at most `desired` entries covers every
/// referenced target index.
pub open spec fn winners_ok(s: SolutionPage, desired: u32) -> bool {
    exists|dts: Seq<u16>|
        {
            &&& forall|i1: int, i2: int| 0 <= i1 < i2 < dts.len() ==> dts[i1] != dts[i2]
            &&& forall|ti: u16| target_listed(s, ti) ==> dts.contains(ti)
            &&& dts.len() <= desired
        }
}

/// What the per-page check returns on success: the support table of the
/// decoded records, staked at each referencing voter's recorded stake.
pub open spec fn page_supports_rel(
    page: Seq<VoterRecord>,
    targets: Seq<AccountId>,
    s: SolutionPage,
    sup: Seq<(AccountId, crate::score::Support)>,
) -> bool {
    exists|decoded: Seq<Assignment>, staked: Seq<StakedAssignment>|
        {
            &&& #[trigger] decoded_rel(page, targets, s, decoded)
            &&& staked.len() == decoded.len()
            &&& forall|k: int|
                0 <= k < staked.len() ==> staked_rel(
                    #[trigger] decoded[k],
                    stake_in_page(page, decoded[k].who),
                    staked[k],
                )
            &&& #[trigger] supports_rel(staked, sup)
        }
}

/// The whole per-page feasibility condition: indices in bounds, no more
/// records than voters, no forged backing, proportion sums within
/// tolerance, and no more distinct referenced targets than desired.
pub open spec fn page_feasible(
    page: Seq<VoterRecord>,
    targets: Seq<AccountId>,
    s: SolutionPage,
    desired: u32,
) -> bool {
    &&& page_indices_ok(s, page.len() as int, targets.len() as int)
    &&& rows_fit(s, page)
    &&& no_forgery(page, targets, s)
    &&& voters_distinct(s)
    &&& sums_ok(s)
    &&& winners_ok(s, desired)
}

/// Collects the distinct target indices referenced by the page, sorted.
#[verifier::loop_isolation(false)]
fn listed_targets(s: &SolutionPage) -> (r: Vec<u16>)
    ensures
        forall|i1: int, i2: int| 0 <= i1 < i2 < r@.len() ==> r@[i1] < r@[i2],
        forall|i: int| 0 <= i < r@.len() ==> target_listed(*s, #[trigger] r@[i]),
        forall|ti: u16| target_listed(*s, ti) ==> r@.contains(ti),
{
    let mut acc: Vec<u16> = Vec::new();
    let n1 = s.votes1.len();
    let mut k: usize = 0;
    while k < n1
        invariant
            k <= n1,
            forall|i1: int, i2: int| 0 <= i1 < i2 < acc@.len() ==> acc@[i1] < acc@[i2],
            forall|i: int| 0 <= i < acc@.len() ==> target_listed(*s, #[trigger] acc@[i]),
            forall|k2: int| 0 <= k2 < k ==> acc@.contains((#[trigger] s.votes1@[k2]).1),
        decreases n1 - k,
    {
        let ti = s.votes1[k].1;
        proof {
            assert(s.votes1@[k as int].1 == ti);
        }
        insert_sorted(&mut acc, ti);
        k = k + 1;
    }
    let n2 = s.votes2.len();
    let mut k: usize = 0;
    while k < n2
        invariant
            k <= n2,
            forall|i1: int, i2: int| 0 <= i1 < i2 < acc@.len() ==> acc@[i1] < acc@[i2],
            forall|i: int| 0 <= i < acc@.len() ==> target_listed(*s, #[trigger] acc@[i]),
            forall|k2: int| 0 <= k2 < n1 ==> acc@.contains((#[trigger] s.votes1@[k2]).1),
            forall|k2: int|
                0 <= k2 < k ==> acc@.contains((#[trigger] s.votes2@[k2]).1.0) && acc@.contains(
                    s.votes2@[k2].2,
                ),
        decreases n2 - k,
    {
        let v = s.votes2[k];
        proof {
            assert(s.votes2@[k as int] == v);
        }
        insert_sorted(&mut acc, v.1.0);
        insert_sorted(&mut acc, v.2);
        k = k + 1;
    }
    let nr = s.votes_rest.len();
    let mut k: usize = 0;
    while k < nr
        invariant
            k <= nr,
            forall|i1: int, i2: int| 0 <= i1 < i2 < acc@.len() ==> acc@[i1] < acc@[i2],
            forall|i: int| 0 <= i < acc@.len() ==> target_listed(*s, #[trigger] acc@[i]),
            forall|k2: int| 0 <= k2 < n1 ==> acc@.contains((#[trigger] s.votes1@[k2]).1),
            forall|k2: int|
                0 <= k2 < n2 ==> acc@.contains((#[trigger] s.votes2@[k2]).1.0) && acc@.contains(
                    s.votes2@[k2].2,
                ),
            forall|k2: int| 0 <= k2 < k ==> {
                let v = #[trigger] s.votes_rest@[k2];
                &&& forall|j: int|
                    0 <= j < v.split@.len() ==> acc@.contains((#[trigger] v.split@[j]).0)
                &&& acc@.contains(v.last)
            },
        decreases nr - k,
    {
        let sn = s.votes_rest[k].split.len();
        let mut j: usize = 0;
        while j < sn
            invariant
                j <= sn,
                k < nr,
                sn == s.votes_rest@[k as int].split@.len(),
                forall|i1: int, i2: int| 0 <= i1 < i2 < acc@.len() ==> acc@[i1] < acc@[i2],
                forall|i: int| 0 <= i < acc@.len() ==> target_listed(*s, #[trigger] acc@[i]),
                forall|k2: int| 0 <= k2 < n1 ==> acc@.contains((#[trigger] s.votes1@[k2]).1),
                forall|k2: int|
                    0 <= k2 < n2 ==> acc@.contains((#[trigger] s.votes2@[k2]).1.0)
                        && acc@.contains(s.votes2@[k2].2),
                forall|k2: int| 0 <= k2 < k ==> {
                    let v = #[trigger] s.votes_rest@[k2];
                    &&& forall|j2: int|
                        0 <= j2 < v.split@.len() ==> acc@.contains((#[trigger] v.split@[j2]).0)
                    &&& acc@.contains(v.last)
                },
                forall|j2: int|
                    0 <= j2 < j ==> acc@.contains(
                        (#[trigger] s.votes_rest@[k as int].split@[j2]).0,
                    ),
            decreases sn - j,
        {
            let ti = s.votes_rest[k].split[j].0;
            proof {
                assert(s.votes_rest@[k as int].split@[j as int].0 == ti);
            }
            insert_sorted(&mut acc, ti);
            j = j + 1;
        }
        let tl = s.votes_rest[k].last;
        proof {
            assert(s.votes_rest@[k as int].last == tl);
        }
        insert_sorted(&mut acc, tl);
        k = k + 1;
    }
    proof {
        assert forall|ti: u16| target_listed(*s, ti) implies acc@.contains(ti) by {
            if exists|k: int| 0 <= k < s.votes1@.len() && (#[trigger] s.votes1@[k]).1 == ti {
                let k = choose|k: int|
                    0 <= k < s.votes1@.len() && (#[trigger] s.votes1@[k]).1 == ti;
                assert(acc@.contains(s.votes1@[k].1));
            } else if exists|k: int|
                0 <= k < s.votes2@.len() && ((#[trigger] s.votes2@[k]).1.0 == ti
                    || s.votes2@[k].2 == ti) {
                let k = choose|k: int|
                    0 <= k < s.votes2@.len() && ((#[trigger] s.votes2@[k]).1.0 == ti
                        || s.votes2@[k].2 == ti);
            } else if exists|k: int, j: int|
                0 <= k < s.votes_rest@.len() && 0 <= j < s.votes_rest@[k].split@.len()
                    && (#[trigger] s.votes_rest@[k].split@[j]).0 == ti {
                let (k, j): (int, int) = choose|k: int, j: int|
                    0 <= k < s.votes_rest@.len() && 0 <= j < s.votes_rest@[k].split@.len()
                        && (#[trigger] s.votes_rest@[k].split@[j]).0 == ti;
                assert(acc@.contains(s.votes_rest@[k].split@[j].0));
            } else {
                let k = choose|k: int|
                    0 <= k < s.votes_rest@.len() && (#[trigger] s.votes_rest@[k]).last == ti;
                assert(acc@.contains(s.votes_rest@[k].last));
            }
        }
    }
    acc
}

/// Whether any record among the given prefixes references voter index `vi`.
pub open spec fn voter_listed_upto(s: SolutionPage, a: int, b: int, c: int, vi: u32) -> bool {
    ||| exists|k: int| 0 <= k < a && (#[trigger] s.votes1@[k]).0 == vi
    ||| exists|k: int| 0 <= k < b && (#[trigger] s.votes2@[k]).0 == vi
    ||| exists|k: int| 0 <= k < c && (#[trigger] s.votes_rest@[k]).voter == vi
}

/// Inserts a value into a strictly sorted list unless it is already there;
/// reports whether the value was new.
#[verifier::loop_isolation(false)]
fn insert_distinct(acc: &mut Vec<u32>, v: u32) -> (r: bool)
    requires
        forall|i1: int, i2: int|
            0 <= i1 < i2 < old(acc)@.len() ==> old(acc)@[i1] < old(acc)@[i2],
    ensures
        r <==> !old(acc)@.contains(v),
        forall|i1: int, i2: int|
            0 <= i1 < i2 < final(acc)@.len() ==> final(acc)@[i1] < final(acc)@[i2],
        final(acc)@.contains(v),
        forall|x: u32| old(acc)@.contains(x) ==> final(acc)@.contains(x),
        forall|i: int|
            0 <= i < final(acc)@.len() ==> old(acc)@.contains(#[trigger] final(acc)@[i])
                || final(acc)@[i] == v,
{
    let n = acc.len();
    let mut pos: usize = 0;
    while pos < n && acc[pos] < v
        invariant
            pos <= n,
            n == acc@.len(),
            forall|i: int| 0 <= i < pos ==> acc@[i] < v,
        decreases n - pos,
    {
        pos = pos + 1;
    }
    if pos < n && acc[pos] == v {
        proof {
            assert(acc@[pos as int] == v);
        }
        return false;
    }
    proof {
        assert forall|i: int| pos <= i < acc@.len() implies acc@[i] > v by {
            if i > pos {
                assert(acc@[pos as int] < acc@[i]);
            }
        }
    }
    let ghost pre = acc@;
    acc.insert(pos, v);
    proof {
        assert(acc@[pos as int] == v);
        assert forall|x: u32| pre.contains(x) implies acc@.contains(x) by {
            let i = choose|i: int| 0 <= i < pre.len() && pre[i] == x;
            if i < pos {
                assert(acc@[i] == x);
            } else {
                assert(acc@[i + 1] == x);
            }
        }
    }
    true
}

/// Inserts a value into a strictly sorted list, keeping it sorted and
/// without duplicates.
#[verifier::loop_isolation(false)]
fn insert_sorted(acc: &mut Vec<u16>, ti: u16)
    requires
        forall|i1: int, i2: int|
            0 <= i1 < i2 < old(acc)@.len() ==> old(acc)@[i1] < old(acc)@[i2],
    ensures
        forall|i1: int, i2: int|
            0 <= i1 < i2 < final(acc)@.len() ==> final(acc)@[i1] < final(acc)@[i2],
        final(acc)@.contains(ti),
        forall|v: u16| old(acc)@.contains(v) ==> final(acc)@.contains(v),
        forall|i: int|
            0 <= i < final(acc)@.len() ==> old(acc)@.contains(#[trigger] final(acc)@[i])
                || final(acc)@[i] == ti,
{
    let n = acc.len();
    let mut pos: usize = 0;
    while pos < n && acc[pos] < ti
        invariant
            pos <= n,
            n == acc@.len(),
            forall|i: int| 0 <= i < pos ==> acc@[i] < ti,
        decreases n - pos,
    {
        pos = pos + 1;
    }
    if pos < n && acc[pos] == ti {
        proof {
            assert(acc@[pos as int] == ti);
        }
        return;
    }
    proof {
        assert forall|i: int| pos <= i < acc@.len() implies acc@[i] > ti by {
            if i > pos {
                assert(acc@[pos as int] < acc@[i]);
            }
        }
    }
    let ghost pre = acc@;
    acc.insert(pos, ti);
    proof {
        assert(acc@[pos as int] == ti);
        assert forall|v: u16| pre.contains(v) implies acc@.contains(v) by {
            let i = choose|i: int| 0 <= i < pre.len() && pre[i] == v;
            if i < pos {
                assert(acc@[i] == v);
            } else {
                assert(acc@[i + 1] == v);
            }
        }
    }
}

/// Checks one page of an untrusted solution against the snapshot and
/// re-derives its supports. Succeeds exactly on pages whose indices are in
/// bounds, which list no more records than the page has voters, whose
/// every backing is approved by the referencing voter, whose proportions
/// sum to the whole stake within tolerance, and which reference no more
/// distinct targets than the desired winner count.
#[verifier::loop_isolation(false)]
#[verifier::rlimit(100)]
#[verifier::spinoff_prover]
pub fn feasibility_check_page(snap: &Snapshot, s: &SolutionPage, page: u32) -> (r: Result<
    Supports,
    FeasibilityError,
>)
    requires
        snap.wf(),
    ensures
        (page as int) >= snap.voter_pages@.len() ==> r == Err::<Supports, FeasibilityError>(
            FeasibilityError::SnapshotMissing,
        ),
        (page as int) < snap.voter_pages@.len() ==> {
            let pg = snap.voter_pages@[page as int]@;
            let ts = snap.targets@;
            &&& (r.is_ok() <==> page_feasible(pg, ts, *s, snap.desired_targets))
            &&& (!page_indices_ok(*s, pg.len() as int, ts.len() as int) ==> (r == Err::<
                Supports,
                FeasibilityError,
            >(FeasibilityError::VoterIndexOutOfBounds) || r == Err::<
                Supports,
                FeasibilityError,
            >(FeasibilityError::TargetIndexOutOfBounds) || r == Err::<
                Supports,
                FeasibilityError,
            >(FeasibilityError::TooManyTargetsForVoter)))
            &&& (page_indices_ok(*s, pg.len() as int, ts.len() as int) && !rows_fit(*s, pg)
                ==> r == Err::<Supports, FeasibilityError>(
                FeasibilityError::VoterIndexOutOfBounds,
            ))
            &&& (r == Err::<Supports, FeasibilityError>(FeasibilityError::ForgedBacking)
                <==> page_indices_ok(*s, pg.len() as int, ts.len() as int) && rows_fit(*s, pg)
                && !no_forgery(pg, ts, *s))
            &&& (r == Err::<Supports, FeasibilityError>(FeasibilityError::ProportionSumMismatch)
                <==> page_indices_ok(*s, pg.len() as int, ts.len() as int) && rows_fit(*s, pg)
                && no_forgery(pg, ts, *s) && !(voters_distinct(*s) && sums_ok(*s)))
            &&& (r == Err::<Supports, FeasibilityError>(FeasibilityError::WinnerCountExceeded)
                <==> page_indices_ok(*s, pg.len() as int, ts.len() as int) && rows_fit(*s, pg)
                && no_forgery(pg, ts, *s) && voters_distinct(*s) && sums_ok(*s) && !winners_ok(
                    *s,
                    snap.desired_targets,
                ))
            &&& (r.is_ok() ==> {
                let sup = r.unwrap()@;
                forall|i1: int, i2: int|
                    0 <= i1 < i2 < sup.len() ==> (#[trigger] sup[i1]).0 < (#[trigger] sup[i2]).0
            })
            &&& (r.is_ok() ==> page_supports_rel(pg, ts, *s, r.unwrap()@))
            &&& (r.is_err() ==> (r == Err::<Supports, FeasibilityError>(
                FeasibilityError::VoterIndexOutOfBounds,
            ) || r == Err::<Supports, FeasibilityError>(
                FeasibilityError::TargetIndexOutOfBounds,
            ) || r == Err::<Supports, FeasibilityError>(
                FeasibilityError::TooManyTargetsForVoter,
            ) || r == Err::<Supports, FeasibilityError>(FeasibilityError::ForgedBacking) || r
                == Err::<Supports, FeasibilityError>(FeasibilityError::ProportionSumMismatch)
                || r == Err::<Supports, FeasibilityError>(
                FeasibilityError::WinnerCountExceeded,
            )))
        },
{
    let pg = match snap.voters(page) {
        Some(v) => v,
        None => {
            return Err(FeasibilityError::SnapshotMissing);
        },
    };
    let targets = snap.targets();
    // bounds of every index, via the decoder.
    let decoded = match decode_page(pg, targets, s) {
        Ok(a) => a,
        Err(e) => {
            return Err(e);
        },
    };
    // a page cannot carry more records than it has voters; a longer list
    // necessarily repeats a voter index.
    if decoded.len() > pg.len() {
        return Err(FeasibilityError::VoterIndexOutOfBounds);
    }
    // every backing must be approved by the referencing voter.
    let n1 = s.votes1.len();
    let mut k: usize = 0;
    while k < n1
        invariant
            k <= n1,
            forall|k2: int| 0 <= k2 < k ==> {
                let v = #[trigger] s.votes1@[k2];
                pg@[v.0 as int].votes@.contains(snap.targets@[v.1 as int])
            },
        decreases n1 - k,
    {
        let v = s.votes1[k];
        if !approves(&pg[v.0 as usize], targets[v.1 as usize]) {
            return Err(FeasibilityError::ForgedBacking);
        }
        proof {
            assert(s.votes1@[k as int] == v);
        }
        k = k + 1;
    }
    let n2 = s.votes2.len();
    let mut k: usize = 0;
    while k < n2
        invariant
            k <= n2,
            forall|k2: int| 0 <= k2 < k ==> {
                let v = #[trigger] s.votes2@[k2];
                &&& pg@[v.0 as int].votes@.contains(snap.targets@[v.1.0 as int])
                &&& pg@[v.0 as int].votes@.contains(snap.targets@[v.2 as int])
            },
        decreases n2 - k,
    {
        let v = s.votes2[k];
        if !approves(&pg[v.0 as usize], targets[v.1.0 as usize]) {
            return Err(FeasibilityError::ForgedBacking);
        }
        if !approves(&pg[v.0 as usize], targets[v.2 as usize]) {
            return Err(FeasibilityError::ForgedBacking);
        }
        proof {
            assert(s.votes2@[k as int] == v);
        }
        k = k + 1;
    }
    let nr = s.votes_rest.len();
    let mut k: usize = 0;
    while k < nr
        invariant
            k <= nr,
            forall|k2: int| 0 <= k2 < k ==> {
                let v = #[trigger] s.votes_rest@[k2];
                &&& forall|j: int|
                    0 <= j < v.split@.len() ==> pg@[v.voter as int].votes@.contains(
                        snap.targets@[(#[trigger] v.split@[j]).0 as int],
                    )
                &&& pg@[v.voter as int].votes@.contains(snap.targets@[v.last as int])
            },
        decreases nr - k,
    {
        let sn = s.votes_rest[k].split.len();
        let mut j: usize = 0;
        while j < sn
            invariant
                j <= sn,
                k < nr,
                sn == s.votes_rest@[k as int].split@.len(),
                forall|j2: int|
                    0 <= j2 < j ==> pg@[s.votes_rest@[k as int].voter as int].votes@.contains(
                        snap.targets@[(#[trigger] s.votes_rest@[k as int].split@[j2]).0 as int],
                    ),
            decreases sn - j,
        {
            let vi = s.votes_rest[k].voter;
            let ti = s.votes_rest[k].split[j].0;
            if !approves(&pg[vi as usize], targets[ti as usize]) {
                return Err(FeasibilityError::ForgedBacking);
            }
            proof {
                assert(s.votes_rest@[k as int].split@[j as int].0 == ti);
            }
            j = j + 1;
        }
        let vi = s.votes_rest[k].voter;
        let tl = s.votes_rest[k].last;
        if !approves(&pg[vi as usize], targets[tl as usize]) {
            return Err(FeasibilityError::ForgedBacking);
        }
        k = k + 1;
    }
    // no voter may be referenced by more than one record: a repeated
    // reference would distribute more than the voter's whole stake.
    let mut seen: Vec<u32> = Vec::new();
    let mut k: usize = 0;
    while k < n1
        invariant
            k <= n1,
            forall|i1: int, i2: int| 0 <= i1 < i2 < seen@.len() ==> seen@[i1] < seen@[i2],
            forall|k2: int| 0 <= k2 < k ==> seen@.contains((#[trigger] s.votes1@[k2]).0),
            forall|i: int|
                0 <= i < seen@.len() ==> voter_listed_upto(*s, k as int, 0, 0, #[trigger] seen@[i]),
            forall|k1: int, k2: int|
                0 <= k1 < k2 < k ==> (#[trigger] s.votes1@[k1]).0 != (#[trigger] s.votes1@[k2]).0,
        decreases n1 - k,
    {
        let vi = s.votes1[k].0;
        proof {
            assert(s.votes1@[k as int].0 == vi);
        }
        let ghost pre_seen = seen@;
        if !insert_distinct(&mut seen, vi) {
            proof {
                let i = choose|i: int| 0 <= i < pre_seen.len() && pre_seen[i] == vi;
                assert(voter_listed_upto(*s, k as int, 0, 0, vi));
                let k0 = choose|k0: int| 0 <= k0 < k && (#[trigger] s.votes1@[k0]).0 == vi;
                assert(!voters_distinct(*s));
            }
            return Err(FeasibilityError::ProportionSumMismatch);
        }
        proof {
            assert forall|i: int|
                0 <= i < seen@.len() implies voter_listed_upto(
                *s,
                k + 1,
                0,
                0,
                #[trigger] seen@[i],
            ) by {
                if seen@[i] == vi {
                    assert(s.votes1@[k as int].0 == seen@[i]);
                } else {
                    assert(pre_seen.contains(seen@[i]));
                    let i0 = choose|i0: int| 0 <= i0 < pre_seen.len() && pre_seen[i0] == seen@[i];
                }
            }
        }
        k = k + 1;
    }
    let mut k: usize = 0;
    while k < n2
        invariant
            k <= n2,
            forall|i1: int, i2: int| 0 <= i1 < i2 < seen@.len() ==> seen@[i1] < seen@[i2],
            forall|k2: int| 0 <= k2 < n1 ==> seen@.contains((#[trigger] s.votes1@[k2]).0),
            forall|k2: int| 0 <= k2 < k ==> seen@.contains((#[trigger] s.votes2@[k2]).0),
            forall|i: int|
                0 <= i < seen@.len() ==> voter_listed_upto(
                    *s,
                    n1 as int,
                    k as int,
                    0,
                    #[trigger] seen@[i],
                ),
            forall|k1: int, k2: int|
                0 <= k1 < k2 < n1 ==> (#[trigger] s.votes1@[k1]).0 != (#[trigger] s.votes1@[k2]).0,
            forall|k1: int, k2: int|
                0 <= k1 < k2 < k ==> (#[trigger] s.votes2@[k1]).0 != (#[trigger] s.votes2@[k2]).0,
            forall|k1: int, k2: int|
                0 <= k1 < n1 && 0 <= k2 < k ==> (#[trigger] s.votes1@[k1]).0
                    != (#[trigger] s.votes2@[k2]).0,
        decreases n2 - k,
    {
        let vi = s.votes2[k].0;
        proof {
            assert(s.votes2@[k as int].0 == vi);
        }
        let ghost pre_seen = seen@;
        if !insert_distinct(&mut seen, vi) {
            proof {
                let i = choose|i: int| 0 <= i < pre_seen.len() && pre_seen[i] == vi;
                assert(voter_listed_upto(*s, n1 as int, k as int, 0, vi));
                assert(!voters_distinct(*s));
            }
            return Err(FeasibilityError::ProportionSumMismatch);
        }
        proof {
            assert forall|i: int|
                0 <= i < seen@.len() implies voter_listed_upto(
                *s,
                n1 as int,
                k + 1,
                0,
                #[trigger] seen@[i],
            ) by {
                if seen@[i] == vi {
                    assert(s.votes2@[k as int].0 == seen@[i]);
                } else {
                    assert(pre_seen.contains(seen@[i]));
                    let i0 = choose|i0: int| 0 <= i0 < pre_seen.len() && pre_seen[i0] == seen@[i];
                }
            }
        }
        k = k + 1;
    }
    let mut k: usize = 0;
    while k < nr
        invariant
            k <= nr,
            forall|i1: int, i2: int| 0 <= i1 < i2 < seen@.len() ==> seen@[i1] < seen@[i2],
            forall|k2: int| 0 <= k2 < n1 ==> seen@.contains((#[trigger] s.votes1@[k2]).0),
            forall|k2: int| 0 <= k2 < n2 ==> seen@.contains((#[trigger] s.votes2@[k2]).0),
            forall|k2: int| 0 <= k2 < k ==> seen@.contains((#[trigger] s.votes_rest@[k2]).voter),
            forall|i: int|
                0 <= i < seen@.len() ==> voter_listed_upto(
                    *s,
                    n1 as int,
                    n2 as int,
                    k as int,
                    #[trigger] seen@[i],
                ),
            forall|k1: int, k2: int|
                0 <= k1 < k2 < n1 ==> (#[trigger] s.votes1@[k1]).0 != (#[trigger] s.votes1@[k2]).0,
            forall|k1: int, k2: int|
                0 <= k1 < k2 < n2 ==> (#[trigger] s.votes2@[k1]).0 != (#[trigger] s.votes2@[k2]).0,
            forall|k1: int, k2: int|
                0 <= k1 < n1 && 0 <= k2 < n2 ==> (#[trigger] s.votes1@[k1]).0
                    != (#[trigger] s.votes2@[k2]).0,
            forall|k1: int, k2: int|
                0 <= k1 < k2 < k ==> (#[trigger] s.votes_rest@[k1]).voter
                    != (#[trigger] s.votes_rest@[k2]).voter,
            forall|k1: int, k2: int|
                0 <= k1 < n1 && 0 <= k2 < k ==> (#[trigger] s.votes1@[k1]).0
                    != (#[trigger] s.votes_rest@[k2]).voter,
            forall|k1: int, k2: int|
                0 <= k1 < n2 && 0 <= k2 < k ==> (#[trigger] s.votes2@[k1]).0
                    != (#[trigger] s.votes_rest@[k2]).voter,
        decreases nr - k,
    {
        let vi = s.votes_rest[k].voter;
        proof {
            assert(s.votes_rest@[k as int].voter == vi);
        }
        let ghost pre_seen = seen@;
        if !insert_distinct(&mut seen, vi) {
            proof {
                let i = choose|i: int| 0 <= i < pre_seen.len() && pre_seen[i] == vi;
                assert(voter_listed_upto(*s, n1 as int, n2 as int, k as int, vi));
                assert(!voters_distinct(*s));
            }
            return Err(FeasibilityError::ProportionSumMismatch);
        }
        proof {
            assert forall|i: int|
                0 <= i < seen@.len() implies voter_listed_upto(
                *s,
                n1 as int,
                n2 as int,
                k + 1,
                #[trigger] seen@[i],
            ) by {
                if seen@[i] == vi {
                    assert(s.votes_rest@[k as int].voter == seen@[i]);
                } else {
                    assert(pre_seen.contains(seen@[i]));
                    let i0 = choose|i0: int| 0 <= i0 < pre_seen.len() && pre_seen[i0] == seen@[i];
                }
            }
        }
        k = k + 1;
    }
    proof {
        assert(voters_distinct(*s));
    }
    // proportions of wider records must not overshoot beyond tolerance.
    let mut k: usize = 0;
    while k < nr
        invariant
            k <= nr,
            forall|k2: int| 0 <= k2 < k ==> {
                let v = #[trigger] s.votes_rest@[k2];
                split_sum(v.split@) <= ACCURACY as int + v.split@.len() + 1
            },
        decreases nr - k,
    {
        let sn = s.votes_rest[k].split.len();
        proof {
            assert(sn + 1 <= MAX_VOTES_PER_VOTER);
        }
        let mut used: u32 = 0;
        let mut j: usize = 0;
        while j < sn
            invariant
                j <= sn,
                k < nr,
                sn == s.votes_rest@[k as int].split@.len(),
                sn + 1 <= MAX_VOTES_PER_VOTER,
                used == split_sum(s.votes_rest@[k as int].split@.take(j as int)),
                used <= j * (ACCURACY as int),
            decreases sn - j,
        {
            let pp = s.votes_rest[k].split[j].1;
            proof {
                assert(s.votes_rest@[k as int].split@.take(j + 1).drop_last()
                    =~= s.votes_rest@[k as int].split@.take(j as int));
                assert((j + 1) * (ACCURACY as int) == j * (ACCURACY as int) + ACCURACY as int)
                    by (nonlinear_arith);
            }
            used = used + (pp as u32);
            j = j + 1;
        }
        proof {
            assert(s.votes_rest@[k as int].split@.take(sn as int)
                =~= s.votes_rest@[k as int].split@);
        }
        if used > (ACCURACY as u32) + (sn as u32) + 1 {
            return Err(FeasibilityError::ProportionSumMismatch);
        }
        k = k + 1;
    }
    // the referenced winner set must not exceed the desired count.
    let dts = listed_targets(s);
    if dts.len() > snap.desired_targets() as usize {
        proof {
            assert forall|i1: int, i2: int|
                0 <= i1 < i2 < dts@.len() implies dts@[i1] != dts@[i2] by {
                assert(dts@[i1] < dts@[i2]);
            }
            // no smaller distinct cover can exist: the collected distinct
            // targets inject into any cover.
            if exists|dts2: Seq<u16>|
                {
                    &&& forall|i1: int, i2: int|
                        0 <= i1 < i2 < dts2.len() ==> dts2[i1] != dts2[i2]
                    &&& forall|ti: u16| target_listed(*s, ti) ==> dts2.contains(ti)
                    &&& dts2.len() <= snap.desired_targets
                } {
                let dts2 = choose|dts2: Seq<u16>|
                    {
                        &&& forall|i1: int, i2: int|
                            0 <= i1 < i2 < dts2.len() ==> dts2[i1] != dts2[i2]
                        &&& forall|ti: u16| target_listed(*s, ti) ==> dts2.contains(ti)
                        &&& dts2.len() <= snap.desired_targets
                    };
                assert(forall|i: int|
                    0 <= i < dts@.len() ==> dts2.contains(#[trigger] dts@[i]));
                lemma_distinct_covered(dts@, dts2);
                assert(false);
            }
        }
        return Err(FeasibilityError::WinnerCountExceeded);
    }
    // rebuild the supports from the decoded assignments.
    let dn = decoded.len();
    let mut staked: Vec<StakedAssignment> = Vec::new();
    let mut k: usize = 0;
    while k < dn
        invariant
            k <= dn,
            staked@.len() == k,
            dn == decoded@.len(),
            dn <= pg@.len(),
            pg@.len() <= u32::MAX,
            forall|k2: int| 0 <= k2 < staked@.len() ==> {
                let a = #[trigger] staked@[k2];
                &&& a.distribution@.len() <= MAX_VOTES_PER_VOTER
                &&& forall|j: int| 0 <= j < a.distribution@.len()
                    ==> ((#[trigger] a.distribution@[j]).1 as int) <= u64::MAX
            },
            forall|k2: int|
                0 <= k2 < staked@.len() ==> staked_rel(
                    #[trigger] decoded@[k2],
                    stake_in_page(pg@, decoded@[k2].who),
                    staked@[k2],
                ),
        decreases dn - k,
    {
        let a = &decoded[k];
        let stake = match voter_position(pg, a.who) {
            Some(i) => {
                proof {
                    lemma_stake_in_page_at(
                        snap.voter_pages@,
                        snap.targets@,
                        page as int,
                        i as int,
                    );
                }
                pg[i].stake
            },
            None => {
                proof {
                    let i0 = choose|i0: int|
                        0 <= i0 < pg@.len() && pg@[i0].who == decoded@[k as int].who;
                    assert(false);
                }
                0u64
            },
        };
        proof {
            assert(stake == stake_in_page(pg@, decoded@[k as int].who));
        }
        let sa = assignment_into_staked(a, stake);
        staked.push(sa);
        k = k + 1;
    }
    proof {
        assert(staked_bounded(staked@));
        let dts_s = dts@;
        assert forall|i1: int, i2: int|
            0 <= i1 < i2 < dts_s.len() implies dts_s[i1] != dts_s[i2] by {
            assert(dts_s[i1] < dts_s[i2]);
        }
    }
    let supports = to_supports(&staked);
    proof {
        assert(decoded_rel(pg@, snap.targets@, *s, decoded@));
        assert(supports_rel(staked@, supports@));
        assert(page_supports_rel(pg@, snap.targets@, *s, supports@));
    }
    Ok(supports)
}

/// A sequence without duplicates whose elements all occur in another
/// sequence is no longer than it.
proof fn lemma_distinct_covered(d1: Seq<u16>, d2: Seq<u16>)
    requires
        d1.no_duplicates(),
        forall|i: int| 0 <= i < d1.len() ==> d2.contains(#[trigger] d1[i]),
    ensures
        d1.len() <= d2.len(),
{
    broadcast use vstd::seq_lib::group_seq_properties;
    d1.unique_seq_to_set();
    d2.lemma_cardinality_of_set();
    assert forall|x: u16| d1.to_set().contains(x) implies d2.to_set().contains(x) by {
        assert(d1.contains(x));
        let i = choose|i: int| 0 <= i < d1.len() && d1[i] == x;
        assert(d2.contains(x));
    }
    assert(d1.to_set().subset_of(d2.to_set()));
    vstd::seq_lib::seq_to_set_is_finite(d2);
    vstd::set_lib::lemma_len_subset(d1.to_set(), d2.to_set());
}

/// Whether the voter approves the target.
fn approves(v: &VoterRecord, t: AccountId) -> (r: bool)
    ensures
        r <==> v.votes@.contains(t),
{
    let n = v.votes.len();
    let mut i: usize = 0;
    while i < n
        invariant
            i <= n,
            n == v.votes@.len(),
            forall|j: int| 0 <= j < i ==> v.votes@[j] != t,
        decreases n - i,
    {
        if v.votes[i] == t {
            return true;
        }
        i = i + 1;
    }
    false
}

} // verus!
