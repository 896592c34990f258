//! The assignment partitioner and the compact solution encoding: splitting
//! the solver's full assignment set into per-page sub-lists, and converting
//! one page's sub-list into the bounded, index-addressed wire form and back.

use vstd::prelude::*;
use crate::snapshot::{pages_wf, voter_at, voter_in_pages, Snapshot};
use crate::solver::Assignment;
use crate::{AccountId, ElectionScore, FeasibilityError, TargetIndex, VoterIndex, VoterRecord};
use crate::{ACCURACY, MAX_VOTES_PER_VOTER};

verus! {

/// Whether one page holds `who`.
pub open spec fn page_contains(page: Vec<VoterRecord>, who: AccountId) -> bool {
    exists|i: int| 0 <= i < page@.len() && page@[i].who == who
}

/// The page that holds `who`, as an abstract value.
pub open spec fn page_of_spec(pages: Seq<Vec<VoterRecord>>, who: AccountId) -> int {
    choose|p: int| 0 <= p < pages.len() && page_contains(#[trigger] pages[p], who)
}

/// Under well-formed pages, the abstract page of a voter stored at `(p, i)`
/// is exactly `p`.
pub proof fn lemma_page_of_unique(
    pages: Seq<Vec<VoterRecord>>,
    targets: Seq<AccountId>,
    p: int,
    i: int,
)
    requires
        pages_wf(pages, targets),
        0 <= p < pages.len(),
        0 <= i < pages[p]@.len(),
    ensures
        page_of_spec(pages, voter_at(pages, p, i).who) == p,
{
    let who = voter_at(pages, p, i).who;
    assert(page_contains(pages[p], who));
    assert(exists|p2: int| 0 <= p2 < pages.len() && page_contains(#[trigger] pages[p2], who));
    let pc = page_of_spec(pages, who);
    assert(0 <= pc < pages.len() && page_contains(pages[pc], who));
    if pc != p {
        let ic = choose|ic: int| 0 <= ic < pages[pc]@.len() && pages[pc]@[ic].who == who;
        assert(voter_at(pages, pc, ic).who != voter_at(pages, p, i).who);
        assert(false);
    }
}

/// A voter found anywhere in the pages sits on its abstract page.
pub proof fn lemma_page_of_contains(pages: Seq<Vec<VoterRecord>>, who: AccountId)
    requires
        voter_in_pages(pages, who),
    ensures
        0 <= page_of_spec(pages, who) < pages.len(),
        page_contains(pages[page_of_spec(pages, who)], who),
{
    let (p, i): (int, int) = choose|p: int, i: int|
        0 <= p < pages.len() && 0 <= i < pages[p]@.len() && voter_at(pages, p, i).who == who;
    assert(page_contains(pages[p], who));
    assert(exists|p2: int| 0 <= p2 < pages.len() && page_contains(#[trigger] pages[p2], who));
}

/// The membership predicate of page `p`, over assignments.
pub open spec fn in_page(pages: Seq<Vec<VoterRecord>>, p: int) -> spec_fn(Assignment) -> bool {
    |a: Assignment| page_of_spec(pages, a.who) == p
}

/// A filtered singleton is the singleton or empty, by the predicate.
pub proof fn lemma_filter_singleton<A>(x: A, pred: spec_fn(A) -> bool)
    ensures
        seq![x].filter(pred) == if pred(x) {
            seq![x]
        } else {
            Seq::<A>::empty()
        },
{
    reveal(Seq::filter);
    assert(seq![x].drop_last() =~= Seq::<A>::empty());
    assert(Seq::<A>::empty().filter(pred) =~= Seq::<A>::empty());
    if pred(x) {
        assert(seq![x].filter(pred) =~= seq![x]);
    } else {
        assert(seq![x].filter(pred) =~= Seq::<A>::empty());
    }
}

/// Splits the full assignment set into one ordered sub-list per page,
/// preserving the relative order of assignments. Each page's sub-list is
/// exactly the assignments of the voters that the paging index places on
/// that page: no assignment is dropped, duplicated or split.
#[verifier::loop_isolation(false)]
#[verifier::spinoff_prover]
pub fn partition_assignments(snap: &Snapshot, assignments: Vec<Assignment>) -> (r: Vec<
    Vec<Assignment>,
>)
    requires
        snap.wf(),
        forall|k: int|
            0 <= k < assignments@.len() ==> voter_in_pages(
                snap.voter_pages@,
                (#[trigger] assignments@[k]).who,
            ),
    ensures
        r@.len() == snap.voter_pages@.len(),
        forall|p: int|
            0 <= p < r@.len() ==> (#[trigger] r@[p])@ == assignments@.filter(
                in_page(snap.voter_pages@, p),
            ),
{
    let np = snap.voter_pages.len();
    let mut buckets: Vec<Vec<Assignment>> = Vec::new();
    let mut p: usize = 0;
    while p < np
        invariant
            p <= np,
            buckets@.len() == p,
            forall|p2: int| 0 <= p2 < p ==> (#[trigger] buckets@[p2])@.len() == 0,
        decreases np - p,
    {
        buckets.push(Vec::new());
        p = p + 1;
    }
    proof {
        assert forall|p2: int|
            0 <= p2 < np implies (#[trigger] buckets@[p2])@ == assignments@.take(0).filter(
            in_page(snap.voter_pages@, p2),
        ) by {
            assert(assignments@.take(0) =~= Seq::<Assignment>::empty());
            reveal(Seq::filter);
            assert(buckets@[p2]@ =~= Seq::<Assignment>::empty());
        }
    }
    let n = assignments.len();
    let mut rest = assignments;
    let mut k: usize = 0;
    while k < n
        invariant
            k <= n,
            rest@ == assignments@.skip(k as int),
            buckets@.len() == np,
            forall|p2: int|
                0 <= p2 < np ==> (#[trigger] buckets@[p2])@ == assignments@.take(k as int).filter(
                    in_page(snap.voter_pages@, p2),
                ),
        decreases n - k,
    {
        let a = rest.remove(0);
        proof {
            assert(a == assignments@[k as int]);
            assert(rest@ =~= assignments@.skip(k + 1));
        }
        let pi = snap.page_of(a.who);
        let (pg, _off) = match pi {
            Some(x) => x,
            None => {
                proof {
                    assert(voter_in_pages(snap.voter_pages@, assignments@[k as int].who));
                    assert(false);
                }
                (0u32, 0u32)
            },
        };
        proof {
            lemma_page_of_unique(snap.voter_pages@, snap.targets@, pg as int, _off as int);
        }
        let ghost pre = buckets@;
        let mut row = buckets.remove(pg as usize);
        let ghost prerow = row@;
        row.push(a);
        buckets.insert(pg as usize, row);
        proof {
            assert(buckets@ =~= pre.update(pg as int, buckets@[pg as int]));
            assert(buckets@[pg as int]@ =~= prerow.push(a));
            assert forall|p2: int|
                0 <= p2 < np implies (#[trigger] buckets@[p2])@ == assignments@.take(
                k + 1,
            ).filter(in_page(snap.voter_pages@, p2)) by {
                let pred = in_page(snap.voter_pages@, p2);
                assert(assignments@.take(k + 1) =~= assignments@.take(k as int) + seq![a]);
                Seq::filter_distributes_over_add(assignments@.take(k as int), seq![a], pred);
                lemma_filter_singleton(a, pred);
                if p2 == pg as int {
                    assert(pred(a));
                    assert(buckets@[p2]@ =~= pre[p2]@ + seq![a]);
                } else {
                    assert(!pred(a));
                    assert(buckets@[p2]@ =~= pre[p2]@ + Seq::<Assignment>::empty());
                }
            }
        }
        k = k + 1;
    }
    proof {
        assert(assignments@.take(n as int) =~= assignments@);
    }
    buckets
}

/// A vote record of a voter backing three or more targets: all splits but
/// the last, and the last target taking the implicit remainder.
#[derive(Clone, Debug, PartialEq, Eq)]
pub struct RestVote {
    pub voter: VoterIndex,
    pub split: Vec<(TargetIndex, u16)>,
    pub last: TargetIndex,
}

/// The bounded, index-addressed form of one page's assignments: voters are
/// addressed by their position in the page, targets by their position in
/// the flat target list. Voters backing one target are a plain pair; voters
/// backing two targets carry one explicit proportion and an implicit
/// remainder; wider backings carry all proportions but the last.
#[derive(Clone, Debug, PartialEq, Eq)]
pub struct SolutionPage {
    pub votes1: Vec<(VoterIndex, TargetIndex)>,
    pub votes2: Vec<(VoterIndex, (TargetIndex, u16), TargetIndex)>,
    pub votes_rest: Vec<RestVote>,
}

/// A complete candidate solution: one encoded page per snapshot page, the
/// claimed score, and the round it was mined for.
#[derive(Clone, Debug, PartialEq, Eq)]
pub struct PagedRawSolution {
    pub solution_pages: Vec<SolutionPage>,
    pub score: ElectionScore,
    pub round: u32,
}

/// Position of `who` among the voters of one page.
#[verifier::loop_isolation(false)]
pub fn voter_position(page: &Vec<VoterRecord>, who: AccountId) -> (r: Option<usize>)
    ensures
        match r {
            Some(i) => i < page@.len() && page@[i as int].who == who,
            None => forall|i: int| 0 <= i < page@.len() ==> page@[i].who != who,
        },
{
    let n = page.len();
    let mut i: usize = 0;
    while i < n
        invariant
            i <= n,
            forall|j: int| 0 <= j < i ==> page@[j].who != who,
        decreases n - i,
    {
        if page[i].who == who {
            return Some(i);
        }
        i = i + 1;
    }
    None
}

/// The single-target assignments.
pub open spec fn is_one() -> spec_fn(Assignment) -> bool {
    |a: Assignment| a.distribution@.len() == 1
}

/// The two-target assignments.
pub open spec fn is_two() -> spec_fn(Assignment) -> bool {
    |a: Assignment| a.distribution@.len() == 2
}

/// The assignments backing three or more targets.
pub open spec fn is_wide() -> spec_fn(Assignment) -> bool {
    |a: Assignment| a.distribution@.len() >= 3
}

/// What encoding a single-target assignment records.
pub open spec fn enc1(
    page: Seq<VoterRecord>,
    targets: Seq<AccountId>,
    v: (VoterIndex, TargetIndex),
    a: Assignment,
) -> bool {
    &&& page[v.0 as int].who == a.who
    &&& targets[v.1 as int] == a.distribution@[0].0
}

/// What encoding a two-target assignment records.
pub open spec fn enc2(
    page: Seq<VoterRecord>,
    targets: Seq<AccountId>,
    v: (VoterIndex, (TargetIndex, u16), TargetIndex),
    a: Assignment,
) -> bool {
    &&& page[v.0 as int].who == a.who
    &&& targets[v.1.0 as int] == a.distribution@[0].0
    &&& v.1.1 == a.distribution@[0].1
    &&& targets[v.2 as int] == a.distribution@[1].0
}

/// What encoding a wider assignment records.
pub open spec fn enc_rest(
    page: Seq<VoterRecord>,
    targets: Seq<AccountId>,
    v: RestVote,
    a: Assignment,
) -> bool {
    &&& page[v.voter as int].who == a.who
    &&& v.split@.len() + 1 == a.distribution@.len()
    &&& forall|j: int| 0 <= j < v.split@.len() ==> {
        &&& targets[(#[trigger] v.split@[j]).0 as int] == a.distribution@[j].0
        &&& v.split@[j].1 == a.distribution@[j].1
    }
    &&& targets[v.last as int] == a.distribution@[a.distribution@.len() - 1].0
}

/// Encodes one page's assignment sub-list into its compact form. Every
/// voter must sit in the page, every backed target must be a known one,
/// and no distribution may be empty or wider than the allowed maximum. The
/// encoded page indexes each voter by its page position and each target by
/// its list position, keeping the explicit proportions of all targets but
/// the last, grouped by the number of backed targets.
#[verifier::loop_isolation(false)]
#[verifier::rlimit(60)]
#[verifier::spinoff_prover]
pub fn encode_page(
    page: &Vec<VoterRecord>,
    targets: &Vec<AccountId>,
    assignments: &Vec<Assignment>,
) -> (r: SolutionPage)
    requires
        page@.len() <= u32::MAX,
        targets@.len() <= u16::MAX as int + 1,
        forall|k: int|
            0 <= k < assignments@.len() ==> {
                let a = #[trigger] assignments@[k];
                &&& exists|i: int| 0 <= i < page@.len() && page@[i].who == a.who
                &&& 1 <= a.distribution@.len() <= MAX_VOTES_PER_VOTER
                &&& forall|j: int|
                    0 <= j < a.distribution@.len() ==> targets@.contains(
                        (#[trigger] a.distribution@[j]).0,
                    )
            },
    ensures
        page_indices_ok(r, page@.len() as int, targets@.len() as int),
        r.votes1@.len() == assignments@.filter(is_one()).len(),
        r.votes2@.len() == assignments@.filter(is_two()).len(),
        r.votes_rest@.len() == assignments@.filter(is_wide()).len(),
        forall|k: int|
            0 <= k < r.votes1@.len() ==> enc1(
                page@,
                targets@,
                #[trigger] r.votes1@[k],
                assignments@.filter(is_one())[k],
            ),
        forall|k: int|
            0 <= k < r.votes2@.len() ==> enc2(
                page@,
                targets@,
                #[trigger] r.votes2@[k],
                assignments@.filter(is_two())[k],
            ),
        forall|k: int|
            0 <= k < r.votes_rest@.len() ==> enc_rest(
                page@,
                targets@,
                #[trigger] r.votes_rest@[k],
                assignments@.filter(is_wide())[k],
            ),
        encode_rel(page@, targets@, assignments@, r),
{
    let n = assignments.len();
    let mut votes1: Vec<(VoterIndex, TargetIndex)> = Vec::new();
    let mut votes2: Vec<(VoterIndex, (TargetIndex, u16), TargetIndex)> = Vec::new();
    let mut votes_rest: Vec<RestVote> = Vec::new();
    let mut k: usize = 0;
    while k < n
        invariant
            k <= n,
            votes1@.len() == assignments@.take(k as int).filter(is_one()).len(),
            votes2@.len() == assignments@.take(k as int).filter(is_two()).len(),
            votes_rest@.len() == assignments@.take(k as int).filter(is_wide()).len(),
            forall|k2: int| 0 <= k2 < votes1@.len() ==> {
                let v = #[trigger] votes1@[k2];
                (v.0 as int) < page@.len() && (v.1 as int) < targets@.len()
            },
            forall|k2: int| 0 <= k2 < votes2@.len() ==> {
                let v = #[trigger] votes2@[k2];
                (v.0 as int) < page@.len() && (v.1.0 as int) < targets@.len() && (v.2 as int)
                    < targets@.len()
            },
            forall|k2: int| 0 <= k2 < votes_rest@.len() ==> {
                let v = #[trigger] votes_rest@[k2];
                &&& (v.voter as int) < page@.len()
                &&& (v.last as int) < targets@.len()
                &&& forall|j: int|
                    0 <= j < v.split@.len() ==> ((#[trigger] v.split@[j]).0 as int)
                        < targets@.len()
                &&& v.split@.len() + 1 <= MAX_VOTES_PER_VOTER
            },
            forall|k2: int|
                0 <= k2 < votes1@.len() ==> enc1(
                    page@,
                    targets@,
                    #[trigger] votes1@[k2],
                    assignments@.take(k as int).filter(is_one())[k2],
                ),
            forall|k2: int|
                0 <= k2 < votes2@.len() ==> enc2(
                    page@,
                    targets@,
                    #[trigger] votes2@[k2],
                    assignments@.take(k as int).filter(is_two())[k2],
                ),
            forall|k2: int|
                0 <= k2 < votes_rest@.len() ==> enc_rest(
                    page@,
                    targets@,
                    #[trigger] votes_rest@[k2],
                    assignments@.take(k as int).filter(is_wide())[k2],
                ),
        decreases n - k,
    {
        let a = &assignments[k];
        proof {
            assert(assignments@.take(k + 1) =~= assignments@.take(k as int) + seq![
                assignments@[k as int],
            ]);
            Seq::filter_distributes_over_add(
                assignments@.take(k as int),
                seq![assignments@[k as int]],
                is_one(),
            );
            Seq::filter_distributes_over_add(
                assignments@.take(k as int),
                seq![assignments@[k as int]],
                is_two(),
            );
            Seq::filter_distributes_over_add(
                assignments@.take(k as int),
                seq![assignments@[k as int]],
                is_wide(),
            );
            lemma_filter_singleton(assignments@[k as int], is_one());
            lemma_filter_singleton(assignments@[k as int], is_two());
            lemma_filter_singleton(assignments@[k as int], is_wide());
        }
        let vi = match voter_position(page, a.who) {
            Some(i) => i as u32,
            None => {
                proof {
                    let i0 = choose|i0: int|
                        0 <= i0 < page@.len() && page@[i0].who == assignments@[k as int].who;
                    assert(false);
                }
                0u32
            },
        };
        let dn = a.distribution.len();
        if dn == 1 {
            let t = a.distribution[0].0;
            let ti = match crate::solver::target_position(targets, t) {
                Some(i) => i as u16,
                None => {
                    proof {
                        assert(targets@.contains(assignments@[k as int].distribution@[0].0));
                        assert(false);
                    }
                    0u16
                },
            };
            let ghost pre = votes1@;
            votes1.push((vi, ti));
            proof {
                assert((vi as int) < page@.len() && (ti as int) < targets@.len());
                assert(votes1@[pre.len() as int] == (vi, ti));
                assert(assignments@.take(k + 1).filter(is_one()) =~= assignments@.take(
                    k as int,
                ).filter(is_one()).push(assignments@[k as int]));
                assert(enc1(page@, targets@, votes1@[pre.len() as int],
                    assignments@[k as int]));
            }
        } else if dn == 2 {
            let (t0, p0) = a.distribution[0];
            let (t1, _p1) = a.distribution[1];
            let ti0 = match crate::solver::target_position(targets, t0) {
                Some(i) => i as u16,
                None => {
                    proof {
                        assert(targets@.contains(assignments@[k as int].distribution@[0].0));
                        assert(false);
                    }
                    0u16
                },
            };
            let ti1 = match crate::solver::target_position(targets, t1) {
                Some(i) => i as u16,
                None => {
                    proof {
                        assert(targets@.contains(assignments@[k as int].distribution@[1].0));
                        assert(false);
                    }
                    0u16
                },
            };
            let ghost pre = votes2@;
            votes2.push((vi, (ti0, p0), ti1));
            proof {
                assert((vi as int) < page@.len() && (ti0 as int) < targets@.len() && (
                ti1 as int) < targets@.len());
                assert(votes2@[pre.len() as int] == (vi, (ti0, p0), ti1));
                assert(assignments@.take(k + 1).filter(is_two()) =~= assignments@.take(
                    k as int,
                ).filter(is_two()).push(assignments@[k as int]));
                assert(enc2(page@, targets@, votes2@[pre.len() as int],
                    assignments@[k as int]));
            }
        } else {
            let mut split: Vec<(TargetIndex, u16)> = Vec::new();
            let mut j: usize = 0;
            while j < dn - 1
                invariant
                    j <= dn - 1,
                    dn == assignments@[k as int].distribution@.len(),
                    3 <= dn <= MAX_VOTES_PER_VOTER,
                    k < n,
                    split@.len() == j,
                    forall|j2: int| 0 <= j2 < j ==> {
                        &&& ((#[trigger] split@[j2]).0 as int) < targets@.len()
                        &&& targets@[split@[j2].0 as int]
                            == assignments@[k as int].distribution@[j2].0
                        &&& split@[j2].1 == assignments@[k as int].distribution@[j2].1
                    },
                decreases dn - 1 - j,
            {
                let (t, pp) = a.distribution[j];
                let ti = match crate::solver::target_position(targets, t) {
                    Some(i) => i as u16,
                    None => {
                        proof {
                            assert(targets@.contains(
                                assignments@[k as int].distribution@[j as int].0,
                            ));
                            assert(false);
                        }
                        0u16
                    },
                };
                split.push((ti, pp));
                j = j + 1;
            }
            let (tl, _pl) = a.distribution[dn - 1];
            let til = match crate::solver::target_position(targets, tl) {
                Some(i) => i as u16,
                None => {
                    proof {
                        assert(targets@.contains(
                            assignments@[k as int].distribution@[dn - 1].0,
                        ));
                        assert(false);
                    }
                    0u16
                },
            };
            let ghost pre = votes_rest@;
            let ghost new_rv = RestVote { voter: vi, split: split, last: til };
            votes_rest.push(RestVote { voter: vi, split, last: til });
            proof {
                assert((vi as int) < page@.len() && (til as int) < targets@.len());
                assert(votes_rest@[pre.len() as int].split@.len() + 1
                    <= MAX_VOTES_PER_VOTER);
                assert(forall|j2: int|
                    0 <= j2 < votes_rest@[pre.len() as int].split@.len()
                        ==> ((#[trigger] votes_rest@[pre.len() as int].split@[j2]).0 as int)
                            < targets@.len());
                assert(assignments@.take(k + 1).filter(is_wide()) =~= assignments@.take(
                    k as int,
                ).filter(is_wide()).push(assignments@[k as int]));
                assert(enc_rest(page@, targets@, votes_rest@[pre.len() as int],
                    assignments@[k as int]));
            }
        }
        k = k + 1;
    }
    proof {
        assert(assignments@.take(n as int) =~= assignments@);
    }
    let r = SolutionPage { votes1, votes2, votes_rest };
    proof {
        assert(page_indices_ok(r, page@.len() as int, targets@.len() as int));
    }
    r
}

/// The implicit remainder proportion: one whole stake less the explicit
/// parts, floored at nothing.
pub open spec fn rem_of(sum: int) -> u16 {
    if sum >= ACCURACY as int {
        0u16
    } else {
        (ACCURACY as int - sum) as u16
    }
}

/// The sum of the explicit proportions of a split record.
pub open spec fn split_sum(split: Seq<(TargetIndex, u16)>) -> int
    decreases split.len(),
{
    if split.len() == 0 {
        0
    } else {
        split_sum(split.drop_last()) + split.last().1
    }
}

/// What decoding a single-target record yields.
pub open spec fn matches1(
    page: Seq<VoterRecord>,
    targets: Seq<AccountId>,
    v: (VoterIndex, TargetIndex),
    a: Assignment,
) -> bool {
    &&& a.who == page[v.0 as int].who
    &&& a.distribution@.len() == 1
    &&& a.distribution@[0] == (targets[v.1 as int], ACCURACY)
}

/// What decoding a two-target record yields.
pub open spec fn matches2(
    page: Seq<VoterRecord>,
    targets: Seq<AccountId>,
    v: (VoterIndex, (TargetIndex, u16), TargetIndex),
    a: Assignment,
) -> bool {
    &&& a.who == page[v.0 as int].who
    &&& a.distribution@.len() == 2
    &&& a.distribution@[0] == (targets[v.1.0 as int], v.1.1)
    &&& a.distribution@[1] == (targets[v.2 as int], rem_of(v.1.1 as int))
}

/// What decoding a wider record yields.
pub open spec fn matches_rest(
    page: Seq<VoterRecord>,
    targets: Seq<AccountId>,
    v: RestVote,
    a: Assignment,
) -> bool {
    &&& a.who == page[v.voter as int].who
    &&& a.distribution@.len() == v.split@.len() + 1
    &&& forall|j: int| 0 <= j < v.split@.len()
        ==> (#[trigger] a.distribution@[j]) == (
            targets[v.split@[j].0 as int],
            v.split@[j].1,
        )
    &&& a.distribution@[v.split@.len() as int] == (
        targets[v.last as int],
        rem_of(split_sum(v.split@)),
    )
}

/// What decoding an encoded page yields, record for record: first the
/// single-target records, then the two-target ones, then the wider ones,
/// each decoded to the page's voter and the listed targets with the last
/// proportion taken as the implicit remainder.
pub open spec fn decoded_rel(
    page: Seq<VoterRecord>,
    targets: Seq<AccountId>,
    s: SolutionPage,
    asgs: Seq<Assignment>,
) -> bool {
    &&& asgs.len() == s.votes1@.len() + s.votes2@.len() + s.votes_rest@.len()
    &&& forall|k: int|
        0 <= k < s.votes1@.len() ==> matches1(page, targets, #[trigger] s.votes1@[k], asgs[k])
    &&& forall|k: int|
        0 <= k < s.votes2@.len() ==> matches2(
            page,
            targets,
            #[trigger] s.votes2@[k],
            asgs[s.votes1@.len() + k],
        )
    &&& forall|k: int|
        0 <= k < s.votes_rest@.len() ==> matches_rest(
            page,
            targets,
            #[trigger] s.votes_rest@[k],
            asgs[s.votes1@.len() + s.votes2@.len() + k],
        )
}

/// What encoding one page's assignment sub-list yields: indices in bounds,
/// the records grouped and counted by the number of backed targets, each
/// recording exactly its assignment's voter, targets and explicit
/// proportions.
pub open spec fn encode_rel(
    page: Seq<VoterRecord>,
    targets: Seq<AccountId>,
    asgs: Seq<Assignment>,
    s: SolutionPage,
) -> bool {
    &&& page_indices_ok(s, page.len() as int, targets.len() as int)
    &&& s.votes1@.len() == asgs.filter(is_one()).len()
    &&& s.votes2@.len() == asgs.filter(is_two()).len()
    &&& s.votes_rest@.len() == asgs.filter(is_wide()).len()
    &&& forall|k: int|
        0 <= k < s.votes1@.len() ==> enc1(
            page,
            targets,
            #[trigger] s.votes1@[k],
            asgs.filter(is_one())[k],
        )
    &&& forall|k: int|
        0 <= k < s.votes2@.len() ==> enc2(
            page,
            targets,
            #[trigger] s.votes2@[k],
            asgs.filter(is_two())[k],
        )
    &&& forall|k: int|
        0 <= k < s.votes_rest@.len() ==> enc_rest(
            page,
            targets,
            #[trigger] s.votes_rest@[k],
            asgs.filter(is_wide())[k],
        )
}

/// All voter and target indices of an encoded page lie inside the given
/// page and target list, and no record is wider than the allowed maximum.
pub open spec fn page_indices_ok(s: SolutionPage, nv: int, nt: int) -> bool {
    &&& forall|k: int| 0 <= k < s.votes1@.len() ==> {
        let v = #[trigger] s.votes1@[k];
        (v.0 as int) < nv && (v.1 as int) < nt
    }
    &&& forall|k: int| 0 <= k < s.votes2@.len() ==> {
        let v = #[trigger] s.votes2@[k];
        (v.0 as int) < nv && (v.1.0 as int) < nt && (v.2 as int) < nt
    }
    &&& forall|k: int| 0 <= k < s.votes_rest@.len() ==> {
        let v = #[trigger] s.votes_rest@[k];
        &&& (v.voter as int) < nv
        &&& (v.last as int) < nt
        &&& forall|j: int|
            0 <= j < v.split@.len() ==> ((#[trigger] v.split@[j]).0 as int) < nt
        &&& v.split@.len() + 1 <= MAX_VOTES_PER_VOTER
    }
}

/// Decodes an untrusted encoded page back into assignments, rejecting any
/// out-of-bounds voter or target index and any record wider than the
/// allowed maximum. The decoded list carries first the single-target
/// records, then the two-target ones, then the wider ones; the last target
/// of a split record takes the remainder up to one whole stake.
#[verifier::loop_isolation(false)]
#[verifier::spinoff_prover]
pub fn decode_page(
    page: &Vec<VoterRecord>,
    targets: &Vec<AccountId>,
    s: &SolutionPage,
) -> (r: Result<Vec<Assignment>, FeasibilityError>)
    ensures
        r.is_ok() <==> page_indices_ok(*s, page@.len() as int, targets@.len() as int),
        r.is_ok() ==> {
            let asgs = r.unwrap()@;
            &&& asgs.len() == s.votes1@.len() + s.votes2@.len() + s.votes_rest@.len()
            &&& forall|k: int| 0 <= k < asgs.len() ==> {
                let a = #[trigger] asgs[k];
                &&& exists|i: int| 0 <= i < page@.len() && page@[i].who == a.who
                &&& 1 <= a.distribution@.len() <= MAX_VOTES_PER_VOTER
                &&& forall|j: int|
                    0 <= j < a.distribution@.len() ==> targets@.contains(
                        (#[trigger] a.distribution@[j]).0,
                    )
            }
            &&& forall|k: int| 0 <= k < s.votes1@.len()
                ==> matches1(page@, targets@, #[trigger] s.votes1@[k], asgs[k])
            &&& forall|k: int| 0 <= k < s.votes2@.len()
                ==> matches2(
                    page@,
                    targets@,
                    #[trigger] s.votes2@[k],
                    asgs[s.votes1@.len() + k],
                )
            &&& forall|k: int| 0 <= k < s.votes_rest@.len()
                ==> matches_rest(
                    page@,
                    targets@,
                    #[trigger] s.votes_rest@[k],
                    asgs[s.votes1@.len() + s.votes2@.len() + k],
                )
            &&& decoded_rel(page@, targets@, *s, asgs)
        },
        r.is_err() ==> (r == Err::<Vec<Assignment>, FeasibilityError>(
            FeasibilityError::VoterIndexOutOfBounds,
        ) || r == Err::<Vec<Assignment>, FeasibilityError>(
            FeasibilityError::TargetIndexOutOfBounds,
        ) || r == Err::<Vec<Assignment>, FeasibilityError>(
            FeasibilityError::TooManyTargetsForVoter,
        )),
        r == Err::<Vec<Assignment>, FeasibilityError>(FeasibilityError::VoterIndexOutOfBounds)
            ==> !(forall|k: int|
            0 <= k < s.votes1@.len() ==> ((#[trigger] s.votes1@[k]).0 as int) < page@.len())
            || !(forall|k: int|
            0 <= k < s.votes2@.len() ==> ((#[trigger] s.votes2@[k]).0 as int) < page@.len())
            || !(forall|k: int|
            0 <= k < s.votes_rest@.len() ==> ((#[trigger] s.votes_rest@[k]).voter as int)
                < page@.len()),
{
    let nv = page.len();
    let nt = targets.len();
    let mut asgs: Vec<Assignment> = Vec::new();
    let n1 = s.votes1.len();
    let mut k: usize = 0;
    while k < n1
        invariant
            k <= n1,
            asgs@.len() == k,
            forall|k2: int| 0 <= k2 < k ==> {
                let v = #[trigger] s.votes1@[k2];
                (v.0 as int) < nv && (v.1 as int) < nt
            },
            forall|k2: int| 0 <= k2 < asgs@.len() ==> {
                let a = #[trigger] asgs@[k2];
                &&& exists|i: int| 0 <= i < page@.len() && page@[i].who == a.who
                &&& 1 <= a.distribution@.len() <= MAX_VOTES_PER_VOTER
                &&& forall|j: int|
                    0 <= j < a.distribution@.len() ==> targets@.contains(
                        (#[trigger] a.distribution@[j]).0,
                    )
            },
            forall|k2: int| 0 <= k2 < k
                ==> matches1(page@, targets@, #[trigger] s.votes1@[k2], asgs@[k2]),
        decreases n1 - k,
    {
        let (vi, ti) = s.votes1[k];
        if (vi as usize) >= nv {
            return Err(FeasibilityError::VoterIndexOutOfBounds);
        }
        if (ti as usize) >= nt {
            return Err(FeasibilityError::TargetIndexOutOfBounds);
        }
        let who = page[vi as usize].who;
        let t = targets[ti as usize];
        let mut distribution: Vec<(AccountId, u16)> = Vec::new();
        distribution.push((t, ACCURACY));
        asgs.push(Assignment { who, distribution });
        k = k + 1;
    }
    let n2 = s.votes2.len();
    let mut k: usize = 0;
    while k < n2
        invariant
            k <= n2,
            asgs@.len() == n1 + k,
            forall|k2: int| 0 <= k2 < k ==> {
                let v = #[trigger] s.votes2@[k2];
                (v.0 as int) < nv && (v.1.0 as int) < nt && (v.2 as int) < nt
            },
            forall|k2: int| 0 <= k2 < asgs@.len() ==> {
                let a = #[trigger] asgs@[k2];
                &&& exists|i: int| 0 <= i < page@.len() && page@[i].who == a.who
                &&& 1 <= a.distribution@.len() <= MAX_VOTES_PER_VOTER
                &&& forall|j: int|
                    0 <= j < a.distribution@.len() ==> targets@.contains(
                        (#[trigger] a.distribution@[j]).0,
                    )
            },
            forall|k2: int| 0 <= k2 < n1
                ==> matches1(page@, targets@, #[trigger] s.votes1@[k2], asgs@[k2]),
            forall|k2: int| 0 <= k2 < k
                ==> matches2(page@, targets@, #[trigger] s.votes2@[k2], asgs@[n1 + k2]),
        decreases n2 - k,
    {
        let (vi, tp, tl) = s.votes2[k];
        if (vi as usize) >= nv {
            return Err(FeasibilityError::VoterIndexOutOfBounds);
        }
        if (tp.0 as usize) >= nt || (tl as usize) >= nt {
            return Err(FeasibilityError::TargetIndexOutOfBounds);
        }
        let who = page[vi as usize].who;
        let t0 = targets[tp.0 as usize];
        let t1 = targets[tl as usize];
        let p0 = tp.1;
        let p1 = if p0 >= ACCURACY {
            0u16
        } else {
            ACCURACY - p0
        };
        let mut distribution: Vec<(AccountId, u16)> = Vec::new();
        distribution.push((t0, p0));
        distribution.push((t1, p1));
        asgs.push(Assignment { who, distribution });
        k = k + 1;
    }
    let nr = s.votes_rest.len();
    let mut k: usize = 0;
    while k < nr
        invariant
            k <= nr,
            asgs@.len() == n1 + n2 + k,
            forall|k2: int| 0 <= k2 < k ==> {
                let v = #[trigger] s.votes_rest@[k2];
                &&& (v.voter as int) < nv
                &&& (v.last as int) < nt
                &&& forall|j: int|
                    0 <= j < v.split@.len() ==> ((#[trigger] v.split@[j]).0 as int) < nt
                &&& v.split@.len() + 1 <= MAX_VOTES_PER_VOTER
            },
            forall|k2: int| 0 <= k2 < asgs@.len() ==> {
                let a = #[trigger] asgs@[k2];
                &&& exists|i: int| 0 <= i < page@.len() && page@[i].who == a.who
                &&& 1 <= a.distribution@.len() <= MAX_VOTES_PER_VOTER
                &&& forall|j: int|
                    0 <= j < a.distribution@.len() ==> targets@.contains(
                        (#[trigger] a.distribution@[j]).0,
                    )
            },
            forall|k2: int| 0 <= k2 < n1
                ==> matches1(page@, targets@, #[trigger] s.votes1@[k2], asgs@[k2]),
            forall|k2: int| 0 <= k2 < n2
                ==> matches2(page@, targets@, #[trigger] s.votes2@[k2], asgs@[n1 + k2]),
            forall|k2: int| 0 <= k2 < k
                ==> matches_rest(
                    page@,
                    targets@,
                    #[trigger] s.votes_rest@[k2],
                    asgs@[n1 + n2 + k2],
                ),
        decreases nr - k,
    {
        let rv = &s.votes_rest[k];
        if (rv.voter as usize) >= nv {
            return Err(FeasibilityError::VoterIndexOutOfBounds);
        }
        if rv.split.len() > MAX_VOTES_PER_VOTER - 1 {
            return Err(FeasibilityError::TooManyTargetsForVoter);
        }
        if (rv.last as usize) >= nt {
            return Err(FeasibilityError::TargetIndexOutOfBounds);
        }
        let sn = rv.split.len();
        let mut distribution: Vec<(AccountId, u16)> = Vec::new();
        let mut used: u32 = 0;
        let mut j: usize = 0;
        while j < sn
            invariant
                j <= sn,
                k < nr,
                sn == s.votes_rest@[k as int].split@.len(),
                sn + 1 <= MAX_VOTES_PER_VOTER,
                distribution@.len() == j,
                used <= j * (ACCURACY as int),
                used == split_sum(s.votes_rest@[k as int].split@.take(j as int)),
                forall|j2: int|
                    0 <= j2 < j ==> ((#[trigger] s.votes_rest@[k as int].split@[j2]).0 as int)
                        < nt,
                forall|j2: int|
                    0 <= j2 < distribution@.len() ==> targets@.contains(
                        (#[trigger] distribution@[j2]).0,
                    ),
                forall|j2: int|
                    0 <= j2 < j ==> (#[trigger] distribution@[j2]) == (
                        targets@[s.votes_rest@[k as int].split@[j2].0 as int],
                        s.votes_rest@[k as int].split@[j2].1,
                    ),
            decreases sn - j,
        {
            let (ti, pp) = rv.split[j];
            if (ti as usize) >= nt {
                return Err(FeasibilityError::TargetIndexOutOfBounds);
            }
            proof {
                assert((j + 1) * (ACCURACY as int) == j * (ACCURACY as int) + ACCURACY as int)
                    by (nonlinear_arith);
                assert(s.votes_rest@[k as int].split@.take(j + 1).drop_last()
                    =~= s.votes_rest@[k as int].split@.take(j as int));
            }
            distribution.push((targets[ti as usize], pp));
            used = used + (pp as u32);
            j = j + 1;
        }
        let last_part = if used >= ACCURACY as u32 {
            0u16
        } else {
            ACCURACY - (used as u16)
        };
        proof {
            assert(s.votes_rest@[k as int].split@.take(sn as int)
                =~= s.votes_rest@[k as int].split@);
            assert(last_part == rem_of(split_sum(s.votes_rest@[k as int].split@)));
        }
        distribution.push((targets[rv.last as usize], last_part));
        let who = page[rv.voter as usize].who;
        asgs.push(Assignment { who, distribution });
        proof {
            assert(matches_rest(
                page@,
                targets@,
                s.votes_rest@[k as int],
                asgs@[asgs@.len() - 1],
            ));
        }
        k = k + 1;
    }
    Ok(asgs)
}

} // verus!
