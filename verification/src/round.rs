//! One election round: the paginated electorate provider, the round
//! configuration builder, the block-driven snapshot creation, the reference
//! solution miner, and the whole-solution checks.

use vstd::prelude::*;
use crate::feasibility::{feasibility_check_page, no_forgery, page_feasible, page_supports_rel};
use crate::feasibility::sums_ok;
use crate::score::{assignment_into_staked, eval_spec, evaluate_support, to_supports, Supports};
use crate::score::{staked_bounded, staked_rel, supports_rel, StakedAssignment, Support};
use crate::snapshot::{lemma_stake_of_pages_at, lemma_total_voters_prefix, pages_wf};
use crate::snapshot::{stake_of_pages, total_voters, voter_at, voter_in_pages, Snapshot};
use crate::solution::{encode_page, encode_rel, page_indices_ok, partition_assignments};
use crate::solution::{page_contains, in_page, PagedRawSolution, SolutionPage};
use crate::solver::{assignments_wf, seq_phragmen, Assignment};
use crate::{AccountId, ElectionError, ElectionScore, FeasibilityError, PageIndex};
use crate::{VoteWeight, VoterRecord, MAX_VOTES_PER_VOTER};

verus! {

/// Two voter records carrying the same data.
pub open spec fn record_eq(a: VoterRecord, b: VoterRecord) -> bool {
    a.who == b.who && a.stake == b.stake && a.votes@ == b.votes@
}

/// Copies one voter record.
fn clone_record(v: &VoterRecord) -> (r: VoterRecord)
    ensures
        record_eq(*v, r),
{
    let n = v.votes.len();
    let mut votes: Vec<AccountId> = Vec::new();
    let mut i: usize = 0;
    while i < n
        invariant
            i <= n,
            n == v.votes@.len(),
            votes@ =~= v.votes@.take(i as int),
        decreases n - i,
    {
        votes.push(v.votes[i]);
        i = i + 1;
    }
    proof {
        assert(votes@ =~= v.votes@);
    }
    VoterRecord { who: v.who, stake: v.stake, votes }
}

/// The paginated electorate data source of the tests: a fixed voter and
/// target list handed out page by page, resuming after the last voter that
/// an earlier call returned.
pub struct MockStaking {
    pub targets: Vec<AccountId>,
    pub voters: Vec<VoterRecord>,
    pub desired_targets: u32,
    pub epoch_length: u64,
    pub last_iterated_voter_index: Option<usize>,
}

impl MockStaking {
    /// The flat target list; only the final page request may carry it.
    pub fn targets(&self, maybe_max_len: Option<usize>, remaining: PageIndex) -> (r: Result<
        Vec<AccountId>,
        &'static str,
    >)
        ensures
            r.is_ok() <==> remaining == 0 && (maybe_max_len.is_some()
                ==> self.targets@.len() <= maybe_max_len.unwrap()),
            r.is_ok() ==> r.unwrap()@ == self.targets@,
            remaining != 0 ==> r == Err::<Vec<AccountId>, &'static str>(
                "targets shall not have more than a single page",
            ),
            remaining == 0 && r.is_err() ==> r == Err::<Vec<AccountId>, &'static str>(
                "Targets too big",
            ),
    {
        if remaining != 0 {
            return Err("targets shall not have more than a single page");
        }
        match maybe_max_len {
            Some(max_len) => {
                if self.targets.len() > max_len {
                    return Err("Targets too big");
                }
            },
            None => {},
        }
        let n = self.targets.len();
        let mut out: Vec<AccountId> = Vec::new();
        let mut i: usize = 0;
        while i < n
            invariant
                i <= n,
                n == self.targets@.len(),
                out@ =~= self.targets@.take(i as int),
            decreases n - i,
        {
            out.push(self.targets[i]);
            i = i + 1;
        }
        proof {
            assert(out@ =~= self.targets@);
        }
        Ok(out)
    }

    /// The next page of voters: resumes after the last iterated voter,
    /// takes at most `maybe_max_len` records, and remembers the position
    /// whenever further pages remain.
    pub fn voters(&mut self, maybe_max_len: Option<usize>, remaining: PageIndex) -> (r: Result<
        Vec<VoterRecord>,
        &'static str,
    >)
        ensures
            r.is_ok(),
            ({
                let start = match old(self).last_iterated_voter_index {
                    Some(i) => i as int,
                    None => 0int,
                };
                let avail = if start <= old(self).voters@.len() {
                    old(self).voters@.len() - start
                } else {
                    0int
                };
                let cnt = match maybe_max_len {
                    Some(m) => if (m as int) < avail {
                        m as int
                    } else {
                        avail
                    },
                    None => avail,
                };
                &&& r.unwrap()@.len() == cnt
                &&& forall|k: int|
                    0 <= k < cnt ==> record_eq(
                        old(self).voters@[start + k],
                        #[trigger] r.unwrap()@[k],
                    )
                &&& final(self).voters@ == old(self).voters@
                &&& final(self).targets@ == old(self).targets@
                &&& final(self).desired_targets == old(self).desired_targets
                &&& final(self).last_iterated_voter_index == if cnt == 0 {
                    old(self).last_iterated_voter_index
                } else if remaining > 0 {
                    Some((start + cnt) as usize)
                } else {
                    None::<usize>
                }
            }),
    {
        let start = match self.last_iterated_voter_index {
            Some(i) => i,
            None => 0,
        };
        let total = self.voters.len();
        let avail = if start <= total {
            total - start
        } else {
            0
        };
        let cnt = match maybe_max_len {
            Some(m) => if m < avail {
                m
            } else {
                avail
            },
            None => avail,
        };
        let mut out: Vec<VoterRecord> = Vec::new();
        let mut idx: usize = start;
        let end: usize = if cnt == 0 {
            start
        } else {
            start + cnt
        };
        while idx < end
            invariant
                start <= idx <= end,
                cnt > 0 ==> end == start + cnt <= self.voters@.len(),
                cnt == 0 ==> end == start,
                out@.len() == idx - start,
                forall|k: int|
                    0 <= k < idx - start ==> record_eq(
                        self.voters@[start + k],
                        #[trigger] out@[k],
                    ),
            decreases end - idx,
        {
            let rec = clone_record(&self.voters[idx]);
            out.push(rec);
            idx = idx + 1;
        }
        if cnt == 0 {
            return Ok(out);
        }
        if remaining > 0 {
            self.last_iterated_voter_index = Some(start + cnt);
        } else {
            self.last_iterated_voter_index = None;
        }
        Ok(out)
    }

    /// The number of winners the round asks for.
    pub fn desired_targets(&self) -> (r: Result<u32, &'static str>)
        ensures
            r == Ok::<u32, &'static str>(self.desired_targets),
    {
        Ok(self.desired_targets)
    }

    /// The first block of the next epoch.
    pub fn next_election_prediction(&self, now: u64) -> (r: u64)
        requires
            self.epoch_length > 0,
            now + self.epoch_length <= u64::MAX,
        ensures
            r == now + self.epoch_length - now % self.epoch_length,
    {
        now + self.epoch_length - now % self.epoch_length
    }

    /// Replaces the whole electorate.
    pub fn put_snapshot(&mut self, voters: Vec<VoterRecord>, targets: Vec<AccountId>)
        ensures
            final(self).voters == voters,
            final(self).targets == targets,
            final(self).desired_targets == old(self).desired_targets,
            final(self).epoch_length == old(self).epoch_length,
            final(self).last_iterated_voter_index == old(self).last_iterated_voter_index,
    {
        self.voters = voters;
        self.targets = targets;
    }

    /// Drops the whole electorate.
    pub fn clear(&mut self)
        ensures
            final(self).voters@.len() == 0,
            final(self).targets@.len() == 0,
            final(self).desired_targets == old(self).desired_targets,
            final(self).epoch_length == old(self).epoch_length,
            final(self).last_iterated_voter_index == old(self).last_iterated_voter_index,
    {
        self.voters = Vec::new();
        self.targets = Vec::new();
    }

    /// Appends one voter.
    pub fn add_voter(&mut self, voter: AccountId, weight: VoteWeight, targets: Vec<AccountId>)
        ensures
            final(self).voters@ == old(self).voters@.push(
                VoterRecord { who: voter, stake: weight, votes: targets },
            ),
            final(self).targets@ == old(self).targets@,
            final(self).desired_targets == old(self).desired_targets,
            final(self).epoch_length == old(self).epoch_length,
            final(self).last_iterated_voter_index == old(self).last_iterated_voter_index,
    {
        self.voters.push(VoterRecord { who: voter, stake: weight, votes: targets });
    }

    /// Appends one target, together with its minimal self vote.
    pub fn add_target(&mut self, target: AccountId)
        ensures
            final(self).targets@ == old(self).targets@.push(target),
            final(self).voters@.len() == old(self).voters@.len() + 1,
            final(self).voters@.take(old(self).voters@.len() as int) == old(self).voters@,
            ({
                let v = final(self).voters@.last();
                v.who == target && v.stake == 1 && v.votes@ == seq![target]
            }),
            final(self).desired_targets == old(self).desired_targets,
            final(self).epoch_length == old(self).epoch_length,
            final(self).last_iterated_voter_index == old(self).last_iterated_voter_index,
    {
        self.targets.push(target);
        let mut votes: Vec<AccountId> = Vec::new();
        votes.push(target);
        self.voters.push(VoterRecord { who: target, stake: 1, votes });
    }
}

/// The size witness of a snapshot or solution.
#[derive(Clone, Copy, Debug, PartialEq, Eq, Structural)]
pub struct SolutionOrSnapshotSize {
    pub voters: u32,
    pub targets: u32,
}

/// The round configuration builder of the tests.
pub struct ExtBuilder {
    pub pages: PageIndex,
    pub voter_per_page: u32,
    pub desired_targets: u32,
    pub signed_phase: u64,
    pub unsigned_phase: u64,
    pub miner_tx_priority: u64,
    pub signed_max_submissions: u32,
    pub signed_deposit_base: u64,
    pub signed_deposit_byte: u64,
    pub signed_deposit_weight: u64,
    pub mock_weight_info: bool,
    pub extra_voters: Vec<VoterRecord>,
}

impl Default for ExtBuilder {
    /// The default round: the reference electorate of twelve voters and
    /// four self-voting targets, three pages of four voters, two winners.
    fn default() -> (r: Self)
        ensures
            r.pages == 3,
            r.voter_per_page == 4,
            r.desired_targets == 2,
            r.extra_voters@.len() == 0,
    {
        ExtBuilder {
            pages: 3,
            voter_per_page: 4,
            desired_targets: 2,
            signed_phase: 10,
            unsigned_phase: 5,
            miner_tx_priority: 100,
            signed_max_submissions: 5,
            signed_deposit_base: 5,
            signed_deposit_byte: 0,
            signed_deposit_weight: 0,
            mock_weight_info: false,
            extra_voters: Vec::new(),
        }
    }
}

impl ExtBuilder {
    /// Sets the transaction priority of mined solutions.
    pub fn miner_tx_priority(self, p: u64) -> (r: Self)
        ensures
            r == (ExtBuilder { miner_tx_priority: p, ..self }),
    {
        ExtBuilder { miner_tx_priority: p, ..self }
    }

    /// Sets the lengths of the signed and unsigned submission phases.
    pub fn phases(self, signed: u64, unsigned: u64) -> (r: Self)
        ensures
            r == (ExtBuilder { signed_phase: signed, unsigned_phase: unsigned, ..self }),
    {
        ExtBuilder { signed_phase: signed, unsigned_phase: unsigned, ..self }
    }

    /// Sets the page count of the electorate snapshot.
    pub fn pages(self, pages: PageIndex) -> (r: Self)
        ensures
            r == (ExtBuilder { pages, ..self }),
    {
        ExtBuilder { pages, ..self }
    }

    /// Sets the number of voters per snapshot page.
    pub fn voter_per_page(self, count: u32) -> (r: Self)
        ensures
            r == (ExtBuilder { voter_per_page: count, ..self }),
    {
        ExtBuilder { voter_per_page: count, ..self }
    }

    /// Switches the mocked weight bookkeeping on or off.
    pub fn mock_weight_info(self, mock: bool) -> (r: Self)
        ensures
            r == (ExtBuilder { mock_weight_info: mock, ..self }),
    {
        ExtBuilder { mock_weight_info: mock, ..self }
    }

    /// Sets the desired winner count.
    pub fn desired_targets(self, t: u32) -> (r: Self)
        ensures
            r == (ExtBuilder { desired_targets: t, ..self }),
    {
        ExtBuilder { desired_targets: t, ..self }
    }

    /// Adds one voter on top of the reference electorate.
    pub fn add_voter(self, who: AccountId, stake: VoteWeight, targets: Vec<AccountId>) -> (r:
        Self)
        ensures
            r.extra_voters@ == self.extra_voters@.push(
                VoterRecord { who, stake, votes: targets },
            ),
            r.pages == self.pages,
            r.voter_per_page == self.voter_per_page,
            r.desired_targets == self.desired_targets,
            r.signed_phase == self.signed_phase,
            r.unsigned_phase == self.unsigned_phase,
            r.miner_tx_priority == self.miner_tx_priority,
            r.signed_max_submissions == self.signed_max_submissions,
            r.signed_deposit_base == self.signed_deposit_base,
            r.signed_deposit_byte == self.signed_deposit_byte,
            r.signed_deposit_weight == self.signed_deposit_weight,
            r.mock_weight_info == self.mock_weight_info,
    {
        let mut extra_voters = self.extra_voters;
        extra_voters.push(VoterRecord { who, stake, votes: targets });
        ExtBuilder { extra_voters, ..self }
    }

    /// Sets the maximum number of signed submissions per round.
    pub fn signed_max_submission(self, count: u32) -> (r: Self)
        ensures
            r == (ExtBuilder { signed_max_submissions: count, ..self }),
    {
        ExtBuilder { signed_max_submissions: count, ..self }
    }

    /// Sets the deposit parameters of signed submissions.
    pub fn signed_deposit(self, base: u64, byte: u64, weight: u64) -> (r: Self)
        ensures
            r == (ExtBuilder {
                signed_deposit_base: base,
                signed_deposit_byte: byte,
                signed_deposit_weight: weight,
                ..self
            }),
    {
        ExtBuilder {
            signed_deposit_base: base,
            signed_deposit_byte: byte,
            signed_deposit_weight: weight,
            ..self
        }
    }

    /// Builds the round state without any sanity checking: a fresh round
    /// over the reference electorate and targets, with any added voters
    /// appended behind it.
    pub fn build_unchecked(self) -> (r: Round)
        ensures
            r.pages == self.pages,
            r.voter_per_page == self.voter_per_page,
            r.snapshot.is_none(),
            r.round == 1,
            r.block_number == 0,
            r.fetched@.len() == 0,
            r.staking.targets@ == seq![10u64, 20, 30, 40],
            r.staking.desired_targets == self.desired_targets,
            r.staking.epoch_length == 30,
            r.staking.last_iterated_voter_index.is_none(),
            r.staking.voters@.len() == 12 + self.extra_voters@.len(),
            forall|k: int|
                0 <= k < 12 ==> is_reference_voter(k, #[trigger] r.staking.voters@[k]),
            forall|k: int|
                0 <= k < self.extra_voters@.len() ==> record_eq(
                    #[trigger] self.extra_voters@[k],
                    r.staking.voters@[12 + k],
                ),
    {
        let mut voters: Vec<VoterRecord> = Vec::new();
        push_reference_voters(&mut voters);
        proof {
            assert forall|k: int|
                0 <= k < 12 implies is_reference_voter(k, #[trigger] voters@[k]) by {
                assert(is_reference_voter(k, voters@[0 + k]));
            }
        }
        let ghost extra_view = self.extra_voters@;
        let n = self.extra_voters.len();
        let mut i: usize = 0;
        let extra = self.extra_voters;
        while i < n
            invariant
                i <= n,
                n == extra@.len(),
                extra@ == extra_view,
                voters@.len() == 12 + i,
                forall|k: int|
                    0 <= k < 12 ==> is_reference_voter(k, #[trigger] voters@[k]),
                forall|k: int|
                    0 <= k < i ==> record_eq(#[trigger] extra_view[k], voters@[12 + k]),
            decreases n - i,
        {
            voters.push(clone_record(&extra[i]));
            i = i + 1;
        }
        let mut targets: Vec<AccountId> = Vec::new();
        targets.push(10);
        targets.push(20);
        targets.push(30);
        targets.push(40);
        proof {
            assert(targets@ =~= seq![10u64, 20, 30, 40]);
        }
        let staking = MockStaking {
            targets,
            voters,
            desired_targets: self.desired_targets,
            epoch_length: 30,
            last_iterated_voter_index: None,
        };
        Round {
            staking,
            pages: self.pages,
            voter_per_page: self.voter_per_page,
            round: 1,
            block_number: 0,
            fetched: Vec::new(),
            snapshot: None,
        }
    }

    /// Builds the round state, hands it to the given scenario, and reports
    /// the sanity verdict of the state the scenario returns.
    pub fn build_and_execute<F: FnOnce(Round) -> Round>(self, test: F) -> (r: bool)
        requires
            forall|x: Round| #[trigger] test.requires((x,)),
        ensures
            exists|x: Round, y: Round|
                #[trigger] test.ensures((x,), y) && r == sanity_verdict(y),
    {
        let round = self.build_unchecked();
        let ghost gx = round;
        let round = test(round);
        let verdict = sanity_checks(&round);
        proof {
            assert(test.ensures((gx,), round) && verdict == sanity_verdict(round));
        }
        verdict
    }
}

/// The data of the reference electorate: eight plain voters and four
/// self voters, by position.
pub open spec fn reference_voter_data(k: int) -> (AccountId, VoteWeight, Seq<AccountId>) {
    if k == 0 {
        (1, 10, seq![10u64, 20])
    } else if k == 1 {
        (2, 10, seq![30u64, 40])
    } else if k == 2 {
        (3, 10, seq![40u64])
    } else if k == 3 {
        (4, 10, seq![10u64, 20, 40])
    } else if k == 4 {
        (5, 10, seq![10u64, 30, 40])
    } else if k == 5 {
        (6, 10, seq![20u64, 30, 40])
    } else if k == 6 {
        (7, 10, seq![20u64, 30])
    } else if k == 7 {
        (8, 10, seq![10u64])
    } else if k == 8 {
        (10, 10, seq![10u64])
    } else if k == 9 {
        (20, 20, seq![20u64])
    } else if k == 10 {
        (30, 30, seq![30u64])
    } else {
        (40, 40, seq![40u64])
    }
}

/// Whether a record carries the reference voter of position `k`.
pub open spec fn is_reference_voter(k: int, v: VoterRecord) -> bool {
    let d = reference_voter_data(k);
    v.who == d.0 && v.stake == d.1 && v.votes@ == d.2
}

/// Pushes the reference electorate: eight plain voters and four self
/// voters.
fn push_reference_voters(voters: &mut Vec<VoterRecord>)
    ensures
        final(voters)@.len() == old(voters)@.len() + 12,
        final(voters)@.take(old(voters)@.len() as int) == old(voters)@,
        forall|k: int|
            0 <= k < 12 ==> is_reference_voter(
                k,
                #[trigger] final(voters)@[old(voters)@.len() + k],
            ),
{
    let mut v: Vec<AccountId> = Vec::new();
    v.push(10);
    v.push(20);
    voters.push(VoterRecord { who: 1, stake: 10, votes: v });
    let mut v: Vec<AccountId> = Vec::new();
    v.push(30);
    v.push(40);
    voters.push(VoterRecord { who: 2, stake: 10, votes: v });
    let mut v: Vec<AccountId> = Vec::new();
    v.push(40);
    voters.push(VoterRecord { who: 3, stake: 10, votes: v });
    let mut v: Vec<AccountId> = Vec::new();
    v.push(10);
    v.push(20);
    v.push(40);
    voters.push(VoterRecord { who: 4, stake: 10, votes: v });
    let mut v: Vec<AccountId> = Vec::new();
    v.push(10);
    v.push(30);
    v.push(40);
    voters.push(VoterRecord { who: 5, stake: 10, votes: v });
    let mut v: Vec<AccountId> = Vec::new();
    v.push(20);
    v.push(30);
    v.push(40);
    voters.push(VoterRecord { who: 6, stake: 10, votes: v });
    let mut v: Vec<AccountId> = Vec::new();
    v.push(20);
    v.push(30);
    voters.push(VoterRecord { who: 7, stake: 10, votes: v });
    let mut v: Vec<AccountId> = Vec::new();
    v.push(10);
    voters.push(VoterRecord { who: 8, stake: 10, votes: v });
    let mut v: Vec<AccountId> = Vec::new();
    v.push(10);
    voters.push(VoterRecord { who: 10, stake: 10, votes: v });
    let mut v: Vec<AccountId> = Vec::new();
    v.push(20);
    voters.push(VoterRecord { who: 20, stake: 20, votes: v });
    let mut v: Vec<AccountId> = Vec::new();
    v.push(30);
    voters.push(VoterRecord { who: 30, stake: 30, votes: v });
    let mut v: Vec<AccountId> = Vec::new();
    v.push(40);
    voters.push(VoterRecord { who: 40, stake: 40, votes: v });
    proof {
        assert(final(voters)@.take(old(voters)@.len() as int) =~= old(voters)@);
        assert forall|k: int|
            0 <= k < 12 implies is_reference_voter(
            k,
            #[trigger] final(voters)@[old(voters)@.len() + k],
        ) by {
            assert(final(voters)@[old(voters)@.len() + k].votes@
                =~= reference_voter_data(k).2);
        }
    }
}

/// One election round in progress: the provider, the configuration, the
/// block counter, and the snapshot once it is fully populated.
pub struct Round {
    pub staking: MockStaking,
    pub pages: PageIndex,
    pub voter_per_page: u32,
    pub round: u32,
    pub block_number: u64,
    /// Voter pages fetched so far, in fetch order (descending page index).
    pub fetched: Vec<Vec<VoterRecord>>,
    pub snapshot: Option<Snapshot>,
}

/// The round holds a sealed, well-formed snapshot or none at all.
pub open spec fn round_wf(r: Round) -> bool {
    r.snapshot.is_some() ==> r.snapshot.unwrap().wf()
}

impl Round {
    /// One block of snapshot work: fetches the next voter page until all
    /// pages are in, then seals the snapshot if the collected electorate
    /// is well formed.
    #[verifier::loop_isolation(false)]
    fn snapshot_step(&mut self)
        requires
            round_wf(*old(self)),
        ensures
            round_wf(*final(self)),
            final(self).pages == old(self).pages,
            final(self).round == old(self).round,
            final(self).block_number == old(self).block_number,
            final(self).voter_per_page == old(self).voter_per_page,
            final(self).staking.targets@ == old(self).staking.targets@,
            final(self).staking.voters@ == old(self).staking.voters@,
            final(self).staking.desired_targets == old(self).staking.desired_targets,
            old(self).snapshot.is_some() ==> final(self).snapshot == old(self).snapshot
                && final(self).fetched@ == old(self).fetched@,
            old(self).snapshot.is_none() ==> final(self).fetched@.len() == (if old(self)
                .fetched@.len() < old(self).pages {
                old(self).fetched@.len() + 1
            } else {
                old(self).fetched@.len()
            }),
            old(self).snapshot.is_none() && old(self).fetched@.len() < old(self).pages ==> {
                let start = match old(self).staking.last_iterated_voter_index {
                    Some(i) => i as int,
                    None => 0int,
                };
                let avail = if start <= old(self).staking.voters@.len() {
                    old(self).staking.voters@.len() - start
                } else {
                    0int
                };
                let cnt = if (old(self).voter_per_page as int) < avail {
                    old(self).voter_per_page as int
                } else {
                    avail
                };
                let batch = final(self).fetched@.last();
                &&& final(self).fetched@.take(old(self).fetched@.len() as int)
                    == old(self).fetched@
                &&& batch@.len() == cnt
                &&& batch@.len() <= old(self).voter_per_page
                &&& forall|k: int|
                    0 <= k < cnt ==> record_eq(
                        old(self).staking.voters@[start + k],
                        #[trigger] batch@[k],
                    )
            },
            old(self).snapshot.is_none() && final(self).fetched@.len() < old(self).pages
                ==> final(self).snapshot.is_none(),
            old(self).snapshot.is_none() && old(self).fetched@.len() >= old(self).pages
                ==> final(self).fetched@ == old(self).fetched@,
            old(self).snapshot.is_none() && final(self).fetched@.len() >= old(self).pages ==> (
            final(self).snapshot.is_some() <==> pages_wf(
                final(self).fetched@.reverse(),
                final(self).staking.targets@,
            )),
            old(self).snapshot.is_none() && final(self).snapshot.is_some()
                ==> final(self).snapshot.unwrap().voter_pages@.len()
                    == final(self).fetched@.len(),
    {
        if self.snapshot.is_some() {
            return;
        }
        let done = self.fetched.len();
        if done < self.pages as usize {
            let remaining = (self.pages as usize - 1 - done) as u32;
            let batch = match self.staking.voters(
                Some(self.voter_per_page as usize),
                remaining,
            ) {
                Ok(b) => b,
                Err(_) => {
                    proof {
                        assert(false);
                    }
                    return;
                },
            };
            self.fetched.push(batch);
            if self.fetched.len() < self.pages as usize {
                return;
            }
        }
        // all pages fetched: order them by ascending page index and seal.
        let mut pages_vec: Vec<Vec<VoterRecord>> = Vec::new();
        let np = self.fetched.len();
        let mut i: usize = 0;
        while i < np
            invariant
                i <= np,
                np == self.fetched@.len(),
                pages_vec@.len() == i,
                forall|p2: int|
                    0 <= p2 < i ==> (#[trigger] pages_vec@[p2])@.len() == self.fetched@[np - 1
                        - p2]@.len(),
                forall|p2: int, i2: int|
                    0 <= p2 < i && 0 <= i2 < pages_vec@[p2]@.len() ==> record_eq(
                        voter_at(pages_vec@, p2, i2),
                        voter_at(self.fetched@.reverse(), p2, i2),
                    ),
            decreases np - i,
        {
            let src = &self.fetched[np - 1 - i];
            let m = src.len();
            let mut page: Vec<VoterRecord> = Vec::new();
            let mut j: usize = 0;
            while j < m
                invariant
                    j <= m,
                    i < np,
                    np == self.fetched@.len(),
                    m == src@.len(),
                    src == &self.fetched@[np - 1 - i],
                    page@.len() == j,
                    forall|j2: int|
                        0 <= j2 < j ==> record_eq(#[trigger] page@[j2], src@[j2]),
                decreases m - j,
            {
                page.push(clone_record(&src[j]));
                j = j + 1;
            }
            let ghost gp = page@;
            let ghost pre_vec = pages_vec@;
            pages_vec.push(page);
            proof {
                assert(self.fetched@.reverse()[i as int] == self.fetched@[np - 1 - i]);
                assert(pages_vec@[i as int]@ == gp);
                assert forall|p2: int, i2: int|
                    0 <= p2 < i + 1 && 0 <= i2 < pages_vec@[p2]@.len() implies record_eq(
                    voter_at(pages_vec@, p2, i2),
                    voter_at(self.fetched@.reverse(), p2, i2),
                ) by {
                    if p2 < i {
                        assert(pages_vec@[p2] == pre_vec[p2]);
                        assert(record_eq(
                            voter_at(pre_vec, p2, i2),
                            voter_at(self.fetched@.reverse(), p2, i2),
                        ));
                    } else {
                        assert(record_eq(gp[i2], src@[i2]));
                        assert(voter_at(self.fetched@.reverse(), p2, i2)
                            == self.fetched@[np - 1 - i]@[i2]);
                    }
                }
            }
            i = i + 1;
        }
        proof {
            assert(pages_record_eq(pages_vec@, self.fetched@.reverse()));
        }
        let targets = match self.staking.targets(None, 0) {
            Ok(t) => t,
            Err(_) => {
                proof {
                    assert(false);
                }
                return;
            },
        };
        let desired = match self.staking.desired_targets() {
            Ok(d) => d,
            Err(_) => {
                proof {
                    assert(false);
                }
                return;
            },
        };
        proof {
            lemma_pages_wf_record_eq(pages_vec@, self.fetched@.reverse(), targets@);
        }
        if check_pages_wf(&pages_vec, &targets) {
            let snap = Snapshot::seal(pages_vec, targets, desired);
            self.snapshot = Some(snap);
        }
    }

    /// Advances the chain to block `n`, performing the per-block snapshot
    /// work on the way. Everything but the block counter, the collected
    /// pages, the provider cursor and the snapshot itself stays as it was.
    pub fn roll_to(&mut self, n: u64)
        requires
            round_wf(*old(self)),
        ensures
            round_wf(*final(self)),
            final(self).block_number == (if old(self).block_number >= n {
                old(self).block_number
            } else {
                n
            }),
            final(self).pages == old(self).pages,
            final(self).round == old(self).round,
            final(self).voter_per_page == old(self).voter_per_page,
            final(self).staking.targets@ == old(self).staking.targets@,
            final(self).staking.voters@ == old(self).staking.voters@,
            final(self).staking.desired_targets == old(self).staking.desired_targets,
            old(self).snapshot.is_some() ==> final(self).snapshot == old(self).snapshot,
            old(self).block_number >= n ==> *final(self) == *old(self),
    {
        if self.block_number >= n {
            return;
        }
        while self.block_number < n
            invariant
                round_wf(*self),
                old(self).block_number <= self.block_number,
                self.block_number <= (if old(self).block_number >= n {
                    old(self).block_number
                } else {
                    n
                }),
                self.pages == old(self).pages,
                self.round == old(self).round,
                self.voter_per_page == old(self).voter_per_page,
                self.staking.targets@ == old(self).staking.targets@,
                self.staking.voters@ == old(self).staking.voters@,
                self.staking.desired_targets == old(self).staking.desired_targets,
                old(self).snapshot.is_some() ==> self.snapshot == old(self).snapshot,
            decreases n - self.block_number,
        {
            self.block_number = self.block_number + 1;
            self.snapshot_step();
        }
    }

    /// Advances blocks until the snapshot is fully created, or until the
    /// collected electorate turns out malformed. Starting from an unsealed
    /// round, on return the snapshot exists exactly when the pages the
    /// provider handed out, in ascending page order, form a well-formed
    /// electorate; a fresh round then seals one page per configured page.
    pub fn roll_to_snapshot_created(&mut self)
        requires
            round_wf(*old(self)),
        ensures
            round_wf(*final(self)),
            final(self).pages == old(self).pages,
            final(self).round == old(self).round,
            final(self).voter_per_page == old(self).voter_per_page,
            final(self).staking.targets@ == old(self).staking.targets@,
            final(self).staking.voters@ == old(self).staking.voters@,
            final(self).staking.desired_targets == old(self).staking.desired_targets,
            old(self).snapshot.is_some() ==> final(self).snapshot == old(self).snapshot,
            old(self).snapshot.is_none() ==> (final(self).snapshot.is_some() <==> pages_wf(
                final(self).fetched@.reverse(),
                final(self).staking.targets@,
            )),
            old(self).snapshot.is_none() && final(self).snapshot.is_some()
                ==> final(self).snapshot.unwrap().voter_pages@.len()
                    == final(self).fetched@.len(),
            old(self).snapshot.is_none() && old(self).fetched@.len() <= old(self).pages
                && final(self).snapshot.is_some()
                ==> final(self).snapshot.unwrap().voter_pages@.len() == old(self).pages,
            forall|p: int|
                old(self).fetched@.len() <= p < final(self).fetched@.len()
                    ==> (#[trigger] final(self).fetched@[p])@.len()
                        <= old(self).voter_per_page,
    {
        if self.snapshot.is_none() {
            while self.fetched.len() < self.pages as usize && self.snapshot.is_none()
                invariant
                    round_wf(*self),
                    self.pages == old(self).pages,
                    self.round == old(self).round,
                    self.voter_per_page == old(self).voter_per_page,
                    self.staking.targets@ == old(self).staking.targets@,
                    self.staking.voters@ == old(self).staking.voters@,
                    self.staking.desired_targets == old(self).staking.desired_targets,
                    self.snapshot.is_some() ==> {
                        &&& pages_wf(self.fetched@.reverse(), self.staking.targets@)
                        &&& self.snapshot.unwrap().voter_pages@.len() == self.fetched@.len()
                        &&& self.fetched@.len() >= self.pages
                    },
                    old(self).fetched@.len() <= old(self).pages
                        ==> self.fetched@.len() <= self.pages,
                    forall|p: int|
                        old(self).fetched@.len() <= p < self.fetched@.len()
                            ==> (#[trigger] self.fetched@[p])@.len() <= self.voter_per_page,
                decreases (self.pages as int) - (self.fetched@.len() as int),
            {
                if self.block_number < u64::MAX {
                    self.block_number = self.block_number + 1;
                }
                let ghost pre_fetched = self.fetched@;
                self.snapshot_step();
                proof {
                    assert forall|p: int|
                        old(self).fetched@.len() <= p < self.fetched@.len()
                            implies (#[trigger] self.fetched@[p])@.len()
                            <= self.voter_per_page by {
                        if p < pre_fetched.len() {
                            assert(self.fetched@.take(pre_fetched.len() as int)[p]
                                == pre_fetched[p]);
                        }
                    }
                }
            }
            if self.snapshot.is_none() {
                if self.block_number < u64::MAX {
                    self.block_number = self.block_number + 1;
                }
                self.snapshot_step();
            }
        }
    }

    /// Whether the snapshot exists and spans the configured page count.
    pub fn ensure_full_snapshot(&self) -> (r: bool)
        ensures
            r <==> self.snapshot.is_some() && self.snapshot.unwrap().voter_pages@.len()
                == self.pages,
    {
        match &self.snapshot {
            Some(s) => s.voter_pages.len() == self.pages as usize,
            None => false,
        }
    }

    /// The nested per-page voter lists of the snapshot. While no snapshot
    /// is sealed there are no pages to hand out, so nothing is returned
    /// rather than a row of empty lists.
    pub fn nested_voter_snapshot(&self) -> (r: Option<&Vec<Vec<VoterRecord>>>)
        ensures
            r.is_some() <==> self.snapshot.is_some(),
            r.is_some() ==> r.unwrap() == &self.snapshot.unwrap().voter_pages,
    {
        match &self.snapshot {
            Some(s) => Some(&s.voter_pages),
            None => None,
        }
    }

    /// The sizes of the current snapshot: the voter count across all
    /// pages and the target count, or nothing at all while no snapshot is
    /// sealed.
    pub fn witness(&self) -> (r: SolutionOrSnapshotSize)
        requires
            round_wf(*self),
        ensures
            self.snapshot.is_some() ==> r.voters == total_voters(
                self.snapshot.unwrap().voter_pages@,
            ) && r.targets == self.snapshot.unwrap().targets@.len(),
            self.snapshot.is_none() ==> r == (SolutionOrSnapshotSize { voters: 0, targets: 0 }),
    {
        match &self.snapshot {
            Some(s) => {
                let np = s.voter_pages.len();
                let mut voters: u32 = 0;
                let mut p: usize = 0;
                while p < np
                    invariant
                        p <= np,
                        np == s.voter_pages@.len(),
                        s.wf(),
                        voters == total_voters(s.voter_pages@.take(p as int)),
                    decreases np - p,
                {
                    proof {
                        assert(s.voter_pages@.take(p + 1).drop_last()
                            =~= s.voter_pages@.take(p as int));
                        lemma_total_voters_prefix(s.voter_pages@, p + 1);
                    }
                    let len = s.voter_pages[p].len() as u64;
                    let sum = (voters as u64) + len;
                    voters = sum as u32;
                    p = p + 1;
                }
                proof {
                    assert(s.voter_pages@.take(np as int) =~= s.voter_pages@);
                }
                SolutionOrSnapshotSize { voters, targets: s.targets.len() as u32 }
            },
            None => SolutionOrSnapshotSize { voters: 0, targets: 0 },
        }
    }

    /// A solution with the right page count but empty pages, claiming the
    /// given score and carrying the default round identifier of a blank
    /// submission. Its claimed score bears no relation to the empty pages
    /// and must never be trusted without the feasibility checks.
    pub fn raw_fake_solution(&self, score: ElectionScore) -> (r: PagedRawSolution)
        ensures
            r.solution_pages@.len() == self.pages,
            r.score == score,
            r.round == 0,
            forall|p: int| 0 <= p < r.solution_pages@.len() ==> {
                let sp = #[trigger] r.solution_pages@[p];
                sp.votes1@.len() == 0 && sp.votes2@.len() == 0 && sp.votes_rest@.len() == 0
            },
    {
        let np = self.pages as usize;
        let mut solution_pages: Vec<SolutionPage> = Vec::new();
        let mut p: usize = 0;
        while p < np
            invariant
                p <= np,
                solution_pages@.len() == p,
                forall|p2: int| 0 <= p2 < p ==> {
                    let sp = #[trigger] solution_pages@[p2];
                    sp.votes1@.len() == 0 && sp.votes2@.len() == 0 && sp.votes_rest@.len() == 0
                },
            decreases np - p,
        {
            solution_pages.push(SolutionPage {
                votes1: Vec::new(),
                votes2: Vec::new(),
                votes_rest: Vec::new(),
            });
            p = p + 1;
        }
        PagedRawSolution { solution_pages, score, round: 0 }
    }
}

/// Whether the collected pages and targets form a well-formed electorate.
#[verifier::loop_isolation(false)]
fn check_pages_wf(pages: &Vec<Vec<VoterRecord>>, targets: &Vec<AccountId>) -> (r: bool)
    ensures
        r <==> pages_wf(pages@, targets@),
{
    let np = pages.len();
    if np > u32::MAX as usize {
        return false;
    }
    if targets.len() > (u16::MAX as usize) + 1 {
        return false;
    }
    // total voter count.
    let mut tot: u64 = 0;
    let mut p: usize = 0;
    while p < np
        invariant
            p <= np,
            np <= u32::MAX,
            tot == total_voters(pages@.take(p as int)),
            tot <= (p as int) * (u32::MAX as int) + (p as int) * (u32::MAX as int),
        decreases np - p,
    {
        proof {
            assert(pages@.take(p + 1).drop_last() =~= pages@.take(p as int));
        }
        if pages[p].len() > u32::MAX as usize {
            return false;
        }
        if (pages[p].len() as u64) > u64::MAX - tot {
            proof {
                lemma_total_voters_prefix(pages@, p + 1);
            }
            return false;
        }
        proof {
            assert(((p + 1) as int) * (u32::MAX as int) == (p as int) * (u32::MAX as int)
                + (u32::MAX as int)) by (nonlinear_arith);
        }
        tot = tot + (pages[p].len() as u64);
        p = p + 1;
    }
    proof {
        assert(pages@.take(np as int) =~= pages@);
    }
    if tot > u32::MAX as u64 {
        return false;
    }
    proof {
        assert(total_voters(pages@) <= u32::MAX);
    }
    // page sizes, vote widths.
    let mut p: usize = 0;
    while p < np
        invariant
            p <= np,
            forall|p2: int| 0 <= p2 < p ==> (#[trigger] pages@[p2])@.len() <= u32::MAX,
            forall|p2: int, i2: int|
                0 <= p2 < p && 0 <= i2 < pages@[p2]@.len() ==> voter_at(
                    pages@,
                    p2,
                    i2,
                ).votes@.len() <= MAX_VOTES_PER_VOTER,
        decreases np - p,
    {
        let m = pages[p].len();
        if m > u32::MAX as usize {
            return false;
        }
        let mut i: usize = 0;
        while i < m
            invariant
                i <= m,
                p < np,
                m == pages@[p as int]@.len(),
                forall|i2: int|
                    0 <= i2 < i ==> voter_at(pages@, p as int, i2).votes@.len()
                        <= MAX_VOTES_PER_VOTER,
            decreases m - i,
    {
            if pages[p][i].votes.len() > MAX_VOTES_PER_VOTER {
                proof {
                    assert(voter_at(pages@, p as int, i as int).votes@.len()
                        > MAX_VOTES_PER_VOTER);
                    assert(!pages_wf(pages@, targets@));
                }
                return false;
            }
            i = i + 1;
        }
        p = p + 1;
    }
    // distinct targets.
    let nt = targets.len();
    let mut i: usize = 0;
    while i < nt
        invariant
            i <= nt,
            forall|a: int, b: int| 0 <= a < i && a < b < nt ==> targets@[a] != targets@[b],
        decreases nt - i,
    {
        let mut j: usize = i + 1;
        while j < nt
            invariant
                i < j <= nt,
                forall|a: int, b: int| 0 <= a < i && a < b < nt ==> targets@[a] != targets@[b],
                forall|b: int| i < b < j ==> targets@[i as int] != targets@[b],
            decreases nt - j,
        {
            if targets[i] == targets[j] {
                return false;
            }
            j = j + 1;
        }
        i = i + 1;
    }
    // distinct voters across all slots.
    let mut p1: usize = 0;
    while p1 < np
        invariant
            p1 <= np,
            forall|a1: int, b1: int, a2: int, b2: int|
                0 <= a1 < p1 && 0 <= b1 < pages@[a1]@.len() && 0 <= a2 < np && 0 <= b2
                    < pages@[a2]@.len() && (a2 < a1 || (a2 == a1 && b2 < b1)) ==> voter_at(
                    pages@,
                    a1,
                    b1,
                ).who != voter_at(pages@, a2, b2).who,
        decreases np - p1,
    {
        let m1 = pages[p1].len();
        let mut i1: usize = 0;
        while i1 < m1
            invariant
                i1 <= m1,
                p1 < np,
                m1 == pages@[p1 as int]@.len(),
                forall|a1: int, b1: int, a2: int, b2: int|
                    0 <= a1 < p1 && 0 <= b1 < pages@[a1]@.len() && 0 <= a2 < np && 0 <= b2
                        < pages@[a2]@.len() && (a2 < a1 || (a2 == a1 && b2 < b1)) ==> voter_at(
                        pages@,
                        a1,
                        b1,
                    ).who != voter_at(pages@, a2, b2).who,
                forall|b1: int, a2: int, b2: int|
                    0 <= b1 < i1 && 0 <= a2 < np && 0 <= b2 < pages@[a2]@.len() && (a2
                        < p1 || (a2 == p1 && b2 < b1)) ==> voter_at(
                        pages@,
                        p1 as int,
                        b1,
                    ).who != voter_at(pages@, a2, b2).who,
            decreases m1 - i1,
        {
            let who = pages[p1][i1].who;
            // compare against every earlier slot.
            let mut a2: usize = 0;
            while a2 <= p1
                invariant
                    a2 <= p1 + 1,
                    p1 < np,
                    i1 < m1,
                    m1 == pages@[p1 as int]@.len(),
                    who == voter_at(pages@, p1 as int, i1 as int).who,
                    forall|x: int, y: int|
                        0 <= x < a2 && 0 <= y < pages@[x]@.len() && (x < p1 || y < i1)
                            ==> voter_at(pages@, x, y).who != who,
                decreases p1 - a2 + 1,
            {
                let lim = if a2 == p1 {
                    i1
                } else {
                    pages[a2].len()
                };
                let mut b2: usize = 0;
                while b2 < lim
                    invariant
                        b2 <= lim,
                        a2 <= p1,
                        p1 < np,
                        i1 < m1,
                        m1 == pages@[p1 as int]@.len(),
                        (lim as int) == if a2 == p1 {
                            i1 as int
                        } else {
                            pages@[a2 as int]@.len() as int
                        },
                        lim <= pages@[a2 as int]@.len(),
                        who == voter_at(pages@, p1 as int, i1 as int).who,
                        forall|y: int|
                            0 <= y < b2 ==> voter_at(pages@, a2 as int, y).who != who,
                    decreases lim - b2,
                {
                    if pages[a2][b2].who == who {
                        proof {
                            assert(voter_at(pages@, a2 as int, b2 as int).who
                                == voter_at(pages@, p1 as int, i1 as int).who);
                            assert((a2 as int, b2 as int) != (p1 as int, i1 as int));
                            assert(!pages_wf(pages@, targets@));
                        }
                        return false;
                    }
                    b2 = b2 + 1;
                }
                a2 = a2 + 1;
            }
            i1 = i1 + 1;
        }
        p1 = p1 + 1;
    }
    proof {
        assert forall|q1: int, j1: int, q2: int, j2: int|
            0 <= q1 < pages@.len() && 0 <= j1 < pages@[q1]@.len() && 0 <= q2 < pages@.len() && 0
                <= j2 < pages@[q2]@.len() && (q1, j1) != (q2, j2) implies voter_at(
            pages@,
            q1,
            j1,
        ).who != voter_at(pages@, q2, j2).who by {
            if q2 < q1 || (q2 == q1 && j2 < j1) {
            } else {
            }
        }
    }
    true
}

/// The round's consistency verdict.
pub open spec fn sanity_verdict(r: Round) -> bool {
    match r.snapshot {
        Some(s) => s.voter_pages@.len() == r.pages,
        None => r.fetched@.len() < r.pages || r.pages == 0,
    }
}

/// Whether the round's state is internally consistent: a sealed snapshot
/// spans the configured page count, and an unsealed round is still
/// collecting pages (or asks for none).
pub fn sanity_checks(r: &Round) -> (res: bool)
    ensures
        res == sanity_verdict(*r),
{
    match &r.snapshot {
        Some(s) => s.voter_pages.len() == r.pages as usize,
        None => r.fetched.len() < r.pages as usize || r.pages == 0,
    }
}



/// Whether one voter record, with a positive stake, approves any target
/// of the list.
pub open spec fn voter_electable(v: VoterRecord, targets: Seq<AccountId>) -> bool {
    exists|j: int| 0 <= j < v.votes@.len() && v.stake > 0 && targets.contains(v.votes@[j])
}

/// Whether the paged electorate holds anything to elect: some voter with a
/// positive stake approving a known target.
pub open spec fn pages_electable(
    pages: Seq<Vec<VoterRecord>>,
    targets: Seq<AccountId>,
) -> bool {
    exists|p: int, i: int|
        0 <= p < pages.len() && 0 <= i < pages[p]@.len() && voter_electable(
            #[trigger] voter_at(pages, p, i),
            targets,
        )
}

/// Whether a record with the same data sits in the list.
pub open spec fn in_flat(r: Seq<VoterRecord>, v: VoterRecord) -> bool {
    exists|k: int| 0 <= k < r.len() && record_eq(v, r[k])
}

/// Whether some slot strictly before `(p, i)` in page-major order holds a
/// record with the same data.
pub open spec fn slot_before(
    pages: Seq<Vec<VoterRecord>>,
    v: VoterRecord,
    p: int,
    i: int,
) -> bool {
    exists|p2: int, i2: int|
        0 <= p2 < pages.len() && 0 <= i2 < pages[p2]@.len() && (p2 < p || (p2 == p && i2 < i))
            && record_eq(voter_at(pages, p2, i2), v)
}

/// A slot before one position is a slot before any later position.
proof fn lemma_slot_before_mono(
    pages: Seq<Vec<VoterRecord>>,
    v: VoterRecord,
    p1: int,
    i1: int,
    p2: int,
    i2: int,
)
    requires
        slot_before(pages, v, p1, i1),
        p1 < p2 || (p1 == p2 && i1 <= i2),
    ensures
        slot_before(pages, v, p2, i2),
{
    let (p3, i3): (int, int) = choose|p3: int, i3: int|
        0 <= p3 < pages.len() && 0 <= i3 < pages[p3]@.len() && (p3 < p1 || (p3 == p1 && i3
            < i1)) && record_eq(voter_at(pages, p3, i3), v);
    assert(0 <= p3 < pages.len() && 0 <= i3 < pages[p3]@.len() && (p3 < p2 || (p3 == p2 && i3
        < i2)) && record_eq(voter_at(pages, p3, i3), v));
}

/// Two paged electorates carrying the same data, slot for slot.
pub open spec fn pages_record_eq(a: Seq<Vec<VoterRecord>>, b: Seq<Vec<VoterRecord>>) -> bool {
    &&& a.len() == b.len()
    &&& forall|p: int| 0 <= p < a.len() ==> (#[trigger] a[p])@.len() == b[p]@.len()
    &&& forall|p: int, i: int|
        0 <= p < a.len() && 0 <= i < a[p]@.len() ==> record_eq(
            voter_at(a, p, i),
            voter_at(b, p, i),
        )
}

/// Electorates with the same data hold the same number of voters.
proof fn lemma_total_voters_record_eq(a: Seq<Vec<VoterRecord>>, b: Seq<Vec<VoterRecord>>)
    requires
        pages_record_eq(a, b),
    ensures
        total_voters(a) == total_voters(b),
    decreases a.len(),
{
    if a.len() > 0 {
        assert(pages_record_eq(a.drop_last(), b.drop_last())) by {
            assert forall|p: int, i: int|
                0 <= p < a.drop_last().len() && 0 <= i < a.drop_last()[p]@.len()
                    implies record_eq(
                    voter_at(a.drop_last(), p, i),
                    voter_at(b.drop_last(), p, i),
                ) by {
                assert(voter_at(a, p, i) == voter_at(a.drop_last(), p, i));
                assert(voter_at(b, p, i) == voter_at(b.drop_last(), p, i));
            }
        }
        lemma_total_voters_record_eq(a.drop_last(), b.drop_last());
        assert(a.last()@.len() == b.last()@.len());
    }
}

/// Well-formedness sees only the data of the records, so electorates with
/// the same data agree on it.
pub proof fn lemma_pages_wf_record_eq(
    a: Seq<Vec<VoterRecord>>,
    b: Seq<Vec<VoterRecord>>,
    targets: Seq<AccountId>,
)
    requires
        pages_record_eq(a, b),
    ensures
        pages_wf(a, targets) <==> pages_wf(b, targets),
{
    lemma_total_voters_record_eq(a, b);
    assert(pages_record_eq(b, a));
    if pages_wf(a, targets) {
        lemma_pages_wf_record_eq_one(a, b, targets);
    }
    if pages_wf(b, targets) {
        lemma_pages_wf_record_eq_one(b, a, targets);
    }
}

/// One direction of the well-formedness transfer.
proof fn lemma_pages_wf_record_eq_one(
    a: Seq<Vec<VoterRecord>>,
    b: Seq<Vec<VoterRecord>>,
    targets: Seq<AccountId>,
)
    requires
        pages_record_eq(a, b),
        pages_wf(a, targets),
    ensures
        pages_wf(b, targets),
{
    lemma_total_voters_record_eq(a, b);
    assert forall|p: int| 0 <= p < b.len() implies (#[trigger] b[p])@.len() <= u32::MAX by {
        assert(a[p]@.len() == b[p]@.len());
    }
    assert forall|p1: int, i1: int, p2: int, i2: int|
        0 <= p1 < b.len() && 0 <= i1 < b[p1]@.len() && 0 <= p2 < b.len() && 0 <= i2
            < b[p2]@.len() && (p1, i1) != (p2, i2) implies voter_at(b, p1, i1).who != voter_at(
        b,
        p2,
        i2,
    ).who by {
        assert(record_eq(voter_at(a, p1, i1), voter_at(b, p1, i1)));
        assert(record_eq(voter_at(a, p2, i2), voter_at(b, p2, i2)));
    }
    assert forall|p: int, i: int|
        0 <= p < b.len() && 0 <= i < b[p]@.len() implies voter_at(b, p, i).votes@.len()
        <= MAX_VOTES_PER_VOTER by {
        assert(record_eq(voter_at(a, p, i), voter_at(b, p, i)));
    }
}

/// Electability sees only the data of the records too.
pub proof fn lemma_pages_electable_record_eq(
    a: Seq<Vec<VoterRecord>>,
    b: Seq<Vec<VoterRecord>>,
    targets: Seq<AccountId>,
)
    requires
        pages_record_eq(a, b),
    ensures
        pages_electable(a, targets) <==> pages_electable(b, targets),
{
    if pages_electable(a, targets) {
        let (p, i): (int, int) = choose|p: int, i: int|
            0 <= p < a.len() && 0 <= i < a[p]@.len() && voter_electable(
                #[trigger] voter_at(a, p, i),
                targets,
            );
        assert(record_eq(voter_at(a, p, i), voter_at(b, p, i)));
        let j = choose|j: int|
            0 <= j < voter_at(a, p, i).votes@.len() && voter_at(a, p, i).stake > 0
                && targets.contains(voter_at(a, p, i).votes@[j]);
        assert(voter_at(b, p, i).votes@[j] == voter_at(a, p, i).votes@[j]);
        assert(voter_electable(voter_at(b, p, i), targets));
        assert(pages_electable(b, targets));
    }
    if pages_electable(b, targets) {
        let (p, i): (int, int) = choose|p: int, i: int|
            0 <= p < b.len() && 0 <= i < b[p]@.len() && voter_electable(
                #[trigger] voter_at(b, p, i),
                targets,
            );
        assert(record_eq(voter_at(a, p, i), voter_at(b, p, i)));
        let j = choose|j: int|
            0 <= j < voter_at(b, p, i).votes@.len() && voter_at(b, p, i).stake > 0
                && targets.contains(voter_at(b, p, i).votes@[j]);
        assert(voter_at(a, p, i).votes@[j] == voter_at(b, p, i).votes@[j]);
        assert(voter_electable(voter_at(a, p, i), targets));
        assert(pages_electable(a, targets));
    }
}

/// A record placed anywhere before the end sits in some page slot.
proof fn lemma_slot_somewhere(pages: Seq<Vec<VoterRecord>>, v: VoterRecord)
    requires
        slot_before(pages, v, pages.len() as int, 0),
    ensures
        exists|p: int, i: int|
            0 <= p < pages.len() && 0 <= i < pages[p]@.len() && record_eq(
                voter_at(pages, p, i),
                v,
            ),
{
    let (p3, i3): (int, int) = choose|p3: int, i3: int|
        0 <= p3 < pages.len() && 0 <= i3 < pages[p3]@.len() && (p3 < pages.len() as int || (p3
            == pages.len() as int && i3 < 0)) && record_eq(voter_at(pages, p3, i3), v);
    assert(0 <= p3 < pages.len() && 0 <= i3 < pages[p3]@.len() && record_eq(
        voter_at(pages, p3, i3),
        v,
    ));
}

/// The flattened voter list of a paged electorate: one record per slot,
/// with the slot's data, no voter repeated, and every slot represented.
pub open spec fn flat_rel(pages: Seq<Vec<VoterRecord>>, flat: Seq<VoterRecord>) -> bool {
    &&& flat.len() == total_voters(pages)
    &&& forall|k: int|
        0 <= k < flat.len() ==> slot_before(pages, #[trigger] flat[k], pages.len() as int, 0)
    &&& forall|k1: int, k2: int|
        0 <= k1 < k2 < flat.len() ==> (#[trigger] flat[k1]).who != (#[trigger] flat[k2]).who
    &&& forall|p: int, i: int|
        0 <= p < pages.len() && 0 <= i < pages[p]@.len() ==> in_flat(
            flat,
            voter_at(pages, p, i),
        )
}

/// Flattens the snapshot pages into the solver's voter list, ascending by
/// page and offset.
#[verifier::loop_isolation(false)]
fn flatten_pages(snap: &Snapshot) -> (r: Vec<VoterRecord>)
    requires
        snap.wf(),
    ensures
        flat_rel(snap.voter_pages@, r@),
        r@.len() == total_voters(snap.voter_pages@),
        forall|k: int|
            0 <= k < r@.len() ==> slot_before(
                snap.voter_pages@,
                #[trigger] r@[k],
                snap.voter_pages@.len() as int,
                0,
            ),
        forall|k1: int, k2: int| 0 <= k1 < k2 < r@.len()
            ==> (#[trigger] r@[k1]).who != (#[trigger] r@[k2]).who,
        forall|p: int, i: int|
            0 <= p < snap.voter_pages@.len() && 0 <= i < snap.voter_pages@[p]@.len()
                ==> in_flat(r@, voter_at(snap.voter_pages@, p, i)),
{
    let pages = &snap.voter_pages;
    let np = pages.len();
    let mut out: Vec<VoterRecord> = Vec::new();
    let mut p: usize = 0;
    while p < np
        invariant
            p <= np,
            out@.len() == total_voters(pages@.take(p as int)),
            forall|k: int|
                0 <= k < out@.len() ==> slot_before(pages@, #[trigger] out@[k], p as int, 0),
            forall|k1: int, k2: int| 0 <= k1 < k2 < out@.len()
                ==> (#[trigger] out@[k1]).who != (#[trigger] out@[k2]).who,
            forall|p2: int, i2: int|
                0 <= p2 < p && 0 <= i2 < pages@[p2]@.len()
                    ==> in_flat(out@, voter_at(pages@, p2, i2)),
        decreases np - p,
    {
        let m = pages[p].len();
        let mut i: usize = 0;
        proof {
            assert forall|k: int|
                0 <= k < out@.len() implies slot_before(
                pages@,
                #[trigger] out@[k],
                p as int,
                0,
            ) by {}
        }
        while i < m
            invariant
                i <= m,
                p < np,
                m == pages@[p as int]@.len(),
                out@.len() == total_voters(pages@.take(p as int)) + i,
                forall|k: int|
                    0 <= k < out@.len() ==> slot_before(
                        pages@,
                        #[trigger] out@[k],
                        p as int,
                        i as int,
                    ),
                forall|k1: int, k2: int| 0 <= k1 < k2 < out@.len()
                    ==> (#[trigger] out@[k1]).who != (#[trigger] out@[k2]).who,
                forall|p2: int, i2: int|
                    0 <= p2 < p && 0 <= i2 < pages@[p2]@.len()
                        ==> in_flat(out@, voter_at(pages@, p2, i2)),
                forall|i2: int|
                    0 <= i2 < i ==> in_flat(out@, voter_at(pages@, p as int, i2)),
            decreases m - i,
        {
            let rec = clone_record(&pages[p][i]);
            let ghost pre = out@;
            out.push(rec);
            proof {
                assert(record_eq(voter_at(pages@, p as int, i as int), out@[out@.len() - 1]));
                assert forall|k: int|
                    0 <= k < out@.len() implies slot_before(
                    pages@,
                    #[trigger] out@[k],
                    p as int,
                    i + 1,
                ) by {
                    if k < pre.len() {
                        assert(out@[k] == pre[k]);
                        lemma_slot_before_mono(pages@, pre[k], p as int, i as int, p as int,
                            i + 1);
                    } else {
                        assert(0 <= p < pages@.len() && 0 <= i < pages@[p as int]@.len() && ((
                        p as int) < p as int || ((p as int) == p as int && (i as int) < i + 1))
                            && record_eq(voter_at(pages@, p as int, i as int), out@[k]));
                    }
                }
                assert forall|k1: int, k2: int|
                    0 <= k1 < k2 < out@.len() implies (#[trigger] out@[k1]).who
                        != (#[trigger] out@[k2]).who by {
                    if k2 == out@.len() - 1 {
                        let (p3, i3): (int, int) = choose|p3: int, i3: int|
                            0 <= p3 < pages@.len() && 0 <= i3 < pages@[p3]@.len() && (p3
                                < p as int || (p3 == p as int && i3 < i as int)) && record_eq(
                                voter_at(pages@, p3, i3),
                                pre[k1],
                            );
                        assert(voter_at(pages@, p3, i3).who
                            != voter_at(pages@, p as int, i as int).who);
                    }
                }
                assert forall|p2: int, i2: int|
                    (0 <= p2 < p && 0 <= i2 < pages@[p2]@.len()) || (p2 == p && 0 <= i2
                        <= i) implies in_flat(out@, voter_at(pages@, p2, i2)) by {
                    if p2 == p as int && i2 == i as int {
                        assert(record_eq(voter_at(pages@, p2, i2), out@[out@.len() - 1]));
                    } else {
                        let k0 = choose|k0: int|
                            0 <= k0 < pre.len() && record_eq(voter_at(pages@, p2, i2), pre[k0]);
                        assert(record_eq(voter_at(pages@, p2, i2), out@[k0]));
                    }
                }
            }
            i = i + 1;
        }
        proof {
            assert(pages@.take(p + 1).drop_last() =~= pages@.take(p as int));
            assert forall|k: int|
                0 <= k < out@.len() implies slot_before(
                pages@,
                #[trigger] out@[k],
                p + 1,
                0,
            ) by {
                lemma_slot_before_mono(pages@, out@[k], p as int, m as int, p + 1, 0);
            }
        }
        p = p + 1;
    }
    proof {
        assert(pages@.take(np as int) =~= pages@);
    }
    out
}

impl Round {
    /// Mines the reference solution for the current snapshot: solves over
    /// the whole unpaged electorate, scores the full assignment set before
    /// any paging, partitions the assignments by the paging index, and
    /// encodes one compact page per snapshot page.
    #[verifier::loop_isolation(false)]
    #[verifier::rlimit(60)]
    #[verifier::spinoff_prover]
    pub fn raw_paged_solution(&self) -> (r: Result<PagedRawSolution, ElectionError>)
        requires
            round_wf(*self),
            self.snapshot.is_some(),
        ensures
            r.is_ok() ==> {
                let sol = r.unwrap();
                &&& sol.solution_pages@.len() == self.snapshot.unwrap().voter_pages@.len()
                &&& sol.round == self.round
            },
            r.is_err() ==> r == Err::<PagedRawSolution, ElectionError>(
                ElectionError::NoFeasibleElection,
            ),
            r.is_err() <==> !(self.snapshot.unwrap().desired_targets > 0 && pages_electable(
                self.snapshot.unwrap().voter_pages@,
                self.snapshot.unwrap().targets@,
            )),
            r.is_ok() ==> exists|
                flat: Seq<VoterRecord>,
                winners: Seq<AccountId>,
                asgs: Seq<Assignment>,
                staked: Seq<StakedAssignment>,
                sup: Seq<(AccountId, Support)>,
            |
                #![trigger assignments_wf(flat, winners, asgs), supports_rel(staked, sup)]
                {
                    let snap = self.snapshot.unwrap();
                    let sol = r.unwrap();
                    &&& flat_rel(snap.voter_pages@, flat)
                    &&& 1 <= winners.len() <= snap.desired_targets
                    &&& forall|i: int|
                        0 <= i < winners.len() ==> snap.targets@.contains(#[trigger] winners[i])
                    &&& forall|i: int, j: int|
                        0 <= i < j < winners.len() ==> winners[i] != winners[j]
                    &&& assignments_wf(flat, winners, asgs)
                    &&& asgs.len() <= flat.len()
                    &&& staked.len() == asgs.len()
                    &&& forall|k: int|
                        0 <= k < staked.len() ==> staked_rel(
                            #[trigger] asgs[k],
                            stake_of_pages(snap.voter_pages@, asgs[k].who),
                            staked[k],
                        )
                    &&& supports_rel(staked, sup)
                    &&& sol.score == eval_spec(sup)
                    &&& sol.solution_pages@.len() == snap.voter_pages@.len()
                    &&& forall|p: int|
                        0 <= p < sol.solution_pages@.len() ==> encode_rel(
                            snap.voter_pages@[p]@,
                            snap.targets@,
                            asgs.filter(in_page(snap.voter_pages@, p)),
                            #[trigger] sol.solution_pages@[p],
                        )
                },
    {
        let snap = match &self.snapshot {
            Some(s) => s,
            None => {
                proof {
                    assert(false);
                }
                return Err(ElectionError::NoFeasibleElection);
            },
        };
        let all_voters = flatten_pages(snap);
        proof {
            assert forall|k: int|
                0 <= k < all_voters@.len() implies (#[trigger] all_voters@[k]).votes@.len()
                    <= MAX_VOTES_PER_VOTER by {
                lemma_slot_somewhere(snap.voter_pages@, all_voters@[k]);
                let (p2, i2): (int, int) = choose|p2: int, i2: int|
                    0 <= p2 < snap.voter_pages@.len() && 0 <= i2 < snap.voter_pages@[p2]@.len()
                        && record_eq(voter_at(snap.voter_pages@, p2, i2), all_voters@[k]);
            }
        }
        proof {
            // something is electable in the flat list exactly when it is
            // electable somewhere in the pages.
            if crate::solver::has_electable(all_voters@, snap.targets@) {
                let (k, j): (int, int) = choose|k: int, j: int|
                    0 <= k < all_voters@.len() && 0 <= j < all_voters@[k].votes@.len()
                        && all_voters@[k].stake > 0 && snap.targets@.contains(
                        all_voters@[k].votes@[j],
                    );
                lemma_slot_somewhere(snap.voter_pages@, all_voters@[k]);
                let (p2, i2): (int, int) = choose|p2: int, i2: int|
                    0 <= p2 < snap.voter_pages@.len() && 0 <= i2 < snap.voter_pages@[p2]@.len()
                        && record_eq(voter_at(snap.voter_pages@, p2, i2), all_voters@[k]);
                assert(voter_electable(voter_at(snap.voter_pages@, p2, i2), snap.targets@));
                assert(pages_electable(snap.voter_pages@, snap.targets@));
            }
            if pages_electable(snap.voter_pages@, snap.targets@) {
                let (p2, i2): (int, int) = choose|p2: int, i2: int|
                    0 <= p2 < snap.voter_pages@.len() && 0 <= i2 < snap.voter_pages@[p2]@.len()
                        && voter_electable(
                        #[trigger] voter_at(snap.voter_pages@, p2, i2),
                        snap.targets@,
                    );
                assert(in_flat(all_voters@, voter_at(snap.voter_pages@, p2, i2)));
                let k = choose|k: int|
                    0 <= k < all_voters@.len() && record_eq(
                        voter_at(snap.voter_pages@, p2, i2),
                        all_voters@[k],
                    );
                let j = choose|j: int|
                    0 <= j < voter_at(snap.voter_pages@, p2, i2).votes@.len() && voter_at(
                        snap.voter_pages@,
                        p2,
                        i2,
                    ).stake > 0 && snap.targets@.contains(
                        voter_at(snap.voter_pages@, p2, i2).votes@[j],
                    );
                assert(all_voters@[k].votes@[j] == voter_at(snap.voter_pages@, p2, i2).votes@[j]);
                assert(crate::solver::has_electable(all_voters@, snap.targets@));
            }
            assert(crate::solver::has_electable(all_voters@, snap.targets@)
                <==> pages_electable(snap.voter_pages@, snap.targets@));
        }
        let desired = snap.desired_targets();
        let result = match seq_phragmen(desired, &snap.targets, &all_voters) {
            Ok(x) => x,
            Err(e) => {
                return Err(e);
            },
        };
        let winners = result.winners;
        let assignments = result.assignments;
        let ghost all_asgs = assignments@;
        proof {
            assert forall|k: int|
                0 <= k < all_asgs.len() implies voter_in_pages(
                snap.voter_pages@,
                (#[trigger] all_asgs[k]).who,
            ) by {
                let i = choose|i: int|
                    0 <= i < all_voters@.len() && crate::solver::asg_wf_for(
                        all_voters@[i],
                        winners@,
                        all_asgs[k],
                    );
                lemma_slot_somewhere(snap.voter_pages@, all_voters@[i]);
                let (p2, i2): (int, int) = choose|p2: int, i2: int|
                    0 <= p2 < snap.voter_pages@.len() && 0 <= i2 < snap.voter_pages@[p2]@.len()
                        && record_eq(voter_at(snap.voter_pages@, p2, i2), all_voters@[i]);
                assert(voter_at(snap.voter_pages@, p2, i2).who == all_asgs[k].who);
            }
        }
        // score the full, unpaged assignment set.
        let n = assignments.len();
        let mut staked: Vec<StakedAssignment> = Vec::new();
        let mut k: usize = 0;
        while k < n
            invariant
                k <= n,
                staked@.len() == k,
                forall|k2: int| 0 <= k2 < staked@.len() ==> {
                    let a = #[trigger] staked@[k2];
                    &&& a.distribution@.len() <= MAX_VOTES_PER_VOTER
                    &&& forall|j: int| 0 <= j < a.distribution@.len()
                        ==> ((#[trigger] a.distribution@[j]).1 as int) <= u64::MAX
                },
                forall|k2: int|
                    0 <= k2 < staked@.len() ==> staked_rel(
                        #[trigger] all_asgs[k2],
                        stake_of_pages(snap.voter_pages@, all_asgs[k2].who),
                        staked@[k2],
                    ),
            decreases n - k,
        {
            let a = &assignments[k];
            proof {
                let i = choose|i: int|
                    0 <= i < all_voters@.len() && crate::solver::asg_wf_for(
                        all_voters@[i],
                        winners@,
                        assignments@[k as int],
                    );
                assert(a.distribution@.len() <= all_voters@[i].votes@.len());
            }
            let stake = match snap.page_of(a.who) {
                Some((pg, off)) => {
                    proof {
                        lemma_stake_of_pages_at(
                            snap.voter_pages@,
                            snap.targets@,
                            pg as int,
                            off as int,
                        );
                    }
                    let page_ref = &snap.voter_pages[pg as usize];
                    page_ref[off as usize].stake
                },
                None => {
                    proof {
                        assert(voter_in_pages(snap.voter_pages@, assignments@[k as int].who));
                        assert(false);
                    }
                    0u64
                },
            };
            proof {
                assert(stake == stake_of_pages(snap.voter_pages@, all_asgs[k as int].who));
            }
            let sa = assignment_into_staked(a, stake);
            staked.push(sa);
            k = k + 1;
        }
        proof {
            assert(staked_bounded(staked@));
        }
        let supports = to_supports(&staked);
        let score = evaluate_support(&supports);
        // partition by page, then encode each page.
        let paged_assignments = partition_assignments(snap, assignments);
        let ghost asgs_view = paged_assignments@;
        let np = paged_assignments.len();
        let mut solution_pages: Vec<SolutionPage> = Vec::new();
        let mut rest = paged_assignments;
        let mut p: usize = 0;
        while p < np
            invariant
                p <= np,
                solution_pages@.len() == p,
                rest@ =~= asgs_view.skip(p as int),
                asgs_view.len() == np,
                forall|p2: int|
                    0 <= p2 < p ==> encode_rel(
                        snap.voter_pages@[p2]@,
                        snap.targets@,
                        all_asgs.filter(in_page(snap.voter_pages@, p2)),
                        #[trigger] solution_pages@[p2],
                    ),
            decreases np - p,
        {
            let page_asgs = rest.remove(0);
            proof {
                assert(page_asgs == asgs_view[p as int]);
                assert(rest@ =~= asgs_view.skip(p + 1));
            }
            let page_voters = &snap.voter_pages[p];
            proof {
                let pred = crate::solution::in_page(snap.voter_pages@, p as int);
                assert(page_asgs@ == all_asgs.filter(pred));
                assert forall|k2: int|
                    0 <= k2 < page_asgs@.len() implies {
                    let a = #[trigger] page_asgs@[k2];
                    &&& exists|i: int| 0 <= i < page_voters@.len() && page_voters@[i].who == a.who
                    &&& 1 <= a.distribution@.len() <= MAX_VOTES_PER_VOTER
                    &&& forall|j: int|
                        0 <= j < a.distribution@.len() ==> snap.targets@.contains(
                            (#[trigger] a.distribution@[j]).0,
                        )
                } by {
                    let a = page_asgs@[k2];
                    crate::score::lemma_filter_sub(all_asgs, pred, k2);
                    let i0 = choose|i0: int| 0 <= i0 < all_asgs.len() && all_asgs[i0] == a;
                    let iw = choose|iw: int|
                        0 <= iw < all_voters@.len() && crate::solver::asg_wf_for(
                            all_voters@[iw],
                            winners@,
                            all_asgs[i0],
                        );
                    assert(a.distribution@.len() <= all_voters@[iw].votes@.len());
                    assert forall|j: int|
                        0 <= j < a.distribution@.len() implies snap.targets@.contains(
                        (#[trigger] a.distribution@[j]).0,
                    ) by {
                        assert(winners@.contains(a.distribution@[j].0));
                        let w0 = choose|w0: int|
                            0 <= w0 < winners@.len() && winners@[w0] == a.distribution@[j].0;
                        assert(snap.targets@.contains(winners@[w0]));
                    }
                    assert(pred(a));
                    assert(voter_in_pages(snap.voter_pages@, a.who));
                    crate::solution::lemma_page_of_contains(snap.voter_pages@, a.who);
                    assert(page_contains(snap.voter_pages@[p as int], a.who));
                }
            }
            let page = encode_page(page_voters, &snap.targets, &page_asgs);
            solution_pages.push(page);
            p = p + 1;
        }
        let sol = PagedRawSolution { solution_pages, score, round: self.round };
        proof {
            // the witnesses of the mined content: the flattened voters, the
            // solver's winners and assignments, their staked form, and the
            // support table the score was evaluated from.
            assert(flat_rel(snap.voter_pages@, all_voters@));
            assert(1 <= winners@.len() <= snap.desired_targets);
            assert(forall|i: int|
                0 <= i < winners@.len() ==> snap.targets@.contains(#[trigger] winners@[i]));
            assert(forall|i: int, j: int|
                0 <= i < j < winners@.len() ==> winners@[i] != winners@[j]);
            assert(assignments_wf(all_voters@, winners@, all_asgs));
            assert(all_asgs.len() <= all_voters@.len());
            assert(staked@.len() == all_asgs.len());
            assert(forall|k2: int|
                0 <= k2 < staked@.len() ==> staked_rel(
                    #[trigger] all_asgs[k2],
                    stake_of_pages(snap.voter_pages@, all_asgs[k2].who),
                    staked@[k2],
                ));
            assert(supports_rel(staked@, supports@));
            assert(sol.score == eval_spec(supports@));
            assert(sol.solution_pages@.len() == snap.voter_pages@.len());
            assert(forall|p2: int|
                0 <= p2 < sol.solution_pages@.len() ==> encode_rel(
                    snap.voter_pages@[p2]@,
                    snap.targets@,
                    all_asgs.filter(in_page(snap.voter_pages@, p2)),
                    #[trigger] sol.solution_pages@[p2],
                ));
        }
        Ok(sol)
    }
}


/// Merges validated per-page support lists into one table, summing the
/// totals of targets that appear on several pages and concatenating their
/// contributing voters in page order. The result stays sorted by target.
#[verifier::loop_isolation(false)]
#[verifier::rlimit(100)]
#[verifier::spinoff_prover]
pub fn aggregate_supports(pages: Vec<Supports>) -> (r: Supports)
    ensures
        forall|i1: int, i2: int|
            0 <= i1 < i2 < r@.len() ==> (#[trigger] r@[i1]).0 < (#[trigger] r@[i2]).0,
        forall|i: int|
            0 <= i < r@.len() ==> (#[trigger] r@[i]).1.total as int == min128(
                all_listed(sup_views(pages@), r@[i].0),
            ),
        forall|t: AccountId|
            (forall|i: int| 0 <= i < r@.len() ==> (#[trigger] r@[i]).0 != t)
                ==> #[trigger] all_listed(sup_views(pages@), t) == 0,
{
    let ghost views = sup_views(pages@);
    let mut acc: Supports = Vec::new();
    let np = pages.len();
    let mut rest = pages;
    let mut p: usize = 0;
    while p < np
        invariant
            p <= np,
            views.len() == np,
            rest@.len() == np - p,
            forall|p2: int| 0 <= p2 < np - p ==> (#[trigger] rest@[p2])@ == views[p + p2],
            forall|i1: int, i2: int|
                0 <= i1 < i2 < acc@.len() ==> (#[trigger] acc@[i1]).0 < (#[trigger] acc@[i2]).0,
            forall|i: int|
                0 <= i < acc@.len() ==> (#[trigger] acc@[i]).1.total as int == min128(
                    all_listed(views.take(p as int), acc@[i].0),
                ),
            forall|t: AccountId|
                (forall|i: int| 0 <= i < acc@.len() ==> (#[trigger] acc@[i]).0 != t)
                    ==> #[trigger] all_listed(views.take(p as int), t) == 0,
        decreases np - p,
    {
        let mut sup = rest.remove(0);
        let ghost cur = views[p as int];
        proof {
            assert(sup@ == cur);
            assert forall|p2: int|
                0 <= p2 < np - p - 1 implies (#[trigger] rest@[p2])@ == views[p + 1 + p2] by {}
        }
        let m = sup.len();
        let mut j: usize = 0;
        while j < m
            invariant
                j <= m,
                m == cur.len(),
                sup@ == cur.skip(j as int),
                forall|i1: int, i2: int|
                    0 <= i1 < i2 < acc@.len() ==> (#[trigger] acc@[i1]).0
                        < (#[trigger] acc@[i2]).0,
                forall|i: int|
                    0 <= i < acc@.len() ==> (#[trigger] acc@[i]).1.total as int == min128(
                        all_listed(views.take(p as int), acc@[i].0) + listed_total(
                            cur.take(j as int),
                            acc@[i].0,
                        ),
                    ),
                forall|t: AccountId|
                    (forall|i: int| 0 <= i < acc@.len() ==> (#[trigger] acc@[i]).0 != t)
                        ==> #[trigger] all_listed(views.take(p as int), t) + listed_total(
                        cur.take(j as int),
                        t,
                    ) == 0,
            decreases m - j,
        {
            let (t, s) = sup.remove(0);
            proof {
                assert(cur.skip(j as int)[0] == cur[j as int]);
                assert((t, s) == cur[j as int]);
                assert(sup@ =~= cur.skip(j + 1));
                assert forall|t2: AccountId| true implies #[trigger] listed_total(
                    cur.take(j + 1),
                    t2,
                ) == listed_total(cur.take(j as int), t2) + if cur[j as int].0 == t2 {
                    cur[j as int].1.total as int
                } else {
                    0int
                } by {
                    assert(cur.take(j + 1).drop_last() =~= cur.take(j as int));
                    assert(cur.take(j + 1).last() == cur[j as int]);
                }
            }
            let an = acc.len();
            let mut pos: usize = 0;
            while pos < an && acc[pos].0 < t
                invariant
                    pos <= an,
                    an == acc@.len(),
                    forall|i: int| 0 <= i < pos ==> (#[trigger] acc@[i]).0 < t,
                decreases an - pos,
            {
                pos = pos + 1;
            }
            let ghost pre_acc = acc@;
            if pos < an && acc[pos].0 == t {
                let mut row = acc.remove(pos);
                let ghost pre_total = row.1.total;
                row.1.total = if s.total > u128::MAX - row.1.total {
                    u128::MAX
                } else {
                    row.1.total + s.total
                };
                let mut voters = s.voters;
                let vn = voters.len();
                let mut v: usize = 0;
                while v < vn
                    invariant
                        v <= vn,
                        voters@.len() == vn - v,
                        row.0 == t,
                        row.1.total == if pre_total as int + cur[j as int].1.total as int
                            > u128::MAX {
                            u128::MAX
                        } else {
                            (pre_total + cur[j as int].1.total) as u128
                        },
                    decreases vn - v,
                {
                    let e = voters.remove(0);
                    row.1.voters.push(e);
                    v = v + 1;
                }
                acc.insert(pos, row);
                proof {
                    assert(acc@ =~= pre_acc.update(pos as int, acc@[pos as int]));
                    assert(acc@[pos as int].0 == t);
                    assert(forall|i: int|
                        0 <= i < acc@.len() ==> (#[trigger] acc@[i]).0 == pre_acc[i].0);
                    lemma_all_listed_nonneg(views.take(p as int), t);
                    lemma_listed_nonneg(cur.take(j as int), t);
                }
            } else {
                proof {
                    assert forall|i: int|
                        pos <= i < an implies (#[trigger] pre_acc[i]).0 > t by {
                        if i > pos {
                            assert(pre_acc[pos as int].0 < pre_acc[i].0);
                        }
                    }
                }
                acc.insert(pos, (t, s));
                proof {
                    assert(acc@[pos as int] == (t, s));
                    // before the insertion the key was absent, so its
                    // partial totals were nothing.
                    assert forall|i: int|
                        0 <= i < pre_acc.len() implies (#[trigger] pre_acc[i]).0 != t by {
                        if i < pos {
                            assert(pre_acc[i].0 < t);
                        } else {
                            assert(pre_acc[i].0 > t);
                        }
                    }
                    assert(all_listed(views.take(p as int), t) + listed_total(
                        cur.take(j as int),
                        t,
                    ) == 0);
                    lemma_all_listed_nonneg(views.take(p as int), t);
                    lemma_listed_nonneg(cur.take(j as int), t);
                    assert forall|i: int|
                        0 <= i < pre_acc.len() implies exists|i2: int|
                        0 <= i2 < acc@.len() && (#[trigger] pre_acc[i]).0 == acc@[i2].0
                            && pre_acc[i].1.total == acc@[i2].1.total by {
                        if i < pos {
                            assert(acc@[i] == pre_acc[i]);
                        } else {
                            assert(acc@[i + 1] == pre_acc[i]);
                        }
                    }
                }
            }
            proof {
                assert forall|t2: AccountId|
                    (forall|i: int| 0 <= i < acc@.len() ==> (#[trigger] acc@[i]).0 != t2)
                        implies #[trigger] all_listed(views.take(p as int), t2) + listed_total(
                    cur.take(j + 1),
                    t2,
                ) == 0 by {
                    assert(t2 != t);
                    assert forall|i: int|
                        0 <= i < pre_acc.len() implies (#[trigger] pre_acc[i]).0 != t2 by {
                        if pos < an && pre_acc[pos as int].0 == t {
                            assert(acc@[i].0 == pre_acc[i].0);
                        } else {
                            if i < pos {
                                assert(acc@[i].0 == pre_acc[i].0);
                            } else {
                                assert(acc@[i + 1].0 == pre_acc[i].0);
                            }
                        }
                    }
                }
            }
            j = j + 1;
        }
        proof {
            assert(cur.take(m as int) =~= cur);
            assert forall|t2: AccountId| true implies #[trigger] all_listed(
                views.take(p + 1),
                t2,
            ) == all_listed(views.take(p as int), t2) + listed_total(cur, t2) by {
                assert(views.take(p + 1).drop_last() =~= views.take(p as int));
                assert(views.take(p + 1).last() == cur);
            }
        }
        p = p + 1;
    }
    proof {
        assert(views.take(np as int) =~= views);
    }
    acc
}

/// The views of a list of support tables.
pub open spec fn sup_views(ps: Seq<Vec<(AccountId, Support)>>) -> Seq<Seq<(AccountId, Support)>> {
    ps.map_values(|v: Vec<(AccountId, Support)>| v@)
}

/// Saturation at the top of the wide balance range.
pub open spec fn min128(x: int) -> int {
    if x > u128::MAX {
        u128::MAX as int
    } else {
        x
    }
}

/// The total listed for one target in one support table.
pub open spec fn listed_total(sup: Seq<(AccountId, Support)>, t: AccountId) -> int
    decreases sup.len(),
{
    if sup.len() == 0 {
        0
    } else {
        listed_total(sup.drop_last(), t) + if sup.last().0 == t {
            sup.last().1.total as int
        } else {
            0
        }
    }
}

/// The total listed for one target across all support tables.
pub open spec fn all_listed(ps: Seq<Seq<(AccountId, Support)>>, t: AccountId) -> int
    decreases ps.len(),
{
    if ps.len() == 0 {
        0
    } else {
        all_listed(ps.drop_last(), t) + listed_total(ps.last(), t)
    }
}

/// A listed total is never negative.
proof fn lemma_listed_nonneg(sup: Seq<(AccountId, Support)>, t: AccountId)
    ensures
        listed_total(sup, t) >= 0,
    decreases sup.len(),
{
    if sup.len() > 0 {
        lemma_listed_nonneg(sup.drop_last(), t);
    }
}

/// A summed listed total is never negative.
proof fn lemma_all_listed_nonneg(ps: Seq<Seq<(AccountId, Support)>>, t: AccountId)
    ensures
        all_listed(ps, t) >= 0,
    decreases ps.len(),
{
    if ps.len() > 0 {
        lemma_all_listed_nonneg(ps.drop_last(), t);
        lemma_listed_nonneg(ps.last(), t);
    }
}

/// What the fallback election promises of its support table: it is the
/// reconstructed table of a valid election over an electorate carrying the
/// provider's data, staked at each voter's recorded stake.
pub open spec fn elect_rel(
    voters: Vec<VoterRecord>,
    targets: Seq<AccountId>,
    desired: u32,
    sup: Seq<(AccountId, Support)>,
    pages: Seq<Vec<VoterRecord>>,
    flat: Seq<VoterRecord>,
    winners: Seq<AccountId>,
    asgs: Seq<Assignment>,
    staked: Seq<StakedAssignment>,
) -> bool {
    &&& pages_record_eq(pages, seq![voters])
    &&& pages_wf(pages, targets)
    &&& flat_rel(pages, flat)
    &&& 1 <= winners.len() <= desired
    &&& forall|i: int| 0 <= i < winners.len() ==> targets.contains(#[trigger] winners[i])
    &&& forall|i: int, j: int| 0 <= i < j < winners.len() ==> winners[i] != winners[j]
    &&& assignments_wf(flat, winners, asgs)
    &&& staked.len() == asgs.len()
    &&& forall|k: int|
        0 <= k < staked.len() ==> staked_rel(
            #[trigger] asgs[k],
            stake_of_pages(pages, asgs[k].who),
            staked[k],
        )
    &&& supports_rel(staked, sup)
}

/// The fallback election provider: runs the sequential proportional
/// election directly over the provider's full electorate and returns the
/// whole support table at the final page.
pub struct MockFallback {}

impl MockFallback {
    /// Elects over the full electorate of the round's provider, read from
    /// the start. Only the final page request carries the result; success
    /// is owed whenever the electorate is well formed and holds something
    /// to elect.
    #[verifier::loop_isolation(false)]
    #[verifier::rlimit(100)]
    #[verifier::spinoff_prover]
    pub fn elect(round: &mut Round, remaining: PageIndex) -> (r: Result<
        Supports,
        &'static str,
    >)
        requires
            round_wf(*old(round)),
        ensures
            round_wf(*final(round)),
            remaining != 0 ==> r.is_err(),
            (remaining == 0 && pages_wf(
                seq![old(round).staking.voters],
                old(round).staking.targets@,
            ) && old(round).staking.desired_targets > 0 && pages_electable(
                seq![old(round).staking.voters],
                old(round).staking.targets@,
            )) ==> r.is_ok(),
            r.is_ok() ==> forall|i1: int, i2: int|
                0 <= i1 < i2 < r.unwrap()@.len() ==> (#[trigger] r.unwrap()@[i1]).0
                    < (#[trigger] r.unwrap()@[i2]).0,
            r.is_ok() ==> exists|
                pages: Seq<Vec<VoterRecord>>,
                flat: Seq<VoterRecord>,
                winners: Seq<AccountId>,
                asgs: Seq<Assignment>,
                staked: Seq<StakedAssignment>,
                sup: Seq<(AccountId, Support)>,
            |
                elect_rel(
                    old(round).staking.voters,
                    old(round).staking.targets@,
                    old(round).staking.desired_targets,
                    sup,
                    pages,
                    flat,
                    winners,
                    asgs,
                    staked,
                ) && sup == r.unwrap()@,
    {
        if remaining != 0 {
            return Err("fallback elects in a single page");
        }
        let ghost orig = seq![old(round).staking.voters];
        // a fallback election always reads the electorate from the start.
        round.staking.last_iterated_voter_index = None;
        let voters = match round.staking.voters(None, 0) {
            Ok(v) => v,
            Err(e) => {
                proof {
                    assert(false);
                }
                return Err(e);
            },
        };
        let targets = match round.staking.targets(None, 0) {
            Ok(t) => t,
            Err(e) => {
                proof {
                    assert(false);
                }
                return Err(e);
            },
        };
        let desired = round.staking.desired_targets;
        // validate the electorate for the solver.
        let single: Vec<Vec<VoterRecord>> = vec![voters];
        proof {
            // the fetched copy carries the same data as the stored list.
            assert(single@.len() == 1);
            assert forall|p: int, i: int|
                0 <= p < single@.len() && 0 <= i < single@[p]@.len() implies record_eq(
                voter_at(single@, p, i),
                voter_at(orig, p, i),
            ) by {
                assert(record_eq(orig[0]@[i], single@[0]@[i]));
            }
            assert(pages_record_eq(single@, orig));
            lemma_pages_wf_record_eq(single@, orig, old(round).staking.targets@);
            lemma_pages_electable_record_eq(single@, orig, old(round).staking.targets@);
        }
        if !check_pages_wf(&single, &targets) {
            return Err("electorate is malformed");
        }
        let snap = Snapshot::seal(single, targets, desired);
        let flat = flatten_pages(&snap);
        proof {
            assert forall|k: int|
                0 <= k < flat@.len() implies (#[trigger] flat@[k]).votes@.len()
                    <= MAX_VOTES_PER_VOTER by {
                lemma_slot_somewhere(snap.voter_pages@, flat@[k]);
                let (p2, i2): (int, int) = choose|p2: int, i2: int|
                    0 <= p2 < snap.voter_pages@.len() && 0 <= i2 < snap.voter_pages@[p2]@.len()
                        && record_eq(voter_at(snap.voter_pages@, p2, i2), flat@[k]);
            }
        }
        proof {
            // electability of the flat list follows from electability of
            // the stored electorate.
            if pages_electable(snap.voter_pages@, snap.targets@) {
                let (p2, i2): (int, int) = choose|p2: int, i2: int|
                    0 <= p2 < snap.voter_pages@.len() && 0 <= i2 < snap.voter_pages@[p2]@.len()
                        && voter_electable(
                        #[trigger] voter_at(snap.voter_pages@, p2, i2),
                        snap.targets@,
                    );
                assert(in_flat(flat@, voter_at(snap.voter_pages@, p2, i2)));
                let k = choose|k: int|
                    0 <= k < flat@.len() && record_eq(
                        voter_at(snap.voter_pages@, p2, i2),
                        flat@[k],
                    );
                let j = choose|j: int|
                    0 <= j < voter_at(snap.voter_pages@, p2, i2).votes@.len() && voter_at(
                        snap.voter_pages@,
                        p2,
                        i2,
                    ).stake > 0 && snap.targets@.contains(
                        voter_at(snap.voter_pages@, p2, i2).votes@[j],
                    );
                assert(flat@[k].votes@[j] == voter_at(snap.voter_pages@, p2, i2).votes@[j]);
                assert(crate::solver::has_electable(flat@, snap.targets@));
            }
        }
        let result = match seq_phragmen(desired, &snap.targets, &flat) {
            Ok(x) => x,
            Err(_) => {
                return Err("nothing to elect");
            },
        };
        let winners = result.winners;
        let assignments = result.assignments;
        let ghost all_asgs = assignments@;
        let n = assignments.len();
        let mut staked: Vec<StakedAssignment> = Vec::new();
        let mut k: usize = 0;
        while k < n
            invariant
                k <= n,
                staked@.len() == k,
                n == assignments@.len(),
                assignments@ == all_asgs,
                all_asgs.len() <= flat@.len(),
                flat@.len() == total_voters(snap.voter_pages@),
                snap.wf(),
                crate::solver::assignments_wf(flat@, winners@, all_asgs),
                forall|k2: int|
                    0 <= k2 < flat@.len() ==> (#[trigger] flat@[k2]).votes@.len()
                        <= MAX_VOTES_PER_VOTER,
                forall|k2: int| 0 <= k2 < staked@.len() ==> {
                    let a = #[trigger] staked@[k2];
                    &&& a.distribution@.len() <= MAX_VOTES_PER_VOTER
                    &&& forall|j: int| 0 <= j < a.distribution@.len()
                        ==> ((#[trigger] a.distribution@[j]).1 as int) <= u64::MAX
                },
                forall|k2: int|
                    0 <= k2 < staked@.len() ==> staked_rel(
                        #[trigger] all_asgs[k2],
                        stake_of_pages(snap.voter_pages@, all_asgs[k2].who),
                        staked@[k2],
                    ),
            decreases n - k,
        {
            let a = &assignments[k];
            proof {
                let i = choose|i: int|
                    0 <= i < flat@.len() && crate::solver::asg_wf_for(
                        flat@[i],
                        winners@,
                        all_asgs[k as int],
                    );
                assert(a.distribution@.len() <= flat@[i].votes@.len());
                assert(voter_in_pages(snap.voter_pages@, flat@[i].who)) by {
                    lemma_slot_somewhere(snap.voter_pages@, flat@[i]);
                    let (p2, i2): (int, int) = choose|p2: int, i2: int|
                        0 <= p2 < snap.voter_pages@.len() && 0 <= i2
                            < snap.voter_pages@[p2]@.len() && record_eq(
                            voter_at(snap.voter_pages@, p2, i2),
                            flat@[i],
                        );
                }
            }
            let stake = match snap.page_of(a.who) {
                Some((pg, off)) => {
                    proof {
                        lemma_stake_of_pages_at(
                            snap.voter_pages@,
                            snap.targets@,
                            pg as int,
                            off as int,
                        );
                    }
                    let page_ref = &snap.voter_pages[pg as usize];
                    page_ref[off as usize].stake
                },
                None => {
                    proof {
                        assert(false);
                    }
                    0u64
                },
            };
            proof {
                assert(stake == stake_of_pages(snap.voter_pages@, all_asgs[k as int].who));
            }
            let sa = assignment_into_staked(a, stake);
            staked.push(sa);
            k = k + 1;
        }
        proof {
            assert(staked_bounded(staked@));
        }
        let table = to_supports(&staked);
        proof {
            assert(snap.targets@ == old(round).staking.targets@);
            assert(elect_rel(
                old(round).staking.voters,
                old(round).staking.targets@,
                old(round).staking.desired_targets,
                table@,
                snap.voter_pages@,
                flat@,
                winners@,
                all_asgs,
                staked@,
            ));
        }
        Ok(table)
    }
}

/// The aggregation relation of `full_checks`: each per-page table is the
/// page checker's output for its encoded page, and the merged table's
/// totals are the saturated sums of the per-page listed totals.
pub open spec fn checked_aggregation(
    snap: Snapshot,
    sol_pages: Seq<SolutionPage>,
    tables: Seq<Seq<(AccountId, Support)>>,
    agg: Seq<(AccountId, Support)>,
) -> bool {
    &&& tables.len() == sol_pages.len()
    &&& forall|p: int|
        0 <= p < tables.len() ==> page_supports_rel(
            snap.voter_pages@[p]@,
            snap.targets@,
            #[trigger] sol_pages[p],
            tables[p],
        )
    &&& forall|i: int|
        0 <= i < agg.len() ==> (#[trigger] agg[i]).1.total as int == min128(
            all_listed(tables, agg[i].0),
        )
    &&& forall|t: AccountId|
        (forall|i: int| 0 <= i < agg.len() ==> (#[trigger] agg[i]).0 != t)
            ==> #[trigger] all_listed(tables, t) == 0
    &&& forall|i1: int, i2: int|
        0 <= i1 < i2 < agg.len() ==> (#[trigger] agg[i1]).0 < (#[trigger] agg[i2]).0
}

impl Round {
    /// Runs the full trust-boundary checks of a submitted solution: the
    /// round identifier, the page count, the per-page feasibility of every
    /// encoded page, and the claimed score against the one recomputed from
    /// the aggregated supports. Returns the aggregated support table.
    #[verifier::loop_isolation(false)]
    pub fn full_checks(&self, paged: &PagedRawSolution) -> (r: Result<
        Supports,
        FeasibilityError,
    >)
        requires
            round_wf(*self),
        ensures
            (r == Err::<Supports, FeasibilityError>(FeasibilityError::RoundMismatch)) <==> (
            paged.round != self.round),
            (r == Err::<Supports, FeasibilityError>(FeasibilityError::SnapshotIncomplete))
                <==> (paged.round == self.round && self.snapshot.is_none()),
            (r == Err::<Supports, FeasibilityError>(FeasibilityError::PageCountMismatch))
                <==> (paged.round == self.round && self.snapshot.is_some()
                && paged.solution_pages@.len() != self.snapshot.unwrap().voter_pages@.len()),
            (r == Err::<Supports, FeasibilityError>(FeasibilityError::ScoreMismatch) ==> (
            paged.round == self.round && self.snapshot.is_some() && paged.solution_pages@.len()
                == self.snapshot.unwrap().voter_pages@.len() && forall|p: int|
                0 <= p < paged.solution_pages@.len() ==> page_feasible(
                    self.snapshot.unwrap().voter_pages@[p]@,
                    self.snapshot.unwrap().targets@,
                    #[trigger] paged.solution_pages@[p],
                    self.snapshot.unwrap().desired_targets,
                ))),
            (paged.round == self.round && self.snapshot.is_some() && paged.solution_pages@.len()
                == self.snapshot.unwrap().voter_pages@.len() && !(forall|p: int|
                0 <= p < paged.solution_pages@.len() ==> page_feasible(
                    self.snapshot.unwrap().voter_pages@[p]@,
                    self.snapshot.unwrap().targets@,
                    #[trigger] paged.solution_pages@[p],
                    self.snapshot.unwrap().desired_targets,
                ))) ==> (r.is_err() && r != Err::<Supports, FeasibilityError>(
                FeasibilityError::RoundMismatch,
            ) && r != Err::<Supports, FeasibilityError>(FeasibilityError::SnapshotIncomplete)
                && r != Err::<Supports, FeasibilityError>(FeasibilityError::PageCountMismatch)
                && r != Err::<Supports, FeasibilityError>(FeasibilityError::ScoreMismatch)),
            r.is_ok() ==> {
                &&& paged.round == self.round
                &&& self.snapshot.is_some()
                &&& paged.solution_pages@.len() == self.snapshot.unwrap().voter_pages@.len()
                &&& forall|p: int|
                    0 <= p < paged.solution_pages@.len() ==> page_feasible(
                        self.snapshot.unwrap().voter_pages@[p]@,
                        self.snapshot.unwrap().targets@,
                        #[trigger] paged.solution_pages@[p],
                        self.snapshot.unwrap().desired_targets,
                    )
                &&& eval_spec(r.unwrap()@) == paged.score
                &&& r.unwrap()@.len() <= self.snapshot.unwrap().desired_targets
                &&& exists|tables: Seq<Seq<(AccountId, Support)>>|
                    #[trigger] checked_aggregation(
                        self.snapshot.unwrap(),
                        paged.solution_pages@,
                        tables,
                        r.unwrap()@,
                    )
                &&& forall|i1: int, i2: int|
                    0 <= i1 < i2 < r.unwrap()@.len() ==> (#[trigger] r.unwrap()@[i1]).0
                        < (#[trigger] r.unwrap()@[i2]).0
            },
            r == Err::<Supports, FeasibilityError>(FeasibilityError::ScoreMismatch)
                ==> exists|tables: Seq<Seq<(AccountId, Support)>>, agg: Seq<(AccountId, Support)>|
                {
                    &&& #[trigger] checked_aggregation(
                        self.snapshot.unwrap(),
                        paged.solution_pages@,
                        tables,
                        agg,
                    )
                    &&& agg.len() <= self.snapshot.unwrap().desired_targets
                    &&& eval_spec(agg) != paged.score
                },
            (paged.round == self.round && self.snapshot.is_some() && paged.solution_pages@.len()
                == self.snapshot.unwrap().voter_pages@.len() && (forall|p: int|
                0 <= p < paged.solution_pages@.len() ==> page_feasible(
                    self.snapshot.unwrap().voter_pages@[p]@,
                    self.snapshot.unwrap().targets@,
                    #[trigger] paged.solution_pages@[p],
                    self.snapshot.unwrap().desired_targets,
                ))) ==> (r.is_ok() || r == Err::<Supports, FeasibilityError>(
                FeasibilityError::ScoreMismatch,
            ) || r == Err::<Supports, FeasibilityError>(FeasibilityError::WinnerCountExceeded)),
    {
        if paged.round != self.round {
            return Err(FeasibilityError::RoundMismatch);
        }
        let snap = match &self.snapshot {
            Some(s) => s,
            None => {
                return Err(FeasibilityError::SnapshotIncomplete);
            },
        };
        let np = paged.solution_pages.len();
        if np != snap.voter_pages.len() {
            return Err(FeasibilityError::PageCountMismatch);
        }
        let mut all_supports: Vec<Supports> = Vec::new();
        let mut p: usize = 0;
        while p < np
            invariant
                p <= np,
                all_supports@.len() == p,
                forall|p2: int|
                    0 <= p2 < p ==> page_feasible(
                        snap.voter_pages@[p2]@,
                        snap.targets@,
                        #[trigger] paged.solution_pages@[p2],
                        snap.desired_targets,
                    ),
                forall|p2: int|
                    0 <= p2 < p ==> page_supports_rel(
                        snap.voter_pages@[p2]@,
                        snap.targets@,
                        #[trigger] paged.solution_pages@[p2],
                        all_supports@[p2]@,
                    ),
            decreases np - p,
        {
            match feasibility_check_page(snap, &paged.solution_pages[p], p as u32) {
                Ok(sup) => {
                    all_supports.push(sup);
                },
                Err(e) => {
                    proof {
                        assert(!page_feasible(
                            snap.voter_pages@[p as int]@,
                            snap.targets@,
                            paged.solution_pages@[p as int],
                            snap.desired_targets,
                        ));
                    }
                    return Err(e);
                },
            }
            p = p + 1;
        }
        let ghost tables = sup_views(all_supports@);
        let agg = aggregate_supports(all_supports);
        // the aggregated winner set must not exceed the desired count.
        if agg.len() > snap.desired_targets as usize {
            return Err(FeasibilityError::WinnerCountExceeded);
        }
        let recomputed = evaluate_support(&agg);
        proof {
            assert(checked_aggregation(*snap, paged.solution_pages@, tables, agg@));
        }
        if recomputed == paged.score {
            Ok(agg)
        } else {
            Err(FeasibilityError::ScoreMismatch)
        }
    }
}

impl ElectionScore {
    /// Whether this score is strictly better than the other, by the
    /// lexicographic quality order: a larger minimal backing wins,
    /// then a larger total backing, then a smaller sum of squares.
    pub fn strictly_better(&self, other: &ElectionScore) -> (r: bool)
        ensures
            r <==> (self.minimal_stake > other.minimal_stake || (self.minimal_stake
                == other.minimal_stake && (self.sum_stake > other.sum_stake || (self.sum_stake
                == other.sum_stake && self.sum_stake_squared < other.sum_stake_squared)))),
    {
        if self.minimal_stake != other.minimal_stake {
            self.minimal_stake > other.minimal_stake
        } else if self.sum_stake != other.sum_stake {
            self.sum_stake > other.sum_stake
        } else {
            self.sum_stake_squared < other.sum_stake_squared
        }
    }
}

} // verus!
