use multi_block::round::{aggregate_supports, ExtBuilder, MockFallback, Round};
use multi_block::solution::{decode_page, encode_page, RestVote, SolutionPage};
use multi_block::score::Support;
use multi_block::feasibility::feasibility_check_page;
use multi_block::solver::Assignment;
use multi_block::{ElectionScore, FeasibilityError};

fn snapshot_round(pages: u32, per_page: u32) -> Round {
    let mut r = ExtBuilder::default().pages(pages).voter_per_page(per_page).build_unchecked();
    r.roll_to_snapshot_created();
    assert!(r.ensure_full_snapshot());
    r
}

#[test]
fn forged_backing_is_rejected_as_such() {
    let r = snapshot_round(2, 4);
    let snap = r.snapshot.as_ref().unwrap();
    // page 0 holds voters 5, 6, 7, 8; voter 8 (index 3) approves only 10,
    // so a claimed backing of 20 (index 1) is forged, not a sum mismatch.
    let page = SolutionPage { votes1: vec![(3, 1)], votes2: vec![], votes_rest: vec![] };
    assert_eq!(
        feasibility_check_page(snap, &page, 0).err().unwrap(),
        FeasibilityError::ForgedBacking
    );
}

#[test]
fn out_of_bounds_indices_are_rejected_as_such() {
    let r = snapshot_round(2, 4);
    let snap = r.snapshot.as_ref().unwrap();
    // voter index 4 is outside a page of four voters.
    let page = SolutionPage { votes1: vec![(4, 0)], votes2: vec![], votes_rest: vec![] };
    assert_eq!(
        feasibility_check_page(snap, &page, 0).err().unwrap(),
        FeasibilityError::VoterIndexOutOfBounds
    );
    // target index 4 is outside a list of four targets.
    let page = SolutionPage { votes1: vec![(0, 4)], votes2: vec![], votes_rest: vec![] };
    assert_eq!(
        feasibility_check_page(snap, &page, 0).err().unwrap(),
        FeasibilityError::TargetIndexOutOfBounds
    );
    // an unknown page is a missing snapshot page.
    let page = SolutionPage { votes1: vec![], votes2: vec![], votes_rest: vec![] };
    assert_eq!(
        feasibility_check_page(snap, &page, 7).err().unwrap(),
        FeasibilityError::SnapshotMissing
    );
}

#[test]
fn wide_records_and_overshooting_sums_are_rejected() {
    let r = snapshot_round(2, 4);
    let snap = r.snapshot.as_ref().unwrap();
    // a record listing 17 distinct targets is too wide.
    let wide = RestVote { voter: 0, split: vec![(0, 1); 16], last: 3 };
    let page = SolutionPage { votes1: vec![], votes2: vec![], votes_rest: vec![wide] };
    assert_eq!(
        feasibility_check_page(snap, &page, 0).err().unwrap(),
        FeasibilityError::TooManyTargetsForVoter
    );
    // voter 5 (index 0 of page 0) approves 10, 30 and 40; explicit splits
    // beyond one whole stake, past the tolerance, are a sum mismatch.
    let over = RestVote { voter: 0, split: vec![(0, 65535), (2, 65535)], last: 3 };
    let page = SolutionPage { votes1: vec![], votes2: vec![], votes_rest: vec![over] };
    assert_eq!(
        feasibility_check_page(snap, &page, 0).err().unwrap(),
        FeasibilityError::ProportionSumMismatch
    );
}

#[test]
fn duplicate_voter_references_are_a_sum_mismatch() {
    let r = snapshot_round(2, 4);
    let snap = r.snapshot.as_ref().unwrap();
    // page 0 holds voters 5, 6, 7, 8; referencing voter 8 (index 3) twice
    // would distribute twice its stake, so the page is rejected.
    let page = SolutionPage { votes1: vec![(3, 0), (3, 0)], votes2: vec![], votes_rest: vec![] };
    assert_eq!(
        feasibility_check_page(snap, &page, 0).err().unwrap(),
        FeasibilityError::ProportionSumMismatch
    );
    // the same voter split across record classes is rejected too.
    let page = SolutionPage {
        votes1: vec![(0, 0)],
        votes2: vec![(0, (0, 32768), 3)],
        votes_rest: vec![],
    };
    assert_eq!(
        feasibility_check_page(snap, &page, 0).err().unwrap(),
        FeasibilityError::ProportionSumMismatch
    );
}

#[test]
fn winner_count_is_bounded_by_desired_targets() {
    let r = snapshot_round(2, 4);
    let snap = r.snapshot.as_ref().unwrap();
    // page 0 = voters 5, 6, 7, 8: voter 5 approves 10, 30, 40 and voter 7
    // approves 20, 30: three distinct targets exceed two desired winners.
    let page = SolutionPage {
        votes1: vec![(0, 0), (2, 1), (1, 3)],
        votes2: vec![],
        votes_rest: vec![],
    };
    assert_eq!(
        feasibility_check_page(snap, &page, 0).err().unwrap(),
        FeasibilityError::WinnerCountExceeded
    );
}

#[test]
fn full_checks_reject_stale_rounds_and_bad_shapes() {
    let r = snapshot_round(2, 4);
    let score = ElectionScore { minimal_stake: 0, sum_stake: 0, sum_stake_squared: 0 };
    // a fake carries the default round identifier and is stale as built.
    let fake = r.raw_fake_solution(score);
    assert_eq!(fake.round, 0);
    assert_eq!(r.full_checks(&fake).err().unwrap(), FeasibilityError::RoundMismatch);

    let mut fake = r.raw_fake_solution(score);
    fake.round = 1;
    fake.solution_pages.pop();
    assert_eq!(r.full_checks(&fake).err().unwrap(), FeasibilityError::PageCountMismatch);

    // an all-empty solution claiming a wrong score is a score mismatch.
    let mut fake = r.raw_fake_solution(score);
    fake.round = 1;
    assert_eq!(r.full_checks(&fake).err().unwrap(), FeasibilityError::ScoreMismatch);

    // an all-empty solution claiming the empty score is accepted.
    let empty_score =
        ElectionScore { minimal_stake: u128::MAX, sum_stake: 0, sum_stake_squared: 0 };
    let mut fake = r.raw_fake_solution(empty_score);
    fake.round = 1;
    assert!(r.full_checks(&fake).is_ok());
}

#[test]
fn solution_page_round_trips_through_the_codec() {
    let r = snapshot_round(2, 4);
    let snap = r.snapshot.as_ref().unwrap();
    let page_voters = &snap.voter_pages[0];
    // voters 5 (10, 30, 40), 6 (20, 30, 40) and 8 (10) of page 0, with
    // proportions summing exactly to one whole stake each.
    let assignments = vec![
        Assignment { who: 5, distribution: vec![(10, 20000), (30, 20000), (40, 25535)] },
        Assignment { who: 6, distribution: vec![(30, 30000), (40, 35535)] },
        Assignment { who: 8, distribution: vec![(10, 65535)] },
    ];
    let encoded = encode_page(page_voters, &snap.targets, &assignments);
    assert_eq!(encoded.votes1, vec![(3, 0)]);
    assert_eq!(encoded.votes2, vec![(1, (2, 30000), 3)]);
    assert_eq!(
        encoded.votes_rest,
        vec![RestVote { voter: 0, split: vec![(0, 20000), (2, 20000)], last: 3 }]
    );
    let decoded = decode_page(page_voters, &snap.targets, &encoded).unwrap();
    // decoding reorders by record width but reproduces every assignment.
    for a in assignments.iter() {
        let back = decoded.iter().find(|d| d.who == a.who).unwrap();
        assert_eq!(back, a);
    }
    assert_eq!(decoded.len(), assignments.len());
}

#[test]
fn aggregation_is_invariant_under_page_order() {
    let page_a: Vec<(u64, Support)> = vec![
        (10, Support { total: 15, voters: vec![(8, 10), (5, 5)] }),
        (40, Support { total: 15, voters: vec![(6, 10), (5, 5)] }),
    ];
    let page_b: Vec<(u64, Support)> = vec![
        (10, Support { total: 15, voters: vec![(1, 10), (4, 5)] }),
        (40, Support { total: 25, voters: vec![(2, 10), (3, 10), (4, 5)] }),
    ];
    let forward = aggregate_supports(vec![page_a.clone(), page_b.clone()]);
    let backward = aggregate_supports(vec![page_b, page_a]);
    let forward_totals: Vec<(u64, u128)> =
        forward.iter().map(|(t, s)| (*t, s.total)).collect();
    let backward_totals: Vec<(u64, u128)> =
        backward.iter().map(|(t, s)| (*t, s.total)).collect();
    assert_eq!(forward_totals, vec![(10, 30), (40, 40)]);
    assert_eq!(forward_totals, backward_totals);
}

#[test]
fn partition_preserves_every_assignment_exactly_once() {
    let mut r = snapshot_round(3, 4);
    let paged = r.raw_paged_solution().unwrap();
    // decode all pages and re-collect every voter exactly once.
    let snap = r.snapshot.as_ref().unwrap();
    let mut seen: Vec<u64> = Vec::new();
    for (i, p) in paged.solution_pages.iter().enumerate() {
        let decoded = decode_page(&snap.voter_pages[i], &snap.targets, p).unwrap();
        for a in decoded {
            assert!(!seen.contains(&a.who), "voter split across pages");
            seen.push(a.who);
        }
    }
    seen.sort();
    // voters 1 and 8 and the self voters 10 and 20 back no winner.
    assert_eq!(seen, vec![2, 3, 4, 5, 6, 7, 30, 40]);
    let _ = &mut r;
}

#[test]
fn fallback_elects_over_the_full_electorate() {
    let mut r = ExtBuilder::default().build_unchecked();
    assert!(MockFallback::elect(&mut r, 1).is_err());
    let supports = MockFallback::elect(&mut r, 0).unwrap();
    let totals: Vec<(u64, u128)> = supports.iter().map(|(t, s)| (*t, s.total)).collect();
    // the full 12-voter electorate elects 30 and 40, as in the 3-page run.
    assert_eq!(totals, vec![(30, 55), (40, 75)]);
}

#[test]
fn score_comparison_is_lexicographic() {
    let s = |a: u128, b: u128, c: u128| ElectionScore {
        minimal_stake: a,
        sum_stake: b,
        sum_stake_squared: c,
    };
    // a larger minimal backing wins outright.
    assert!(s(31, 0, 9999).strictly_better(&s(30, 70, 2500)));
    // with equal minimal backing, a larger total wins.
    assert!(s(30, 71, 9999).strictly_better(&s(30, 70, 2500)));
    // with both equal, a smaller sum of squares wins.
    assert!(s(30, 70, 2499).strictly_better(&s(30, 70, 2500)));
    // an equal score never displaces the incumbent.
    assert!(!s(30, 70, 2500).strictly_better(&s(30, 70, 2500)));
    assert!(!s(29, 99, 0).strictly_better(&s(30, 70, 2500)));
}
