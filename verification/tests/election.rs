use multi_block::round::{ExtBuilder, Round};
use multi_block::solution::{PagedRawSolution, SolutionPage};
use multi_block::score::Support;
use multi_block::feasibility::feasibility_check_page;
use multi_block::solver::seq_phragmen;
use multi_block::{ElectionError, ElectionScore, VoterRecord};

fn empty_page() -> SolutionPage {
    SolutionPage { votes1: Vec::new(), votes2: Vec::new(), votes_rest: Vec::new() }
}

fn page_whos(r: &Round, page: u32) -> Vec<u64> {
    r.snapshot
        .as_ref()
        .unwrap()
        .voter_pages[page as usize]
        .iter()
        .map(|v| v.who)
        .collect()
}

fn flat_count(r: &Round) -> usize {
    r.snapshot.as_ref().unwrap().voter_pages.iter().map(|p| p.len()).sum()
}

#[test]
fn raw_paged_solution_works_2_page() {
    let ok = ExtBuilder::default().pages(2).voter_per_page(4).build_and_execute(|mut r: Round| {
        r.roll_to_snapshot_created();

        // 2 pages of 8 voters
        assert_eq!(r.snapshot.as_ref().unwrap().voter_pages.len(), 2);
        assert_eq!(flat_count(&r), 8);
        // 1 flat list of 4 targets
        assert_eq!(r.snapshot.as_ref().unwrap().targets.len(), 4);

        // voters in pages. note the reverse page index.
        assert_eq!(page_whos(&r, 1), vec![1, 2, 3, 4]);
        assert_eq!(page_whos(&r, 0), vec![5, 6, 7, 8]);
        // targets.
        assert_eq!(r.snapshot.as_ref().unwrap().targets, vec![10, 20, 30, 40]);

        let paged = r.raw_paged_solution().unwrap();
        assert_eq!(
            paged.solution_pages,
            vec![
                // in page 0 of the snapshot: voters 5, 6, 7, 8.
                SolutionPage {
                    // voter 6 (index 1) is backing 40 (index 3).
                    // voter 8 (index 3) is backing 10 (index 0).
                    votes1: vec![(1, 3), (3, 0)],
                    // voter 5 (index 0) is backing 10 (index 0) and 40 (index 3).
                    votes2: vec![(0, (0, 32768), 3)],
                    votes_rest: Vec::new(),
                },
                // in page 1 of the snapshot: voters 1, 2, 3, 4.
                SolutionPage {
                    votes1: vec![(0, 0), (1, 3), (2, 3)],
                    votes2: vec![(3, (0, 32768), 3)],
                    votes_rest: Vec::new(),
                },
            ]
        );

        // this solution must be feasible and submittable.
        assert!(r.full_checks(&paged).is_ok());

        // convert to supports, page by page.
        let snap = r.snapshot.as_ref().unwrap();
        let supports: Vec<Vec<(u64, Support)>> = paged
            .solution_pages
            .iter()
            .enumerate()
            .map(|(i, p)| feasibility_check_page(snap, p, i as u32).unwrap())
            .collect();

        assert_eq!(
            supports,
            vec![
                // page 0: supports from voters 5, 6, 7, 8.
                vec![
                    (10, Support { total: 15, voters: vec![(8, 10), (5, 5)] }),
                    (40, Support { total: 15, voters: vec![(6, 10), (5, 5)] })
                ],
                // page 1: supports from voters 1, 2, 3, 4.
                vec![
                    (10, Support { total: 15, voters: vec![(1, 10), (4, 5)] }),
                    (40, Support { total: 25, voters: vec![(2, 10), (3, 10), (4, 5)] })
                ]
            ]
        );

        assert_eq!(
            paged.score,
            ElectionScore { minimal_stake: 30, sum_stake: 70, sum_stake_squared: 2500 }
        );
        r
    });
    assert!(ok);
}

#[test]
fn raw_paged_solution_works_3_page() {
    let ok = ExtBuilder::default().pages(3).voter_per_page(4).build_and_execute(|mut r: Round| {
        r.roll_to_snapshot_created();

        // 3 pages of 12 voters
        assert_eq!(r.snapshot.as_ref().unwrap().voter_pages.len(), 3);
        assert_eq!(flat_count(&r), 12);
        assert_eq!(r.snapshot.as_ref().unwrap().targets.len(), 4);

        // voters in pages. note the reverse page index.
        assert_eq!(page_whos(&r, 2), vec![1, 2, 3, 4]);
        assert_eq!(page_whos(&r, 1), vec![5, 6, 7, 8]);
        assert_eq!(page_whos(&r, 0), vec![10, 20, 30, 40]);

        let paged = r.raw_paged_solution().unwrap();
        assert_eq!(
            paged.solution_pages,
            vec![
                SolutionPage {
                    votes1: vec![(2, 2), (3, 3)],
                    votes2: Vec::new(),
                    votes_rest: Vec::new(),
                },
                SolutionPage {
                    votes1: vec![(2, 2)],
                    votes2: vec![(0, (2, 32768), 3), (1, (2, 32768), 3)],
                    votes_rest: Vec::new(),
                },
                SolutionPage {
                    votes1: vec![(2, 3), (3, 3)],
                    votes2: vec![(1, (2, 32768), 3)],
                    votes_rest: Vec::new(),
                },
            ]
        );

        assert!(r.full_checks(&paged).is_ok());

        let snap = r.snapshot.as_ref().unwrap();
        let supports: Vec<Vec<(u64, Support)>> = paged
            .solution_pages
            .iter()
            .enumerate()
            .map(|(i, p)| feasibility_check_page(snap, p, i as u32).unwrap())
            .collect();

        assert_eq!(
            supports,
            vec![
                // page 0: self-votes.
                vec![
                    (30, Support { total: 30, voters: vec![(30, 30)] }),
                    (40, Support { total: 40, voters: vec![(40, 40)] })
                ],
                // page 1: 5, 6, 7, 8.
                vec![
                    (30, Support { total: 20, voters: vec![(7, 10), (5, 5), (6, 5)] }),
                    (40, Support { total: 10, voters: vec![(5, 5), (6, 5)] })
                ],
                // page 2: 1, 2, 3, 4.
                vec![
                    (30, Support { total: 5, voters: vec![(2, 5)] }),
                    (40, Support { total: 25, voters: vec![(3, 10), (4, 10), (2, 5)] })
                ]
            ]
        );

        assert_eq!(
            paged.score,
            ElectionScore { minimal_stake: 55, sum_stake: 130, sum_stake_squared: 8650 }
        );
        r
    });
    assert!(ok);
}

#[test]
fn pagination_does_not_affect_score() {
    let score_1 = {
        let mut r = ExtBuilder::default().pages(1).voter_per_page(12).build_unchecked();
        r.roll_to_snapshot_created();
        r.raw_paged_solution().unwrap().score
    };
    let score_2 = {
        let mut r = ExtBuilder::default().pages(2).voter_per_page(6).build_unchecked();
        r.roll_to_snapshot_created();
        r.raw_paged_solution().unwrap().score
    };
    let score_3 = {
        let mut r = ExtBuilder::default().pages(3).voter_per_page(4).build_unchecked();
        r.roll_to_snapshot_created();
        r.raw_paged_solution().unwrap().score
    };

    assert_eq!(score_1, score_2);
    assert_eq!(score_2, score_3);
}

#[test]
fn staking_mock_works() {
    let ok = ExtBuilder::default().build_and_execute(|mut r: Round| {
        assert_eq!(r.staking.voters(None, 0).unwrap().len(), 12);
        assert!(r.staking.last_iterated_voter_index.is_none());

        let whos: Vec<u64> =
            r.staking.voters(Some(4), 0).unwrap().into_iter().map(|v| v.who).collect();
        assert_eq!(whos, vec![1, 2, 3, 4]);
        assert!(r.staking.last_iterated_voter_index.is_none());

        let whos: Vec<u64> =
            r.staking.voters(Some(4), 2).unwrap().into_iter().map(|v| v.who).collect();
        assert_eq!(whos, vec![1, 2, 3, 4]);
        assert_eq!(r.staking.last_iterated_voter_index.unwrap(), 4);

        let whos: Vec<u64> =
            r.staking.voters(Some(4), 1).unwrap().into_iter().map(|v| v.who).collect();
        assert_eq!(whos, vec![5, 6, 7, 8]);
        assert_eq!(r.staking.last_iterated_voter_index.unwrap(), 8);

        let whos: Vec<u64> =
            r.staking.voters(Some(4), 0).unwrap().into_iter().map(|v| v.who).collect();
        assert_eq!(whos, vec![10, 20, 30, 40]);
        assert!(r.staking.last_iterated_voter_index.is_none());
        r
    });
    assert!(ok);
}

#[test]
fn raw_fake_solution_has_right_shape() {
    let mut r = ExtBuilder::default().pages(3).build_unchecked();
    r.roll_to_snapshot_created();
    let score = ElectionScore { minimal_stake: 1, sum_stake: 2, sum_stake_squared: 3 };
    let fake = r.raw_fake_solution(score);
    assert_eq!(fake.solution_pages.len(), 3);
    assert_eq!(fake.round, 0);
    assert_eq!(fake.score, score);
    assert_eq!(fake.solution_pages[0], empty_page());
}

#[test]
fn roll_to_advances_blocks_and_builds_snapshot() {
    let mut r = ExtBuilder::default().pages(2).voter_per_page(4).build_unchecked();
    assert!(r.snapshot.is_none());
    r.roll_to(1);
    assert_eq!(r.block_number, 1);
    assert!(r.snapshot.is_none());
    r.roll_to(2);
    assert!(r.snapshot.is_some());
    assert!(r.ensure_full_snapshot());
    assert!(r.nested_voter_snapshot().is_some());
    let w = r.witness();
    assert_eq!(w.voters, 8);
    assert_eq!(w.targets, 4);
}

#[test]
fn end_to_end_scenario_matches_expected_outcome() {
    // the fixed electorate: four plain voters and the four self voters,
    // two winners, two pages of four voters.
    let mut r = ExtBuilder::default().pages(2).voter_per_page(4).build_unchecked();
    let voters: Vec<(u64, u64, Vec<u64>)> = vec![
        (1, 10, vec![10, 20]),
        (2, 10, vec![30, 40]),
        (3, 10, vec![40]),
        (4, 10, vec![10, 20, 40]),
        (10, 10, vec![10]),
        (20, 20, vec![20]),
        (30, 30, vec![30]),
        (40, 40, vec![40]),
    ];
    let records = voters
        .into_iter()
        .map(|(who, stake, votes)| multi_block::VoterRecord { who, stake, votes })
        .collect();
    r.staking.put_snapshot(records, vec![10, 20, 30, 40]);
    r.roll_to_snapshot_created();
    assert!(r.ensure_full_snapshot());

    let paged = r.raw_paged_solution().unwrap();
    assert!(r.full_checks(&paged).is_ok());

    let snap = r.snapshot.as_ref().unwrap();
    let supports: Vec<Vec<(u64, Support)>> = paged
        .solution_pages
        .iter()
        .enumerate()
        .map(|(i, p)| feasibility_check_page(snap, p, i as u32).unwrap())
        .collect();

    assert_eq!(
        supports,
        vec![
            // page 0: the self voters.
            vec![
                (20, Support { total: 20, voters: vec![(20, 20)] }),
                (40, Support { total: 40, voters: vec![(40, 40)] })
            ],
            // page 1: voters 1, 2, 3, 4.
            vec![
                (20, Support { total: 15, voters: vec![(1, 10), (4, 5)] }),
                (40, Support { total: 25, voters: vec![(2, 10), (3, 10), (4, 5)] })
            ]
        ]
    );

    assert_eq!(
        paged.score,
        ElectionScore { minimal_stake: 35, sum_stake: 100, sum_stake_squared: 5450 }
    );
}

#[test]
fn solver_rejects_empty_elections() {
    let targets: Vec<u64> = vec![10, 20];
    let voters: Vec<VoterRecord> =
        vec![VoterRecord { who: 1, stake: 10, votes: vec![10] }];
    // zero desired winners.
    assert_eq!(
        seq_phragmen(0, &targets, &voters).err().unwrap(),
        ElectionError::NoFeasibleElection
    );
    // no voters at all.
    let nobody: Vec<VoterRecord> = Vec::new();
    assert_eq!(
        seq_phragmen(2, &targets, &nobody).err().unwrap(),
        ElectionError::NoFeasibleElection
    );
    // votes outside the candidate list.
    let stranger: Vec<VoterRecord> =
        vec![VoterRecord { who: 1, stake: 10, votes: vec![99] }];
    assert_eq!(
        seq_phragmen(2, &targets, &stranger).err().unwrap(),
        ElectionError::NoFeasibleElection
    );
    // a working election elects at least one winner.
    let result = seq_phragmen(2, &targets, &voters).unwrap();
    assert_eq!(result.winners, vec![10]);
}
