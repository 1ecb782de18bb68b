use liquid_vote::community::{add_to_vote_history, create_user, Community, VoteHistory};
use liquid_vote::delegation::resolve_graph;
use liquid_vote::delegation::resolve;
use liquid_vote::model::{
    Ballot, BallotPayload, Delegation, PollType, ReferendumOption, Topic, VoteError, VoteOption,
    VoterStatus,
};
use liquid_vote::poll::{
    compute_poll_result, compute_question_result, create_poll, create_question,
    get_poll_participation, submit_ballot, PollOutcome, PollQuestion, Tally,
};
use liquid_vote::ranked::{tally_ranked, RankedOutcome};
use liquid_vote::tally::{tally_quantified, tally_referendum, Decision};

fn deleg(from: usize, to: usize, topic: Topic, end_date: i64) -> Delegation {
    Delegation { from_principal: from, to_delegate: to, topic, end_date }
}

fn referendum(voter: usize, c: ReferendumOption) -> Ballot {
    Ballot { voter, timestamp: 0, payload: BallotPayload::Referendum(c) }
}

fn ranked(voter: usize, r: Vec<usize>) -> Ballot {
    Ballot { voter, timestamp: 0, payload: BallotPayload::Ranked(r) }
}

fn options(k: usize) -> Vec<VoteOption> {
    (0..k)
        .map(|i| VoteOption { vote: format!("option {}", i), vote_description: String::new() })
        .collect()
}

fn question(t: PollType, topic: Topic, k: usize, votes: Vec<Ballot>) -> PollQuestion {
    let mut q = create_question(1, 2, t, topic, "question".to_string(), options(k));
    q.votes = votes;
    q
}

#[test]
fn acyclic_weights_are_conserved() {
    let ds = vec![
        deleg(0, 1, Topic::Work, 100),
        deleg(1, 2, Topic::Work, 100),
        deleg(3, 2, Topic::Work, 100),
    ];
    let r = resolve(Topic::Work, 10, 5, &ds).ok().unwrap();
    assert_eq!(r.terminal, vec![2, 2, 2, 2, 4]);
    assert_eq!(r.weight, vec![0, 0, 4, 0, 1]);
    assert_eq!(r.weight.iter().sum::<u64>(), 5);
}

#[test]
fn cycle_voters_keep_weight_one() {
    let ds = vec![
        deleg(0, 1, Topic::Energy, 100),
        deleg(1, 2, Topic::Energy, 100),
        deleg(2, 0, Topic::Energy, 100),
        deleg(3, 0, Topic::Energy, 100),
    ];
    let r = resolve(Topic::Energy, 0, 4, &ds).ok().unwrap();
    assert_eq!(r.terminal, vec![0, 1, 2, 3]);
    assert_eq!(r.weight, vec![1, 1, 1, 1]);
}

#[test]
fn self_delegation_is_neutral() {
    let ds = vec![deleg(0, 0, Topic::Work, 100)];
    let r = resolve(Topic::Work, 0, 2, &ds).ok().unwrap();
    assert_eq!(r.weight, vec![1, 1]);
}

#[test]
fn expired_and_other_topic_delegations_are_ignored() {
    let ds = vec![
        deleg(0, 1, Topic::Work, 10),
        deleg(0, 2, Topic::Defense, 100),
        deleg(2, 1, Topic::Work, 11),
    ];
    let r = resolve(Topic::Work, 10, 3, &ds).ok().unwrap();
    assert_eq!(r.weight, vec![1, 2, 0]);
}

#[test]
fn two_active_delegations_are_refused() {
    let ds = vec![deleg(0, 1, Topic::Work, 100), deleg(0, 2, Topic::Work, 100)];
    assert_eq!(resolve(Topic::Work, 0, 3, &ds).err(), Some(VoteError::DelegationInvariantViolation));
    // one of them expired: no conflict
    let ds = vec![deleg(0, 1, Topic::Work, 5), deleg(0, 2, Topic::Work, 100)];
    assert!(resolve(Topic::Work, 5, 3, &ds).is_ok());
}

#[test]
fn delegation_to_unknown_voter_is_refused() {
    let ds = vec![deleg(0, 7, Topic::Work, 100)];
    assert_eq!(resolve(Topic::Work, 0, 3, &ds).err(), Some(VoteError::UnknownOption));
}

#[test]
fn referendum_weights_three_to_two() {
    let bs = vec![referendum(0, ReferendumOption::Yes), referendum(1, ReferendumOption::No)];
    let r = tally_referendum(&bs, &vec![3, 2]);
    assert_eq!((r.yes, r.no), (3, 2));
    assert_eq!(r.decision, Decision::Winner(ReferendumOption::Yes));
    let r = tally_referendum(&bs, &vec![2, 2]);
    assert_eq!(r.decision, Decision::Tie);
}

#[test]
fn referendum_through_delegation() {
    // voters 1 and 2 delegate to 0 (Yes); voter 4 delegates to 3 (No)
    let ds = vec![
        deleg(1, 0, Topic::Judicial, 100),
        deleg(2, 0, Topic::Judicial, 100),
        deleg(4, 3, Topic::Judicial, 100),
    ];
    let q = question(
        PollType::Referendum,
        Topic::Judicial,
        2,
        vec![referendum(0, ReferendumOption::Yes), referendum(3, ReferendumOption::No)],
    );
    let r = compute_question_result(&q, 5, &ds, 0).ok().unwrap();
    match r.tally {
        Tally::Referendum(x) => {
            assert_eq!((x.yes, x.no), (3, 2));
            assert_eq!(x.decision, Decision::Winner(ReferendumOption::Yes));
        },
        _ => panic!("wrong tally"),
    }
}

#[test]
fn self_vote_overrides_delegation() {
    // 1 and 2 delegate to 0, but 1 votes itself
    let ds = vec![deleg(1, 0, Topic::Work, 100), deleg(2, 0, Topic::Work, 100)];
    let q = question(
        PollType::Referendum,
        Topic::Work,
        2,
        vec![referendum(0, ReferendumOption::Yes), referendum(1, ReferendumOption::No)],
    );
    let r = compute_question_result(&q, 3, &ds, 0).ok().unwrap();
    match r.tally {
        Tally::Referendum(x) => {
            assert_eq!((x.yes, x.no), (2, 1));
        },
        _ => panic!("wrong tally"),
    }
}

#[test]
fn silent_delegate_means_abstention() {
    let ds = vec![deleg(1, 0, Topic::Work, 100)];
    let q = question(PollType::Referendum, Topic::Work, 2, vec![referendum(2, ReferendumOption::No)]);
    let r = compute_question_result(&q, 3, &ds, 0).ok().unwrap();
    match r.tally {
        Tally::Referendum(x) => assert_eq!((x.yes, x.no), (0, 1)),
        _ => panic!("wrong tally"),
    }
}

#[test]
fn last_ballot_wins() {
    let q = question(
        PollType::Referendum,
        Topic::Work,
        2,
        vec![
            Ballot { voter: 0, timestamp: 5, payload: BallotPayload::Referendum(ReferendumOption::No) },
            Ballot { voter: 0, timestamp: 9, payload: BallotPayload::Referendum(ReferendumOption::Yes) },
            Ballot { voter: 0, timestamp: 7, payload: BallotPayload::Referendum(ReferendumOption::No) },
        ],
    );
    let r = compute_question_result(&q, 1, &vec![], 0).ok().unwrap();
    match r.tally {
        Tally::Referendum(x) => assert_eq!((x.yes, x.no), (1, 0)),
        _ => panic!("wrong tally"),
    }
}

#[test]
fn forced_ranking_must_cover_every_option() {
    let mut q = question(PollType::ForcedRankedChoice, Topic::Work, 3, vec![]);
    assert_eq!(submit_ballot(&mut q, ranked(0, vec![0, 1])), Err(VoteError::InvalidBallotShape));
    assert_eq!(submit_ballot(&mut q, ranked(0, vec![0, 1, 1])), Err(VoteError::InvalidBallotShape));
    assert_eq!(submit_ballot(&mut q, ranked(0, vec![0, 1, 3])), Err(VoteError::UnknownOption));
    assert_eq!(q.votes.len(), 0);
    assert_eq!(submit_ballot(&mut q, ranked(0, vec![2, 0, 1])), Ok(()));
    assert_eq!(q.votes.len(), 1);
    let bad = question(PollType::ForcedRankedChoice, Topic::Work, 3, vec![ranked(0, vec![1])]);
    assert_eq!(compute_question_result(&bad, 1, &vec![], 0).err(), Some(VoteError::InvalidBallotShape));
}

#[test]
fn forced_ranked_majority_in_round_two() {
    let mut bs = vec![];
    for v in 0..4 {
        bs.push(ranked(v, vec![0, 1, 2]));
    }
    for v in 4..7 {
        bs.push(ranked(v, vec![1, 2, 0]));
    }
    for v in 7..9 {
        bs.push(ranked(v, vec![2, 1, 0]));
    }
    let q = question(PollType::ForcedRankedChoice, Topic::Work, 3, bs);
    let r = compute_question_result(&q, 9, &vec![], 0).ok().unwrap();
    match r.tally {
        Tally::Ranked(x) => {
            assert_eq!(x.rounds.len(), 2);
            assert_eq!(x.rounds[0].totals, vec![4, 3, 2]);
            assert_eq!(x.rounds[0].live_weight, 9);
            assert_eq!(x.rounds[0].eliminated, vec![2]);
            assert_eq!(x.rounds[1].totals, vec![4, 5, 0]);
            assert!(x.rounds[1].eliminated.is_empty());
            assert!(matches!(x.outcome, RankedOutcome::Winner(1)));
        },
        _ => panic!("wrong tally"),
    }
}

#[test]
fn optional_ranked_exhaustion_shrinks_live_weight() {
    let bs = vec![
        ranked(0, vec![0]),
        ranked(1, vec![1]),
        ranked(2, vec![1]),
        ranked(3, vec![2, 1]),
        ranked(4, vec![2, 1]),
    ];
    let r = tally_ranked(&bs, &vec![1, 1, 1, 1, 1], 3);
    assert_eq!(r.rounds[0].live_weight, 5);
    assert_eq!(r.rounds[0].eliminated, vec![0]);
    assert_eq!(r.rounds[1].live_weight, 4);
    assert_eq!(r.rounds[1].totals, vec![0, 2, 2]);
    match r.outcome {
        RankedOutcome::Tie(v) => assert_eq!(v, vec![1, 2]),
        _ => panic!("expected a tie"),
    }
}

#[test]
fn empty_optional_ballot_never_participates() {
    let bs = vec![ranked(0, vec![]), ranked(1, vec![1, 0])];
    let r = tally_ranked(&bs, &vec![1, 1], 2);
    assert_eq!(r.rounds[0].live_weight, 1);
    assert!(matches!(r.outcome, RankedOutcome::Winner(1)));
}

#[test]
fn lowest_tie_broken_by_first_preference_history() {
    // round 1: A 3, B 2, C 2 (B has weight 2 from one ballot, C from two)
    let bs = vec![
        ranked(0, vec![0]),
        ranked(1, vec![1, 0]),
        ranked(2, vec![2]),
        ranked(3, vec![2]),
    ];
    let r = tally_ranked(&bs, &vec![3, 2, 1, 1], 3);
    assert_eq!(r.rounds[0].totals, vec![3, 2, 2]);
    assert_eq!(r.rounds[0].eliminated, vec![1]);
    assert!(matches!(r.outcome, RankedOutcome::Winner(0)));
}

#[test]
fn single_option_wins_without_rounds() {
    let r = tally_ranked(&vec![], &vec![], 1);
    assert!(r.rounds.is_empty());
    assert!(matches!(r.outcome, RankedOutcome::Winner(0)));
}

#[test]
fn quantified_scores_weighted() {
    let bs = vec![
        Ballot { voter: 0, timestamp: 0, payload: BallotPayload::Quantified(vec![5, 3]) },
        Ballot { voter: 1, timestamp: 0, payload: BallotPayload::Quantified(vec![1]) },
    ];
    let r = tally_quantified(&bs, &vec![2, 1], 2);
    assert_eq!(r.totals, vec![11, 6]);
    assert_eq!(r.ranks, vec![1, 2]);
    assert_eq!(r.order, vec![0, 1]);
}

#[test]
fn quantified_ties_share_rank() {
    let bs = vec![Ballot { voter: 0, timestamp: 0, payload: BallotPayload::Quantified(vec![4, 9, 4]) }];
    let r = tally_quantified(&bs, &vec![1], 3);
    assert_eq!(r.ranks, vec![2, 1, 2]);
    assert_eq!(r.order, vec![1, 0, 2]);
}

#[test]
fn quantified_unknown_option_is_refused() {
    let q = question(
        PollType::QuantifiedAnswers,
        Topic::Work,
        1,
        vec![Ballot { voter: 0, timestamp: 0, payload: BallotPayload::Quantified(vec![1, 2]) }],
    );
    assert_eq!(compute_question_result(&q, 1, &vec![], 0).err(), Some(VoteError::UnknownOption));
}

#[test]
fn ballot_of_unknown_voter_is_refused() {
    let q = question(PollType::Referendum, Topic::Work, 2, vec![referendum(4, ReferendumOption::Yes)]);
    assert_eq!(compute_question_result(&q, 2, &vec![], 0).err(), Some(VoteError::UnknownOption));
}

#[test]
fn payload_of_another_scheme_is_refused() {
    let q = question(PollType::Referendum, Topic::Work, 2, vec![ranked(0, vec![0])]);
    assert_eq!(compute_question_result(&q, 1, &vec![], 0).err(), Some(VoteError::InvalidBallotShape));
}

#[test]
fn open_poll_is_pending() {
    let q = question(PollType::Referendum, Topic::Work, 2, vec![ranked(9, vec![7, 7])]);
    let p = create_poll(1, 2, 0, 100, vec![q]);
    assert!(matches!(compute_poll_result(&p, 99, 1, &vec![]), Ok(PollOutcome::Pending)));
    assert_eq!(compute_poll_result(&p, 100, 1, &vec![]).err(), Some(VoteError::InvalidBallotShape));
}

#[test]
fn closed_poll_keeps_question_order() {
    let q1 = question(PollType::Referendum, Topic::Work, 2, vec![referendum(0, ReferendumOption::No)]);
    let mut q2 = question(PollType::Referendum, Topic::Work, 2, vec![referendum(0, ReferendumOption::Yes)]);
    q2.question_id = 3;
    let p = create_poll(7, 8, 0, 100, vec![q1, q2]);
    match compute_poll_result(&p, 100, 1, &vec![]) {
        Ok(PollOutcome::Closed(pr)) => {
            assert_eq!((pr.creator_user_id, pr.poll_id), (7, 8));
            assert_eq!(pr.results.len(), 2);
            assert_eq!(pr.results[0].question_id, 2);
            assert_eq!(pr.results[1].question_id, 3);
        },
        _ => panic!("expected a closed result"),
    }
}

#[test]
fn recomputing_gives_identical_result() {
    let bs = vec![ranked(0, vec![0, 1]), ranked(1, vec![1, 0]), ranked(2, vec![1])];
    let q = question(PollType::OptionalRankedChoice, Topic::Work, 2, bs);
    let a = compute_question_result(&q, 3, &vec![], 0).ok().unwrap();
    let b = compute_question_result(&q, 3, &vec![], 0).ok().unwrap();
    match (a.tally, b.tally) {
        (Tally::Ranked(x), Tally::Ranked(y)) => {
            assert_eq!(x.rounds.len(), y.rounds.len());
            for (r, s) in x.rounds.iter().zip(y.rounds.iter()) {
                assert_eq!(r.totals, s.totals);
                assert_eq!(r.live_weight, s.live_weight);
                assert_eq!(r.eliminated, s.eliminated);
            }
            assert!(matches!((x.outcome, y.outcome), (RankedOutcome::Winner(1), RankedOutcome::Winner(1))));
        },
        _ => panic!("wrong tally"),
    }
}

#[test]
fn new_users_get_version_four_ids() {
    let a = create_user("Ada".to_string(), "L".to_string(), "a@x".to_string(), 2_400_000, VoterStatus::Public);
    let b = create_user("Bo".to_string(), "M".to_string(), "b@x".to_string(), 2_400_001, VoterStatus::Private);
    assert_eq!((a.voter_id >> 76) & 0xf, 4);
    assert_ne!(a.voter_id, b.voter_id);
    assert_eq!(a.first_name, "Ada");
    assert_eq!(b.check_user_status(), VoterStatus::Private);
    let mut b = b;
    b.set_user_status(VoterStatus::Public);
    assert_eq!(b.check_user_status(), VoterStatus::Public);
}

#[test]
fn delegation_records_are_added_and_removed() {
    let v = |n: &str| create_user(n.to_string(), String::new(), String::new(), 0, VoterStatus::Public);
    let mut c = Community { voters: vec![v("a"), v("b"), v("c")], delegations: vec![] };
    assert_eq!(c.add_delegation(0, 5, &vec![Topic::Work], 10), Err(VoteError::UnknownOption));
    assert_eq!(c.add_delegation(0, 1, &vec![Topic::Work, Topic::Energy], 10), Ok(()));
    assert_eq!(c.add_delegation(2, 1, &vec![Topic::Work], 10), Ok(()));
    assert_eq!(c.delegations.len(), 3);
    assert_eq!(c.delegations_given(0), vec![0, 1]);
    assert_eq!(c.delegations_received(1), vec![0, 1, 2]);
    c.remove_delegation(0, 1, &vec![Topic::Work]);
    assert_eq!(c.delegations.len(), 2);
    assert_eq!(c.delegations[0].topic, Topic::Energy);
    assert_eq!(c.delegations_given(2), vec![1]);
}

#[test]
fn participation_counts_all_ballots() {
    let q1 = question(PollType::Referendum, Topic::Work, 2, vec![referendum(0, ReferendumOption::No)]);
    let q2 = question(
        PollType::Referendum,
        Topic::Work,
        2,
        vec![referendum(0, ReferendumOption::Yes), referendum(1, ReferendumOption::Yes)],
    );
    let p = create_poll(1, 1, 0, 10, vec![q1, q2]);
    assert_eq!(get_poll_participation(&p), 3);
}

#[test]
fn vote_history_appends() {
    let mut h: Vec<VoteHistory> = vec![];
    add_to_vote_history(&mut h, "yes".to_string(), 3);
    add_to_vote_history(&mut h, "no".to_string(), 1);
    assert_eq!(h.len(), 2);
    assert_eq!(h[1].vote, "no");
    assert_eq!(h[1].score, 1);
}

#[test]
fn ranked_question_without_options_ties_on_nothing() {
    let r = tally_ranked(&vec![ranked(0, vec![])], &vec![1], 0);
    assert!(r.rounds.is_empty());
    match r.outcome {
        RankedOutcome::Tie(v) => assert!(v.is_empty()),
        _ => panic!("expected a tie"),
    }
}

#[test]
fn quantified_listing_puts_higher_totals_first() {
    let bs = vec![Ballot { voter: 0, timestamp: 0, payload: BallotPayload::Quantified(vec![1, 7, 3, 7]) }];
    let r = tally_quantified(&bs, &vec![3], 5);
    assert_eq!(r.totals, vec![3, 21, 9, 21, 0]);
    assert_eq!(r.order, vec![1, 3, 2, 0, 4]);
    assert_eq!(r.ranks, vec![4, 1, 3, 1, 5]);
}

#[test]
fn only_public_delegates_are_disclosed() {
    let v = |s: VoterStatus| create_user(String::new(), String::new(), String::new(), 0, s);
    let c = Community {
        voters: vec![v(VoterStatus::Public), v(VoterStatus::Private), v(VoterStatus::Public)],
        delegations: vec![],
    };
    // 1 -> 0 (public), 2 -> 1 -> 0, and 0 votes for itself
    let res = resolve_graph(&vec![None, Some(0), Some(1)]);
    assert_eq!(res.terminal, vec![0, 0, 0]);
    assert_eq!(c.disclosed_delegate(&res, 2), Some(c.voters[0].voter_id));
    let res = resolve_graph(&vec![Some(1), None, None]);
    assert_eq!(c.disclosed_delegate(&res, 0), None);
    assert_eq!(c.disclosed_delegate(&res, 7), None);
}
