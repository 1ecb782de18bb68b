use vstd::prelude::*;

use crate::delegation::{
    active_graph, build_graph, count_terminal_at, cut_edges, graph_wf, lemma_build_graph_wf,
    lemma_terminal_is_root, lemma_without_edges_wf, resolve_graph, terminal, walk, weight,
    without_edges_of,
};
use crate::model::{
    ballot_error, check_ballots, first_ballot_error, lemma_no_error_each, ranking_of, Ballot,
    BallotPayload, Delegation, PollType, ReferendumOption, Topic, VoteError, VoteOption,
};
use crate::ranked::{instant_runoff, tally_ranked, RankedOutcome, RankedResult};
use crate::tally::{
    decide, lemma_listing_unique, lists_by_total, quantified_total, rank_of, referendum_total, tally_quantified, tally_referendum,
    QuantifiedResult, ReferendumResult,
};

verus! {

/// Ballot `j` supersedes ballot `i`: the same voter cast it later, or at the
/// same time but further down the list.
pub open spec fn supersedes(bs: Seq<Ballot>, j: int, i: int) -> bool {
    &&& bs[j].voter == bs[i].voter
    &&& (bs[j].timestamp > bs[i].timestamp || (bs[j].timestamp == bs[i].timestamp && j > i))
}

/// Ballot `i` is its voter's last word on the question.
pub open spec fn is_current(bs: Seq<Ballot>, i: int) -> bool {
    forall|j: int| 0 <= j < bs.len() ==> !#[trigger] supersedes(bs, j, i)
}

/// Voter `v` cast a ballot.
pub open spec fn has_ballot(bs: Seq<Ballot>, v: int) -> bool {
    exists|i: int| 0 <= i < bs.len() && #[trigger] bs[i].voter == v
}

/// Which of the voters `0..n` cast a ballot.
pub open spec fn direct_voters(bs: Seq<Ballot>, n: nat) -> Seq<bool> {
    Seq::new(n, |v: int| has_ballot(bs, v))
}

/// Every ballot names a voter below `n`.
pub open spec fn voters_known(bs: Seq<Ballot>, n: nat) -> bool {
    forall|i: int| 0 <= i < bs.len() ==> (#[trigger] bs[i]).voter < n
}

/// The weight each ballot counts with, given the delegation graph `g` of the
/// question's topic: a current ballot counts with its voter's weight in the
/// graph where voters who voted themselves no longer delegate; a superseded
/// ballot counts with zero.
pub open spec fn ballot_weights(bs: Seq<Ballot>, g: Seq<Option<usize>>) -> Seq<u64> {
    let cut = without_edges_of(g, direct_voters(bs, g.len()));
    Seq::new(
        bs.len(),
        |i: int|
            if is_current(bs, i) {
                weight(cut, bs[i].voter as int) as u64
            } else {
                0u64
            },
    )
}

/// For each voter, the index of its current ballot.
fn latest_ballots(bs: &Vec<Ballot>, n: usize) -> (best: Vec<Option<usize>>)
    requires
        voters_known(bs@, n as nat),
    ensures
        best@.len() == n,
        forall|v: int|
            0 <= v < n ==> match #[trigger] best@[v] {
                Some(i) => 0 <= i < bs@.len() && bs@[i as int].voter == v && is_current(bs@, i as int),
                None => !has_ballot(bs@, v),
            },
        forall|i: int| 0 <= i < bs@.len() ==> (is_current(bs@, i) <==> best@[bs@[i].voter as int] == Some(i as usize)),
{
    let mut best: Vec<Option<usize>> = Vec::new();
    let mut v: usize = 0;
    while v < n
        invariant
            v <= n,
            best@.len() == v,
            forall|u: int| 0 <= u < v ==> #[trigger] best@[u] is None,
        decreases n - v,
    {
        best.push(None);
        v = v + 1;
    }
    let mut m: usize = 0;
    while m < bs.len()
        invariant
            m <= bs@.len(),
            voters_known(bs@, n as nat),
            best@.len() == n,
            forall|u: int|
                0 <= u < n ==> match #[trigger] best@[u] {
                    Some(i) => 0 <= i < m && bs@[i as int].voter == u && forall|j: int|
                        0 <= j < m ==> !#[trigger] supersedes(bs@, j, i as int),
                    None => forall|j: int| 0 <= j < m ==> (#[trigger] bs@[j]).voter != u,
                },
        decreases bs@.len() - m,
    {
        let u = bs[m].voter;
        let ghost prev = best@;
        match best[u] {
            None => {
                best.set(u, Some(m));
            },
            Some(i) => {
                if bs[m].timestamp >= bs[i].timestamp {
                    best.set(u, Some(m));
                }
            },
        }
        proof {
            assert forall|w: int| 0 <= w < n implies match #[trigger] best@[w] {
                Some(i) => 0 <= i < m + 1 && bs@[i as int].voter == w && forall|j: int|
                    0 <= j < m + 1 ==> !#[trigger] supersedes(bs@, j, i as int),
                None => forall|j: int| 0 <= j < m + 1 ==> (#[trigger] bs@[j]).voter != w,
            } by {
                match prev[w] {
                    Some(i) => {
                        assert forall|j: int| 0 <= j < m implies !#[trigger] supersedes(bs@, j, i as int) by {}
                        match best@[w] {
                            Some(b) => {
                                if b as int == m as int {
                                    assert forall|j: int| 0 <= j < m + 1 implies !#[trigger] supersedes(bs@, j, b as int) by {
                                        if j < m && bs@[j].voter == bs@[b as int].voter {
                                            assert(!supersedes(bs@, j, i as int));
                                        }
                                    }
                                }
                            },
                            None => {},
                        }
                    },
                    None => {},
                }
            }
        }
        m = m + 1;
    }
    assert forall|v: int| 0 <= v < n implies match #[trigger] best@[v] {
        Some(i) => 0 <= i < bs@.len() && bs@[i as int].voter == v && is_current(bs@, i as int),
        None => !has_ballot(bs@, v),
    } by {
        if best@[v] is None {
            if has_ballot(bs@, v) {
                let j = choose|j: int| 0 <= j < bs@.len() && #[trigger] bs@[j].voter == v;
                assert(bs@[j].voter != v);
            }
        }
    }
    assert forall|i: int| 0 <= i < bs@.len() implies (is_current(bs@, i) <==> best@[bs@[i].voter as int] == Some(i as usize)) by {
        let u = bs@[i].voter as int;
        match best@[u] {
            Some(b) => {
                if b as int != i {
                    assert(!supersedes(bs@, i, b as int));
                    assert(supersedes(bs@, b as int, i));
                }
            },
            None => {
                assert(bs@[i].voter != u);
            },
        }
    }
    best
}

/// The weight of every ballot on a question about the graph `g`; see
/// `ballot_weights`.
pub fn aggregate(bs: &Vec<Ballot>, g: &Vec<Option<usize>>) -> (r: Result<Vec<u64>, VoteError>)
    requires
        graph_wf(g@),
    ensures
        match r {
            Ok(ws) => voters_known(bs@, g@.len()) && ws@ == ballot_weights(bs@, g@),
            Err(e) => !voters_known(bs@, g@.len()) && e == VoteError::UnknownOption,
        },
{
    let n = g.len();
    let mut i: usize = 0;
    while i < bs.len()
        invariant
            i <= bs@.len(),
            n == g@.len(),
            forall|j: int| 0 <= j < i ==> (#[trigger] bs@[j]).voter < n,
        decreases bs@.len() - i,
    {
        if bs[i].voter >= n {
            return Err(VoteError::UnknownOption);
        }
        i = i + 1;
    }
    let best = latest_ballots(bs, n);
    let mut direct: Vec<bool> = Vec::new();
    let mut v: usize = 0;
    while v < n
        invariant
            v <= n == best@.len(),
            direct@.len() == v,
            forall|u: int|
                0 <= u < n ==> match #[trigger] best@[u] {
                    Some(i) => 0 <= i < bs@.len() && bs@[i as int].voter == u,
                    None => !has_ballot(bs@, u),
                },
            forall|u: int| 0 <= u < v ==> #[trigger] direct@[u] == has_ballot(bs@, u),
        decreases n - v,
    {
        direct.push(best[v].is_some());
        v = v + 1;
    }
    assert(direct@ =~= direct_voters(bs@, n as nat));
    let mut cut = g.clone();
    assert(cut@ =~= g@);
    cut_edges(&mut cut, &direct);
    proof {
        lemma_without_edges_wf(g@, direct@);
    }
    let res = resolve_graph(&cut);
    let mut ws: Vec<u64> = Vec::new();
    let mut i: usize = 0;
    while i < bs.len()
        invariant
            i <= bs@.len(),
            n == g@.len() == best@.len(),
            voters_known(bs@, n as nat),
            res.resolves(cut@),
            cut@ == without_edges_of(g@, direct_voters(bs@, n as nat)),
            forall|j: int| 0 <= j < bs@.len() ==> (is_current(bs@, j) <==> best@[bs@[j].voter as int] == Some(j as usize)),
            ws@.len() == i,
            forall|j: int| 0 <= j < i ==> #[trigger] ws@[j] == ballot_weights(bs@, g@)[j],
        decreases bs@.len() - i,
    {
        let u = bs[i].voter;
        if best[u] == Some(i) {
            ws.push(res.weight[u]);
        } else {
            ws.push(0);
        }
        i = i + 1;
    }
    assert(ws@ =~= ballot_weights(bs@, g@));
    Ok(ws)
}

pub proof fn lemma_count_includes(g: Seq<Option<usize>>, u: int, m: nat)
    requires
        0 <= u < m,
    ensures
        count_terminal_at(g, terminal(g, u), m) >= 1,
    decreases m,
{
    if u < m - 1 {
        lemma_count_includes(g, u, (m - 1) as nat);
    }
}

/// Self-vote precedence: a voter who casts a ballot is its own terminal
/// delegate, so whatever delegation it holds it adds nothing to any other
/// voter's weight and its ballot counts with a weight of at least one.
pub proof fn lemma_self_vote_precedence(bs: Seq<Ballot>, g: Seq<Option<usize>>, u: int)
    requires
        graph_wf(g),
        0 <= u < g.len(),
        has_ballot(bs, u),
    ensures
        ({
            let cut = without_edges_of(g, direct_voters(bs, g.len()));
            &&& terminal(cut, u) == u
            &&& weight(cut, u) >= 1
        }),
{
    let cut = without_edges_of(g, direct_voters(bs, g.len()));
    assert(walk(cut, u, 0) == u);
    assert(cut[u] is None);
    lemma_terminal_is_root(cut, u, 0);
    lemma_count_includes(cut, u, g.len());
}

/// A question of a poll, with the ballots collected on it.
#[derive(Debug)]
pub struct PollQuestion {
    pub poll_id: u128,
    pub question_id: u128,
    pub question_type: PollType,
    pub question_topic: Topic,
    pub question_description: String,
    pub vote_options: Vec<VoteOption>,
    pub votes: Vec<Ballot>,
}

/// The tally of one question, by scheme.
#[derive(Debug)]
pub enum Tally {
    Referendum(ReferendumResult),
    Ranked(RankedResult),
    Quantified(QuantifiedResult),
}

/// The result of one question.
#[derive(Debug)]
pub struct QuestionResult {
    pub poll_id: u128,
    pub question_id: u128,
    pub tally: Tally,
}

/// `r` is the tally of scheme `t` of the ballots `bs`, weighted by `ws`,
/// over `k` options.
pub open spec fn tallies(t: PollType, bs: Seq<Ballot>, ws: Seq<u64>, k: nat, r: Tally) -> bool {
    match t {
        PollType::Referendum => match r {
            Tally::Referendum(x) => {
                &&& x.yes == referendum_total(bs, ws, ReferendumOption::Yes, bs.len())
                &&& x.no == referendum_total(bs, ws, ReferendumOption::No, bs.len())
                &&& x.decision == decide(x.yes as int, x.no as int)
            },
            _ => false,
        },
        PollType::QuantifiedAnswers => match r {
            Tally::Quantified(x) => {
                &&& x.totals@.len() == k
                &&& x.ranks@.len() == k
                &&& forall|o: int| 0 <= o < k ==> #[trigger] x.totals@[o] == quantified_total(bs, ws, o, bs.len())
                &&& forall|o: int| 0 <= o < k ==> #[trigger] x.ranks@[o] == rank_of(x.totals@, o)
                &&& lists_by_total(x.totals@, x.order@)
            },
            _ => false,
        },
        _ => match r {
            Tally::Ranked(x) => x.records(instant_runoff(bs, ws, k)),
            _ => false,
        },
    }
}

/// Why question `q` has no result, with `n` voters and the delegations `ds`
/// at `time`: the first bad ballot, then a bad delegation, then a ballot of
/// an unknown voter.
pub open spec fn question_error(q: PollQuestion, n: nat, ds: Seq<Delegation>, time: i64) -> Option<VoteError> {
    match first_ballot_error(q.votes@, q.question_type, q.vote_options@.len(), q.votes@.len()) {
        Some(e) => Some(e),
        None => match build_graph(ds, q.question_topic, time, n) {
            Err(e) => Some(e),
            Ok(g) => if voters_known(q.votes@, n) {
                None
            } else {
                Some(VoteError::UnknownOption)
            },
        },
    }
}

/// `r` is the result of question `q` when it has one.
pub open spec fn question_result(q: PollQuestion, n: nat, ds: Seq<Delegation>, time: i64, r: QuestionResult) -> bool {
    &&& r.poll_id == q.poll_id
    &&& r.question_id == q.question_id
    &&& build_graph(ds, q.question_topic, time, n) is Ok
    &&& tallies(
        q.question_type,
        q.votes@,
        ballot_weights(q.votes@, build_graph(ds, q.question_topic, time, n)->Ok_0),
        q.vote_options@.len(),
        r.tally,
    )
}

/// Computes the result of question `q` over the voters `0..n_voters`, with
/// the delegations `ds` as they stand at `time`.
pub fn compute_question_result(
    q: &PollQuestion,
    n_voters: usize,
    ds: &Vec<Delegation>,
    time: i64,
) -> (r: Result<QuestionResult, VoteError>)
    requires
        q.votes@.len() <= u32::MAX,
        q.vote_options@.len() < usize::MAX,
    ensures
        match question_error(*q, n_voters as nat, ds@, time) {
            Some(e) => r is Err && r->Err_0 == e,
            None => r is Ok && question_result(*q, n_voters as nat, ds@, time, r->Ok_0),
        },
{
    let k = q.vote_options.len();
    let bs = &q.votes;
    match check_ballots(bs, q.question_type, k) {
        Some(e) => {
            return Err(e);
        },
        None => {},
    }
    proof {
        lemma_build_graph_wf(ds@, q.question_topic, time, n_voters as nat);
    }
    let g = match active_graph(q.question_topic, time, n_voters, ds) {
        Ok(g) => g,
        Err(e) => {
            return Err(e);
        },
    };
    let ws = match aggregate(bs, &g) {
        Ok(ws) => ws,
        Err(e) => {
            return Err(e);
        },
    };
    proof {
        assert forall|i: int| 0 <= i < bs@.len() implies ballot_error(#[trigger] bs@[i], q.question_type, k as nat) is None by {
            lemma_no_error_each(bs@, q.question_type, k as nat, bs@.len(), i);
        }
    }
    let tally = match q.question_type {
        PollType::Referendum => Tally::Referendum(tally_referendum(bs, &ws)),
        PollType::QuantifiedAnswers => {
            proof {
                assert forall|i: int| 0 <= i < bs@.len() implies match (#[trigger] bs@[i]).payload {
                    BallotPayload::Quantified(s) => s@.len() <= k,
                    _ => true,
                } by {
                    assert(ballot_error(bs@[i], q.question_type, k as nat) is None);
                }
            }
            Tally::Quantified(tally_quantified(bs, &ws, k))
        },
        _ => {
            proof {
                assert forall|i: int, j: int|
                    0 <= i < bs@.len() && 0 <= j < ranking_of(bs@[i]).len() implies #[trigger] ranking_of(bs@[i])[j] < k by {
                    assert(ballot_error(bs@[i], q.question_type, k as nat) is None);
                }
            }
            Tally::Ranked(tally_ranked(bs, &ws, k))
        },
    };
    Ok(QuestionResult { poll_id: q.poll_id, question_id: q.question_id, tally })
}

/// A poll: its questions are open for ballots until `poll_closing_time`.
#[derive(Debug)]
pub struct Poll {
    pub creator_user_id: u128,
    pub poll_id: u128,
    pub poll_opening_time: i64,
    pub poll_closing_time: i64,
    pub questions: Vec<PollQuestion>,
}

/// The results of a closed poll, one per question in the poll's order.
#[derive(Debug)]
pub struct PollResult {
    pub creator_user_id: u128,
    pub poll_id: u128,
    pub results: Vec<QuestionResult>,
}

/// A poll's result, or `Pending` while it is open.
#[derive(Debug)]
pub enum PollOutcome {
    Pending,
    Closed(PollResult),
}

/// The error of the first question among the first `m` that has one.
pub open spec fn first_question_error(
    qs: Seq<PollQuestion>,
    n: nat,
    ds: Seq<Delegation>,
    time: i64,
    m: nat,
) -> Option<VoteError>
    decreases m,
{
    if m == 0 {
        None
    } else {
        match first_question_error(qs, n, ds, time, (m - 1) as nat) {
            Some(e) => Some(e),
            None => question_error(qs[m - 1], n, ds, time),
        }
    }
}

proof fn lemma_question_error_stays(
    qs: Seq<PollQuestion>,
    n: nat,
    ds: Seq<Delegation>,
    time: i64,
    m: nat,
)
    requires
        m <= qs.len(),
        first_question_error(qs, n, ds, time, m) is Some,
    ensures
        first_question_error(qs, n, ds, time, qs.len()) == first_question_error(qs, n, ds, time, m),
    decreases qs.len() - m,
{
    if m < qs.len() {
        lemma_question_error_stays(qs, n, ds, time, m + 1);
    }
}

/// Every question of the poll fits the machine limits of a tally.
pub open spec fn poll_within_limits(p: Poll) -> bool {
    forall|i: int|
        0 <= i < p.questions@.len() ==> (#[trigger] p.questions@[i]).votes@.len() <= u32::MAX
            && p.questions@[i].vote_options@.len() < usize::MAX
}

/// The result of poll `p` at `time`, over the voters `0..n_voters` and the
/// delegations `ds`.  While `time` is before the poll's closing time the
/// result is `Pending`, whatever the ballots say; after, each question is
/// tallied, in order, unless one of them is inconsistent.
pub fn compute_poll_result(p: &Poll, time: i64, n_voters: usize, ds: &Vec<Delegation>) -> (r: Result<PollOutcome, VoteError>)
    requires
        poll_within_limits(*p),
    ensures
        time < p.poll_closing_time ==> (r matches Ok(PollOutcome::Pending)),
        time >= p.poll_closing_time ==> match first_question_error(p.questions@, n_voters as nat, ds@, time, p.questions@.len()) {
            Some(e) => r is Err && r->Err_0 == e,
            None => match r {
                Ok(PollOutcome::Closed(pr)) => {
                    &&& pr.creator_user_id == p.creator_user_id
                    &&& pr.poll_id == p.poll_id
                    &&& pr.results@.len() == p.questions@.len()
                    &&& forall|i: int| 0 <= i < p.questions@.len() ==> question_result(
                        #[trigger] p.questions@[i],
                        n_voters as nat,
                        ds@,
                        time,
                        pr.results@[i],
                    )
                },
                _ => false,
            },
        },
{
    if time < p.poll_closing_time {
        return Ok(PollOutcome::Pending);
    }
    let mut results: Vec<QuestionResult> = Vec::new();
    let mut i: usize = 0;
    while i < p.questions.len()
        invariant
            i <= p.questions@.len(),
            time >= p.poll_closing_time,
            poll_within_limits(*p),
            first_question_error(p.questions@, n_voters as nat, ds@, time, i as nat) is None,
            results@.len() == i,
            forall|j: int| 0 <= j < i ==> question_result(
                #[trigger] p.questions@[j],
                n_voters as nat,
                ds@,
                time,
                results@[j],
            ),
        decreases p.questions@.len() - i,
    {
        let q = &p.questions[i];
        match compute_question_result(q, n_voters, ds, time) {
            Ok(res) => {
                results.push(res);
            },
            Err(e) => {
                proof {
                    lemma_question_error_stays(p.questions@, n_voters as nat, ds@, time, i as nat + 1);
                }
                return Err(e);
            },
        }
        i = i + 1;
    }
    Ok(PollOutcome::Closed(PollResult { creator_user_id: p.creator_user_id, poll_id: p.poll_id, results }))
}

/// Two tallies say exactly the same thing.
pub open spec fn same_tally(a: Tally, b: Tally) -> bool {
    match (a, b) {
        (Tally::Referendum(x), Tally::Referendum(y)) => x == y,
        (Tally::Quantified(x), Tally::Quantified(y)) => {
            &&& x.totals@ == y.totals@
            &&& x.ranks@ == y.ranks@
            &&& x.order@ == y.order@
        },
        (Tally::Ranked(x), Tally::Ranked(y)) => {
            &&& x.rounds@.len() == y.rounds@.len()
            &&& forall|i: int| 0 <= i < x.rounds@.len() ==> (#[trigger] x.rounds@[i]).view() == y.rounds@[i].view()
            &&& match (x.outcome, y.outcome) {
                (RankedOutcome::Winner(o), RankedOutcome::Winner(p)) => o == p,
                (RankedOutcome::Tie(v), RankedOutcome::Tie(w)) => v@ == w@,
                _ => false,
            }
        },
        _ => false,
    }
}

/// Idempotence: a question's result is a function of the snapshot alone, so
/// computing it twice from the same question, voters, delegations and time
/// gives the same result.
pub proof fn lemma_result_deterministic(
    q: PollQuestion,
    n: nat,
    ds: Seq<Delegation>,
    time: i64,
    r1: QuestionResult,
    r2: QuestionResult,
)
    requires
        question_result(q, n, ds, time, r1),
        question_result(q, n, ds, time, r2),
    ensures
        r1.poll_id == r2.poll_id,
        r1.question_id == r2.question_id,
        same_tally(r1.tally, r2.tally),
{
    match (r1.tally, r2.tally) {
        (Tally::Quantified(x), Tally::Quantified(y)) => {
            assert(x.totals@ =~= y.totals@);
            assert(x.ranks@ =~= y.ranks@);
            lemma_listing_unique(x.totals@, x.order@, y.order@);
        },
        _ => {},
    }
}

/// Records a ballot on a question, unless its shape does not fit the
/// question: a forced ranked ballot that misses an option, a repeated or
/// unknown option, or a payload of another scheme is refused.
pub fn submit_ballot(q: &mut PollQuestion, b: Ballot) -> (r: Result<(), VoteError>)
    ensures
        match ballot_error(b, old(q).question_type, old(q).vote_options@.len()) {
            Some(e) => r == Err::<(), VoteError>(e) && *final(q) == *old(q),
            None => {
                &&& r is Ok
                &&& final(q).votes@ == old(q).votes@.push(b)
                &&& final(q).question_id == old(q).question_id
                &&& final(q).poll_id == old(q).poll_id
                &&& final(q).question_type == old(q).question_type
                &&& final(q).question_topic == old(q).question_topic
                &&& final(q).vote_options@ == old(q).vote_options@
            },
        },
{
    match crate::model::check_ballot(&b, q.question_type, q.vote_options.len()) {
        Some(e) => Err(e),
        None => {
            q.votes.push(b);
            Ok(())
        },
    }
}

/// The number of ballots recorded on the first `m` questions.
pub open spec fn ballots_recorded(qs: Seq<PollQuestion>, m: nat) -> int
    decreases m,
{
    if m == 0 {
        0
    } else {
        ballots_recorded(qs, (m - 1) as nat) + qs[m - 1].votes@.len()
    }
}

/// The number of ballots recorded on all questions of a poll.
pub fn get_poll_participation(p: &Poll) -> (n: u128)
    ensures
        n == ballots_recorded(p.questions@, p.questions@.len()),
{
    let mut n: u128 = 0;
    let mut i: usize = 0;
    while i < p.questions.len()
        invariant
            i <= p.questions@.len(),
            n == ballots_recorded(p.questions@, i as nat),
            n <= i * 0xffff_ffff_ffff_ffffu128,
        decreases p.questions@.len() - i,
    {
        n = n + p.questions[i].votes.len() as u128;
        i = i + 1;
    }
    n
}

/// A new question with no ballots yet.
pub fn create_question(
    poll_id: u128,
    question_id: u128,
    question_type: PollType,
    question_topic: Topic,
    question_description: String,
    vote_options: Vec<VoteOption>,
) -> (q: PollQuestion)
    ensures
        q.poll_id == poll_id,
        q.question_id == question_id,
        q.question_type == question_type,
        q.question_topic == question_topic,
        q.question_description == question_description,
        q.vote_options == vote_options,
        q.votes@.len() == 0,
{
    PollQuestion {
        poll_id,
        question_id,
        question_type,
        question_topic,
        question_description,
        vote_options,
        votes: Vec::new(),
    }
}

/// A new poll over the given questions.
pub fn create_poll(
    creator_user_id: u128,
    poll_id: u128,
    poll_opening_time: i64,
    poll_closing_time: i64,
    questions: Vec<PollQuestion>,
) -> (p: Poll)
    ensures
        p.creator_user_id == creator_user_id,
        p.poll_id == poll_id,
        p.poll_opening_time == poll_opening_time,
        p.poll_closing_time == poll_closing_time,
        p.questions == questions,
{
    Poll { creator_user_id, poll_id, poll_opening_time, poll_closing_time, questions }
}

} // verus!
