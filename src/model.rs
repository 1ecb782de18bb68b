use vstd::prelude::*;

verus! {

/// The subject area a delegation or a question is scoped to.
#[derive(Clone, Copy, Debug, PartialEq, Eq, Structural)]
pub enum Topic {
    Geopolitics,
    Defense,
    Work,
    Industry,
    Family,
    Finances,
    Education,
    Research,
    Judicial,
    LawEnforcement,
    Environment,
    Energy,
    Medical,
    Culture,
    Technology,
    Sports,
}

/// The voting scheme of a question.
#[derive(Clone, Copy, Debug, PartialEq, Eq, Structural)]
pub enum PollType {
    Referendum,
    OptionalRankedChoice,
    ForcedRankedChoice,
    QuantifiedAnswers,
}

/// A choice on a referendum question.
#[derive(Clone, Copy, Debug, PartialEq, Eq, Structural)]
pub enum ReferendumOption {
    Yes,
    No,
}

/// Whether a delegate's identity may be disclosed in audit output.
/// It never affects the weight of a ballot.
#[derive(Clone, Copy, Debug, PartialEq, Eq, Structural)]
pub enum VoterStatus {
    Public,
    Private,
}

/// Errors that the engine reports instead of guessing a result.
#[derive(Clone, Copy, Debug, PartialEq, Eq, Structural)]
pub enum VoteError {
    /// A ranked ballot with a duplicate, or a forced ranked ballot that
    /// does not rank every option, or a ballot whose payload does not fit
    /// the question's scheme.
    InvalidBallotShape,
    /// A ballot or a delegation refers to an option or a voter that is
    /// not defined.
    UnknownOption,
    /// Two delegations of one principal on one topic are active at once.
    DelegationInvariantViolation,
}

/// One delegation of voting power on a topic, from a principal to a
/// delegate, until (excluding) `end_date`.  Voters are named by their
/// index in the voter arena.
#[derive(Clone, Copy, Debug, PartialEq, Eq, Structural)]
pub struct Delegation {
    pub from_principal: usize,
    pub to_delegate: usize,
    pub topic: Topic,
    pub end_date: i64,
}

impl Delegation {
    /// A delegation counts at `time` exactly when `time` is before its end.
    pub open spec fn active_at(self, topic: Topic, time: i64) -> bool {
        self.topic == topic && time < self.end_date
    }

    pub fn is_active(&self, topic: Topic, time: i64) -> (r: bool)
        ensures
            r == self.active_at(topic, time),
    {
        self.topic == topic && time < self.end_date
    }
}

/// What a ballot says, one variant per scheme.
#[derive(Clone, Debug)]
pub enum BallotPayload {
    /// A referendum answer.
    Referendum(ReferendumOption),
    /// Option indices, most preferred first.
    Ranked(Vec<usize>),
    /// A score for each option index; options past the end score zero.
    Quantified(Vec<u32>),
}

/// One voter's ballot on one question.
#[derive(Clone, Debug)]
pub struct Ballot {
    pub voter: usize,
    pub timestamp: i64,
    pub payload: BallotPayload,
}

/// One option of a question.
#[derive(Clone, Debug)]
pub struct VoteOption {
    pub vote: String,
    pub vote_description: String,
}

/// The ranking of a ranked ballot, or nothing for another payload.
pub open spec fn ranking_of(b: Ballot) -> Seq<usize> {
    match b.payload {
        BallotPayload::Ranked(r) => r@,
        _ => Seq::empty(),
    }
}

/// The score that a quantified ballot gives option `o`.
pub open spec fn score_of(b: Ballot, o: int) -> int {
    match b.payload {
        BallotPayload::Quantified(s) => if 0 <= o < s@.len() {
            s@[o] as int
        } else {
            0
        },
        _ => 0,
    }
}

/// What is wrong with a ballot on a question of scheme `t` with `k`
/// options, if anything.
pub open spec fn ballot_error(b: Ballot, t: PollType, k: nat) -> Option<VoteError> {
    match b.payload {
        BallotPayload::Referendum(_) => if t == PollType::Referendum {
            None
        } else {
            Some(VoteError::InvalidBallotShape)
        },
        BallotPayload::Ranked(r) => if t != PollType::OptionalRankedChoice && t
            != PollType::ForcedRankedChoice {
            Some(VoteError::InvalidBallotShape)
        } else {
            ranking_error(r@, t, k)
        },
        BallotPayload::Quantified(s) => if t != PollType::QuantifiedAnswers {
            Some(VoteError::InvalidBallotShape)
        } else if s@.len() > k {
            Some(VoteError::UnknownOption)
        } else {
            None
        },
    }
}

/// What is wrong with a ranking on a ranked question with `k` options:
/// an unknown option, a repeated one, or, for a forced ranking, a missing one.
pub open spec fn ranking_error(r: Seq<usize>, t: PollType, k: nat) -> Option<VoteError> {
    if exists|i: int| 0 <= i < r.len() && #[trigger] r[i] >= k {
        Some(VoteError::UnknownOption)
    } else if !r.no_duplicates() {
        Some(VoteError::InvalidBallotShape)
    } else if t == PollType::ForcedRankedChoice && r.len() != k {
        Some(VoteError::InvalidBallotShape)
    } else {
        None
    }
}

/// The error of the first ballot among the first `m` that has one.
pub open spec fn first_ballot_error(bs: Seq<Ballot>, t: PollType, k: nat, m: nat) -> Option<
    VoteError,
>
    decreases m,
{
    if m == 0 {
        None
    } else {
        match first_ballot_error(bs, t, k, (m - 1) as nat) {
            Some(e) => Some(e),
            None => ballot_error(bs[m - 1], t, k),
        }
    }
}

/// Checks one ranking: every entry names an option and none repeats.
pub fn check_ranking(r: &Vec<usize>, t: PollType, k: usize) -> (e: Option<VoteError>)
    requires
        t == PollType::OptionalRankedChoice || t == PollType::ForcedRankedChoice,
    ensures
        e == ranking_error(r@, t, k as nat),
{
    let mut i: usize = 0;
    while i < r.len()
        invariant
            i <= r@.len(),
            forall|j: int| 0 <= j < i ==> #[trigger] r@[j] < k,
        decreases r@.len() - i,
    {
        if r[i] >= k {
            assert(r@[i as int] >= k);
            return Some(VoteError::UnknownOption);
        }
        i = i + 1;
    }
    let mut seen: Vec<bool> = Vec::new();
    let mut o: usize = 0;
    while o < k
        invariant
            o <= k,
            seen@.len() == o,
            forall|j: int| 0 <= j < o ==> !#[trigger] seen@[j],
        decreases k - o,
    {
        seen.push(false);
        o = o + 1;
    }
    let mut i: usize = 0;
    while i < r.len()
        invariant
            i <= r@.len(),
            seen@.len() == k,
            forall|j: int| 0 <= j < r@.len() ==> #[trigger] r@[j] < k,
            forall|x: int| 0 <= x < k ==> (#[trigger] seen@[x] <==> r@.take(i as int).contains(x as usize)),
            r@.take(i as int).no_duplicates(),
        decreases r@.len() - i,
    {
        let x = r[i];
        if seen[x] {
            proof {
                let j = choose|j: int| 0 <= j < i && r@.take(i as int)[j] == x;
                assert(r@[j] == r@[i as int]);
            }
            return Some(VoteError::InvalidBallotShape);
        }
        seen.set(x, true);
        proof {
            let t1 = r@.take(i as int + 1);
            assert(t1 =~= r@.take(i as int).push(x));
            assert forall|y: int| 0 <= y < k implies (#[trigger] seen@[y] <==> t1.contains(y as usize)) by {
                if y != x as int && t1.contains(y as usize) {
                    let w = choose|w: int| 0 <= w < t1.len() && t1[w] == y as usize;
                    assert(r@.take(i as int)[w] == y as usize);
                }
                if r@.take(i as int).contains(y as usize) {
                    let w = choose|w: int| 0 <= w < i && r@.take(i as int)[w] == y as usize;
                    assert(t1[w] == y as usize);
                }
                if y == x as int {
                    assert(t1[i as int] == x);
                }
            }
            assert forall|a: int, b: int| 0 <= a < b < t1.len() implies t1[a] != t1[b] by {
                if b == i {
                    assert(r@.take(i as int)[a] == t1[a]);
                } else {
                    assert(r@.take(i as int)[a] == t1[a]);
                    assert(r@.take(i as int)[b] == t1[b]);
                }
            }
        }
        i = i + 1;
    }
    proof {
        assert(r@.take(r@.len() as int) =~= r@);
    }
    if t == PollType::ForcedRankedChoice && r.len() != k {
        return Some(VoteError::InvalidBallotShape);
    }
    None
}

/// Checks one ballot against the scheme and the option count of a question.
pub fn check_ballot(b: &Ballot, t: PollType, k: usize) -> (e: Option<VoteError>)
    ensures
        e == ballot_error(*b, t, k as nat),
{
    match &b.payload {
        BallotPayload::Referendum(_) => if t == PollType::Referendum {
            None
        } else {
            Some(VoteError::InvalidBallotShape)
        },
        BallotPayload::Ranked(r) => {
            if t != PollType::OptionalRankedChoice && t != PollType::ForcedRankedChoice {
                Some(VoteError::InvalidBallotShape)
            } else {
                check_ranking(r, t, k)
            }
        },
        BallotPayload::Quantified(s) => if t != PollType::QuantifiedAnswers {
            Some(VoteError::InvalidBallotShape)
        } else if s.len() > k {
            Some(VoteError::UnknownOption)
        } else {
            None
        },
    }
}

/// Checks every ballot, in order, and reports the first error.
pub fn check_ballots(bs: &Vec<Ballot>, t: PollType, k: usize) -> (e: Option<VoteError>)
    ensures
        e == first_ballot_error(bs@, t, k as nat, bs@.len()),
{
    let mut i: usize = 0;
    while i < bs.len()
        invariant
            i <= bs@.len(),
            first_ballot_error(bs@, t, k as nat, i as nat) is None,
        decreases bs@.len() - i,
    {
        let e = check_ballot(&bs[i], t, k);
        if e.is_some() {
            proof {
                lemma_first_error_stays(bs@, t, k as nat, i as nat + 1);
            }
            return e;
        }
        i = i + 1;
    }
    None
}

pub proof fn lemma_first_error_stays(bs: Seq<Ballot>, t: PollType, k: nat, m: nat)
    requires
        m <= bs.len(),
        first_ballot_error(bs, t, k, m) is Some,
    ensures
        first_ballot_error(bs, t, k, bs.len()) == first_ballot_error(bs, t, k, m),
    decreases bs.len() - m,
{
    if m < bs.len() {
        lemma_first_error_stays(bs, t, k, m + 1);
    }
}

/// Without an error among the first `m` ballots, each of them is sound.
pub proof fn lemma_no_error_each(bs: Seq<Ballot>, t: PollType, k: nat, m: nat, i: int)
    requires
        m <= bs.len(),
        first_ballot_error(bs, t, k, m) is None,
        0 <= i < m,
    ensures
        ballot_error(bs[i], t, k) is None,
    decreases m,
{
    if i < m - 1 {
        lemma_no_error_each(bs, t, k, (m - 1) as nat, i);
    }
}

} // verus!
