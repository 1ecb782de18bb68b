use vstd::prelude::*;

use crate::delegation::Resolution;
use crate::model::{Delegation, Topic, VoteError, VoterStatus};

verus! {

/// A participant.  `birth_date` is a Julian day number.
#[derive(Debug)]
pub struct Voter {
    pub voter_id: u128,
    pub first_name: String,
    pub last_name: String,
    pub email: String,
    pub birth_date: i32,
    pub status: VoterStatus,
}

/// Relies on uuid::Uuid::new_v4 and Uuid::as_u128: a random identifier,
/// of which the version nibble (bits 76 to 79) is always 4.
#[verifier::external_body]
fn new_voter_id() -> (id: u128)
    ensures
        (id >> 76u128) & 0xfu128 == 4,
{
    uuid::Uuid::new_v4().as_u128()
}

/// A new voter with a fresh random identifier.
pub fn create_user(
    first_name: String,
    last_name: String,
    email: String,
    birth_date: i32,
    status: VoterStatus,
) -> (v: Voter)
    ensures
        (v.voter_id >> 76u128) & 0xfu128 == 4,
        v.first_name == first_name,
        v.last_name == last_name,
        v.email == email,
        v.birth_date == birth_date,
        v.status == status,
{
    Voter { voter_id: new_voter_id(), first_name, last_name, email, birth_date, status }
}

impl Voter {
    /// Changes whether the voter's identity may be disclosed.
    pub fn set_user_status(&mut self, status: VoterStatus)
        ensures
            final(self).status == status,
            final(self).voter_id == old(self).voter_id,
            final(self).first_name == old(self).first_name,
            final(self).last_name == old(self).last_name,
            final(self).email == old(self).email,
            final(self).birth_date == old(self).birth_date,
    {
        self.status = status;
    }

    /// Whether the voter's identity may be disclosed.
    pub fn check_user_status(&self) -> (s: VoterStatus)
        ensures
            s == self.status,
    {
        self.status
    }
}

/// One entry of a voter's history: what was voted, with what score.
#[derive(Debug)]
pub struct VoteHistory {
    pub vote: String,
    pub score: u32,
}

/// Appends a vote to a voter's history.
pub fn add_to_vote_history(history: &mut Vec<VoteHistory>, vote: String, score: u32)
    ensures
        final(history)@.len() == old(history)@.len() + 1,
        final(history)@.take(old(history)@.len() as int) == old(history)@,
        final(history)@.last().vote == vote,
        final(history)@.last().score == score,
{
    history.push(VoteHistory { vote, score });
    assert(history@.take(old(history)@.len() as int) =~= old(history)@);
}

/// The delegation records that `d` is one of: same principal, same delegate,
/// and a topic among `topics`.
pub open spec fn matches_removal(d: Delegation, from: usize, to: usize, topics: Seq<Topic>) -> bool {
    d.from_principal == from && d.to_delegate == to && topics.contains(d.topic)
}

/// The first `m` records of `ds` without those that match a removal.
pub open spec fn kept_records(ds: Seq<Delegation>, from: usize, to: usize, topics: Seq<Topic>, m: nat) -> Seq<
    Delegation,
>
    decreases m,
{
    if m == 0 {
        Seq::empty()
    } else {
        let rest = kept_records(ds, from, to, topics, (m - 1) as nat);
        if matches_removal(ds[m - 1], from, to, topics) {
            rest
        } else {
            rest.push(ds[m - 1])
        }
    }
}

/// The ids (positions) among the first `m` records whose principal, or
/// delegate when `received`, is `v`.
pub open spec fn record_ids(ds: Seq<Delegation>, v: usize, received: bool, m: nat) -> Seq<usize>
    decreases m,
{
    if m == 0 {
        Seq::empty()
    } else {
        let rest = record_ids(ds, v, received, (m - 1) as nat);
        let d = ds[m - 1];
        if (if received { d.to_delegate } else { d.from_principal }) == v {
            rest.push((m - 1) as usize)
        } else {
            rest
        }
    }
}

/// The voters and the arena of delegation records.  A record's id is its
/// position; voters do not own records, they find theirs by id.
#[derive(Debug)]
pub struct Community {
    pub voters: Vec<Voter>,
    pub delegations: Vec<Delegation>,
}

fn topic_listed(topics: &Vec<Topic>, t: Topic) -> (r: bool)
    ensures
        r == topics@.contains(t),
{
    let mut i: usize = 0;
    while i < topics.len()
        invariant
            i <= topics@.len(),
            forall|j: int| 0 <= j < i ==> topics@[j] != t,
        decreases topics@.len() - i,
    {
        if topics[i] == t {
            assert(topics@[i as int] == t);
            return true;
        }
        i = i + 1;
    }
    false
}

impl Community {
    /// Records a delegation from `from` to `to` on each of `topics`, until
    /// `end_date`.  Both voters must exist.
    pub fn add_delegation(&mut self, from: usize, to: usize, topics: &Vec<Topic>, end_date: i64) -> (r:
        Result<(), VoteError>)
        ensures
            from >= old(self).voters@.len() || to >= old(self).voters@.len() ==> r == Err::<
                (),
                VoteError,
            >(VoteError::UnknownOption) && final(self).delegations@ == old(self).delegations@,
            from < old(self).voters@.len() && to < old(self).voters@.len() ==> r is Ok
                && final(self).delegations@ == old(self).delegations@ + Seq::new(
                topics@.len(),
                |i: int|
                    (Delegation {
                        from_principal: from,
                        to_delegate: to,
                        topic: topics@[i],
                        end_date,
                    }),
            ),
            final(self).voters == old(self).voters,
    {
        if from >= self.voters.len() || to >= self.voters.len() {
            return Err(VoteError::UnknownOption);
        }
        let ghost start = self.delegations@;
        let mut i: usize = 0;
        while i < topics.len()
            invariant
                i <= topics@.len(),
                self.voters == old(self).voters,
                start == old(self).delegations@,
                self.delegations@ == start + Seq::new(
                    i as nat,
                    |j: int|
                        (Delegation {
                            from_principal: from,
                            to_delegate: to,
                            topic: topics@[j],
                            end_date,
                        }),
                ),
            decreases topics@.len() - i,
        {
            self.delegations.push(
                Delegation { from_principal: from, to_delegate: to, topic: topics[i], end_date },
            );
            i = i + 1;
            assert(self.delegations@ =~= start + Seq::new(
                i as nat,
                |j: int|
                    (Delegation {
                        from_principal: from,
                        to_delegate: to,
                        topic: topics@[j],
                        end_date,
                    }),
            ));
        }
        Ok(())
    }

    /// Deletes the records from `from` to `to` on any of `topics`; the other
    /// records keep their order.
    pub fn remove_delegation(&mut self, from: usize, to: usize, topics: &Vec<Topic>)
        ensures
            final(self).delegations@ == kept_records(
                old(self).delegations@,
                from,
                to,
                topics@,
                old(self).delegations@.len(),
            ),
            final(self).voters == old(self).voters,
    {
        let mut kept: Vec<Delegation> = Vec::new();
        let mut i: usize = 0;
        while i < self.delegations.len()
            invariant
                i <= self.delegations@.len(),
                self == old(self),
                kept@ == kept_records(self.delegations@, from, to, topics@, i as nat),
            decreases self.delegations@.len() - i,
        {
            let d = self.delegations[i];
            if !(d.from_principal == from && d.to_delegate == to && topic_listed(topics, d.topic)) {
                kept.push(d);
            }
            i = i + 1;
        }
        self.delegations = kept;
    }

    /// Who voter `v`'s vote went to, as audit output may show it: the
    /// identity of `v`'s terminal delegate in `res` when that delegate is
    /// public, nothing when it is private or not a known voter.
    pub fn disclosed_delegate(&self, res: &Resolution, v: usize) -> (r: Option<u128>)
        ensures
            r == (if v < res.terminal@.len() && res.terminal@[v as int] < self.voters@.len()
                && self.voters@[res.terminal@[v as int] as int].status == VoterStatus::Public {
                Some(self.voters@[res.terminal@[v as int] as int].voter_id)
            } else {
                None::<u128>
            }),
    {
        if v >= res.terminal.len() {
            return None;
        }
        let t = res.terminal[v];
        if t >= self.voters.len() {
            return None;
        }
        match self.voters[t].status {
            VoterStatus::Public => Some(self.voters[t].voter_id),
            VoterStatus::Private => None,
        }
    }

    /// The ids of the records in which `v` is the principal.
    pub fn delegations_given(&self, v: usize) -> (ids: Vec<usize>)
        ensures
            ids@ == record_ids(self.delegations@, v, false, self.delegations@.len()),
    {
        self.record_ids_of(v, false)
    }

    /// The ids of the records in which `v` is the delegate.
    pub fn delegations_received(&self, v: usize) -> (ids: Vec<usize>)
        ensures
            ids@ == record_ids(self.delegations@, v, true, self.delegations@.len()),
    {
        self.record_ids_of(v, true)
    }

    fn record_ids_of(&self, v: usize, received: bool) -> (ids: Vec<usize>)
        ensures
            ids@ == record_ids(self.delegations@, v, received, self.delegations@.len()),
    {
        let mut ids: Vec<usize> = Vec::new();
        let mut i: usize = 0;
        while i < self.delegations.len()
            invariant
                i <= self.delegations@.len(),
                ids@ == record_ids(self.delegations@, v, received, i as nat),
            decreases self.delegations@.len() - i,
        {
            let d = self.delegations[i];
            let who = if received {
                d.to_delegate
            } else {
                d.from_principal
            };
            if who == v {
                ids.push(i);
            }
            i = i + 1;
        }
        ids
    }
}

} // verus!
