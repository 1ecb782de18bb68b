use vstd::prelude::*;

use crate::model::{ranking_of, Ballot};

verus! {

/// The first option of `r`, from position `j` on, that is still active.
pub open spec fn first_active(r: Seq<usize>, active: Seq<bool>, j: int) -> Option<usize>
    decreases r.len() - j,
{
    if j < 0 || j >= r.len() {
        None
    } else if active[r[j] as int] {
        Some(r[j])
    } else {
        first_active(r, active, j + 1)
    }
}

/// The option that ballot `b` currently prefers, if it is not exhausted.
pub open spec fn preference(b: Ballot, active: Seq<bool>) -> Option<usize> {
    first_active(ranking_of(b), active, 0)
}

/// The weight of the first `m` ballots whose current preference is `o`.
pub open spec fn pref_total(bs: Seq<Ballot>, ws: Seq<u64>, active: Seq<bool>, o: int, m: nat) -> int
    decreases m,
{
    if m == 0 {
        0
    } else {
        pref_total(bs, ws, active, o, (m - 1) as nat) + if preference(bs[m - 1], active) == Some(
            o as usize,
        ) && 0 <= o {
            ws[m - 1] as int
        } else {
            0
        }
    }
}

/// The number of the first `m` counted ballots (those of positive weight)
/// whose current preference is `o`.
pub open spec fn pref_count(bs: Seq<Ballot>, ws: Seq<u64>, active: Seq<bool>, o: int, m: nat) -> int
    decreases m,
{
    if m == 0 {
        0
    } else {
        pref_count(bs, ws, active, o, (m - 1) as nat) + if preference(bs[m - 1], active) == Some(
            o as usize,
        ) && 0 <= o && ws[m - 1] > 0 {
            1int
        } else {
            0
        }
    }
}

/// The weight of the first `m` ballots that are not exhausted.
pub open spec fn live_weight(bs: Seq<Ballot>, ws: Seq<u64>, active: Seq<bool>, m: nat) -> int
    decreases m,
{
    if m == 0 {
        0
    } else {
        live_weight(bs, ws, active, (m - 1) as nat) + if preference(bs[m - 1], active) is Some {
            ws[m - 1] as int
        } else {
            0
        }
    }
}

/// How many of the first `m` options are active.
pub open spec fn count_active(active: Seq<bool>, m: nat) -> nat
    decreases m,
{
    if m == 0 {
        0
    } else {
        count_active(active, (m - 1) as nat) + if active[m - 1] {
            1nat
        } else {
            0nat
        }
    }
}

/// The first active option at or after `j`, below `k`.
pub open spec fn first_active_option(active: Seq<bool>, j: int, k: int) -> Option<usize>
    decreases k - j,
{
    if j < 0 || j >= k {
        None
    } else if active[j] {
        Some(j as usize)
    } else {
        first_active_option(active, j + 1, k)
    }
}

/// The first active option at or after `j` whose total exceeds half of `live`.
pub open spec fn first_majority(totals: Seq<int>, active: Seq<bool>, live: int, j: int) -> Option<
    usize,
>
    decreases totals.len() - j,
{
    if j < 0 || j >= totals.len() {
        None
    } else if active[j] && 2 * totals[j] > live {
        Some(j as usize)
    } else {
        first_majority(totals, active, live, j + 1)
    }
}

/// The least value of `vals` over the active options below `m`, if any is active.
pub open spec fn min_active(vals: Seq<int>, active: Seq<bool>, m: nat) -> Option<int>
    decreases m,
{
    if m == 0 {
        None
    } else {
        let rest = min_active(vals, active, (m - 1) as nat);
        if !active[m - 1] {
            rest
        } else {
            match rest {
                None => Some(vals[m - 1]),
                Some(x) => Some(if vals[m - 1] < x {
                    vals[m - 1]
                } else {
                    x
                }),
            }
        }
    }
}

/// The options below `m` that are to be eliminated, in increasing order.
pub open spec fn eliminated_below(cand: Seq<bool>, m: nat) -> Seq<usize>
    decreases m,
{
    if m == 0 {
        Seq::empty()
    } else {
        let rest = eliminated_below(cand, (m - 1) as nat);
        if cand[m - 1] {
            rest.push((m - 1) as usize)
        } else {
            rest
        }
    }
}

/// The totals of one round.
pub open spec fn round_totals(bs: Seq<Ballot>, ws: Seq<u64>, active: Seq<bool>, k: nat) -> Seq<int> {
    Seq::new(k, |o: int| pref_total(bs, ws, active, o, bs.len()))
}

/// The history after one round: each option's count of first preferences so far.
pub open spec fn next_history(bs: Seq<Ballot>, ws: Seq<u64>, active: Seq<bool>, hist: Seq<int>, k: nat) -> Seq<int> {
    Seq::new(k, |o: int| hist[o] + pref_count(bs, ws, active, o, bs.len()))
}

/// The options with the lowest total among the active ones; among those,
/// the ones seen least often as a first preference so far.
pub open spec fn lowest(totals: Seq<int>, hist: Seq<int>, active: Seq<bool>) -> Seq<bool> {
    let k = totals.len();
    let low = Seq::new(k, |o: int| active[o] && Some(totals[o]) == min_active(totals, active, k));
    Seq::new(k, |o: int| low[o] && Some(hist[o]) == min_active(hist, low, k))
}

/// What one round records: the totals, the live weight, the options eliminated.
pub type RoundView = (Seq<int>, int, Seq<usize>);

/// The rounds of an instant-runoff count from the given state, and its end:
/// `Some(o)` when `o` wins, else `None` with the options that tied.  `fuel`
/// bounds the number of rounds; any bound of one round per active option
/// gives the same count (`lemma_runoff_bound_irrelevant`).
pub open spec fn runoff(
    bs: Seq<Ballot>,
    ws: Seq<u64>,
    k: nat,
    active: Seq<bool>,
    hist: Seq<int>,
    fuel: nat,
) -> (Seq<RoundView>, Option<usize>, Seq<usize>)
    decreases fuel,
{
    let c = count_active(active, k);
    if c == 0 {
        (Seq::empty(), None, Seq::empty())
    } else if c == 1 {
        (Seq::empty(), first_active_option(active, 0, k as int), Seq::empty())
    } else if fuel == 0 {
        (Seq::empty(), None, Seq::empty())
    } else {
        let totals = round_totals(bs, ws, active, k);
        let live = live_weight(bs, ws, active, bs.len());
        let hist2 = next_history(bs, ws, active, hist, k);
        match first_majority(totals, active, live, 0) {
            Some(o) => (seq![(totals, live, Seq::empty())], Some(o), Seq::empty()),
            None => {
                let cand = lowest(totals, hist2, active);
                let el = eliminated_below(cand, k);
                let active2 = Seq::new(k, |o: int| active[o] && !cand[o]);
                if count_active(active2, k) == 0 {
                    (seq![(totals, live, el)], None, el)
                } else {
                    let rest = runoff(bs, ws, k, active2, hist2, (fuel - 1) as nat);
                    (seq![(totals, live, el)] + rest.0, rest.1, rest.2)
                }
            },
        }
    }
}

/// The whole instant-runoff count of weighted ranked ballots over `k` options.
pub open spec fn instant_runoff(bs: Seq<Ballot>, ws: Seq<u64>, k: nat) -> (
    Seq<RoundView>,
    Option<usize>,
    Seq<usize>,
) {
    runoff(bs, ws, k, Seq::new(k, |o: int| true), Seq::new(k, |o: int| 0int), k)
}

/// The values of `v` as integers.
pub open spec fn as_ints(v: Seq<u128>) -> Seq<int> {
    Seq::new(v.len(), |i: int| v[i] as int)
}

/// Every ranking names options below `k` only.
pub open spec fn rankings_within(bs: Seq<Ballot>, k: nat) -> bool {
    forall|i: int, j: int|
        0 <= i < bs.len() && 0 <= j < ranking_of(bs[i]).len() ==> #[trigger] ranking_of(bs[i])[j] < k
}

/// The option that a ranking currently prefers.
fn current_preference(r: &Vec<usize>, active: &Vec<bool>) -> (p: Option<usize>)
    requires
        forall|j: int| 0 <= j < r@.len() ==> #[trigger] r@[j] < active@.len(),
    ensures
        p == first_active(r@, active@, 0),
        p is Some ==> p->Some_0 < active@.len(),
{
    let mut j: usize = 0;
    while j < r.len()
        invariant
            j <= r@.len(),
            forall|j: int| 0 <= j < r@.len() ==> #[trigger] r@[j] < active@.len(),
            first_active(r@, active@, 0) == first_active(r@, active@, j as int),
        decreases r@.len() - j,
    {
        if active[r[j]] {
            return Some(r[j]);
        }
        j = j + 1;
    }
    None
}

/// The ranking of a ballot, empty for a ballot that ranks nothing.
fn ranking_ref(b: &Ballot) -> (r: Option<&Vec<usize>>)
    ensures
        match r {
            Some(v) => v@ == ranking_of(*b),
            None => ranking_of(*b) == Seq::<usize>::empty(),
        },
{
    match &b.payload {
        crate::model::BallotPayload::Ranked(v) => Some(v),
        _ => None,
    }
}

/// One round's count: the weight and the number of ballots that prefer
/// each option, and the weight of the ballots that are not exhausted.
fn count_round(bs: &Vec<Ballot>, ws: &Vec<u64>, active: &Vec<bool>) -> (r: (Vec<u128>, Vec<u128>, u128))
    requires
        bs@.len() == ws@.len(),
        rankings_within(bs@, active@.len()),
    ensures
        r.0@.len() == active@.len(),
        r.1@.len() == active@.len(),
        forall|o: int| 0 <= o < active@.len() ==> #[trigger] r.0@[o] == pref_total(bs@, ws@, active@, o, bs@.len()),
        forall|o: int| 0 <= o < active@.len() ==> #[trigger] r.1@[o] == pref_count(bs@, ws@, active@, o, bs@.len()),
        forall|o: int| 0 <= o < active@.len() ==> #[trigger] r.1@[o] <= bs@.len(),
        r.2 == live_weight(bs@, ws@, active@, bs@.len()),
{
    let k = active.len();
    let mut totals: Vec<u128> = Vec::new();
    let mut counts: Vec<u128> = Vec::new();
    let mut o: usize = 0;
    while o < k
        invariant
            o <= k,
            totals@.len() == o,
            counts@.len() == o,
            forall|p: int| 0 <= p < o ==> #[trigger] totals@[p] == 0,
            forall|p: int| 0 <= p < o ==> #[trigger] counts@[p] == 0,
        decreases k - o,
    {
        totals.push(0);
        counts.push(0);
        o = o + 1;
    }
    let mut live: u128 = 0;
    let mut i: usize = 0;
    while i < bs.len()
        invariant
            i <= bs@.len() == ws@.len(),
            k == active@.len(),
            rankings_within(bs@, k as nat),
            totals@.len() == k,
            counts@.len() == k,
            forall|p: int| 0 <= p < k ==> #[trigger] totals@[p] == pref_total(bs@, ws@, active@, p, i as nat),
            forall|p: int| 0 <= p < k ==> #[trigger] counts@[p] == pref_count(bs@, ws@, active@, p, i as nat),
            forall|p: int| 0 <= p < k ==> #[trigger] totals@[p] <= i * 0xffff_ffff_ffff_ffffu128,
            forall|p: int| 0 <= p < k ==> #[trigger] counts@[p] <= i,
            live == live_weight(bs@, ws@, active@, i as nat),
            live <= i * 0xffff_ffff_ffff_ffffu128,
        decreases bs@.len() - i,
    {
        let pref = match ranking_ref(&bs[i]) {
            Some(r) => {
                proof {
                    assert forall|j: int| 0 <= j < r@.len() implies #[trigger] r@[j] < active@.len() by {
                        assert(ranking_of(bs@[i as int])[j] < k);
                    }
                }
                current_preference(r, active)
            },
            None => None,
        };
        if let Some(p) = pref {
            totals.set(p, totals[p] + ws[i] as u128);
            if ws[i] > 0 {
                counts.set(p, counts[p] + 1);
            }
            live = live + ws[i] as u128;
        }
        i = i + 1;
    }
    (totals, counts, live)
}

/// How many options are active.
fn active_count(active: &Vec<bool>) -> (c: usize)
    ensures
        c == count_active(active@, active@.len()),
{
    let mut c: usize = 0;
    let mut o: usize = 0;
    while o < active.len()
        invariant
            o <= active@.len(),
            c == count_active(active@, o as nat),
            c <= o,
        decreases active@.len() - o,
    {
        if active[o] {
            c = c + 1;
        }
        o = o + 1;
    }
    c
}

/// The first active option.
fn first_active_index(active: &Vec<bool>) -> (r: Option<usize>)
    ensures
        r == first_active_option(active@, 0, active@.len() as int),
{
    let mut o: usize = 0;
    while o < active.len()
        invariant
            o <= active@.len(),
            first_active_option(active@, 0, active@.len() as int) == first_active_option(
                active@,
                o as int,
                active@.len() as int,
            ),
        decreases active@.len() - o,
    {
        if active[o] {
            return Some(o);
        }
        o = o + 1;
    }
    None
}

/// The first active option whose total exceeds half of the live weight.
fn majority_index(totals: &Vec<u128>, active: &Vec<bool>, live: u128) -> (r: Option<usize>)
    requires
        totals@.len() == active@.len(),
    ensures
        r == first_majority(as_ints(totals@), active@, live as int, 0),
{
    let ghost t = as_ints(totals@);
    let mut o: usize = 0;
    while o < totals.len()
        invariant
            o <= totals@.len() == active@.len(),
            t == as_ints(totals@),
            first_majority(t, active@, live as int, 0) == first_majority(t, active@, live as int, o as int),
        decreases totals@.len() - o,
    {
        let half = live / 2;
        proof {
            assert((totals@[o as int] > half) == (2 * (totals@[o as int] as int) > live as int)) by (nonlinear_arith)
                requires
                    half == live / 2,
            ;
        }
        if active[o] && totals[o] > half {
            return Some(o);
        }
        o = o + 1;
    }
    None
}

/// The least value of `vals` over the active options.
fn min_of_active(vals: &Vec<u128>, active: &Vec<bool>) -> (r: Option<u128>)
    requires
        vals@.len() == active@.len(),
    ensures
        match r {
            Some(x) => min_active(as_ints(vals@), active@, vals@.len()) == Some(x as int),
            None => min_active(as_ints(vals@), active@, vals@.len()) is None,
        },
{
    let ghost t = as_ints(vals@);
    let mut best: Option<u128> = None;
    let mut o: usize = 0;
    while o < vals.len()
        invariant
            o <= vals@.len() == active@.len(),
            t == as_ints(vals@),
            match best {
                Some(x) => min_active(t, active@, o as nat) == Some(x as int),
                None => min_active(t, active@, o as nat) is None,
            },
        decreases vals@.len() - o,
    {
        if active[o] {
            best = match best {
                None => Some(vals[o]),
                Some(x) => Some(if vals[o] < x { vals[o] } else { x }),
            };
        }
        o = o + 1;
    }
    best
}

/// The options to eliminate after a round without a majority, and the
/// options that stay active.
fn eliminate(totals: &Vec<u128>, hist: &Vec<u128>, active: &Vec<bool>) -> (r: (Vec<usize>, Vec<bool>))
    requires
        totals@.len() == active@.len(),
        hist@.len() == active@.len(),
    ensures
        r.0@ == eliminated_below(
            lowest(as_ints(totals@), as_ints(hist@), active@),
            active@.len() as nat,
        ),
        r.1@ == Seq::new(
            active@.len() as nat,
            |o: int| active@[o] && !lowest(as_ints(totals@), as_ints(hist@), active@)[o],
        ),
{
    let k = active.len();
    let ghost tt = as_ints(totals@);
    let ghost hh = as_ints(hist@);
    let mt = min_of_active(totals, active);
    let mut low: Vec<bool> = Vec::new();
    let mut o: usize = 0;
    while o < k
        invariant
            o <= k == active@.len() == totals@.len() == hist@.len(),
            tt == as_ints(totals@),
            low@.len() == o,
            forall|p: int|
                0 <= p < o ==> #[trigger] low@[p] == (active@[p] && Some(tt[p]) == min_active(
                    tt,
                    active@,
                    k as nat,
                )),
            match mt {
                Some(x) => min_active(tt, active@, k as nat) == Some(x as int),
                None => min_active(tt, active@, k as nat) is None,
            },
        decreases k - o,
    {
        let b = match mt {
            Some(x) => active[o] && totals[o] == x,
            None => false,
        };
        low.push(b);
        o = o + 1;
    }
    let ghost low_spec = Seq::new(
        k as nat,
        |o: int| active@[o] && Some(tt[o]) == min_active(tt, active@, k as nat),
    );
    assert(low@ =~= low_spec);
    let mh = min_of_active(hist, &low);
    let ghost cand = lowest(tt, hh, active@);
    let mut el: Vec<usize> = Vec::new();
    let mut rest: Vec<bool> = Vec::new();
    let mut o: usize = 0;
    while o < k
        invariant
            o <= k == active@.len() == totals@.len() == hist@.len() == low@.len(),
            hh == as_ints(hist@),
            low@ == low_spec,
            cand == lowest(tt, hh, active@),
            cand.len() == k,
            forall|p: int| 0 <= p < k ==> #[trigger] cand[p] == (low_spec[p] && Some(hh[p]) == min_active(hh, low_spec, k as nat)),
            match mh {
                Some(x) => min_active(hh, low@, k as nat) == Some(x as int),
                None => min_active(hh, low@, k as nat) is None,
            },
            el@ == eliminated_below(cand, o as nat),
            rest@.len() == o,
            forall|p: int| 0 <= p < o ==> #[trigger] rest@[p] == (active@[p] && !cand[p]),
        decreases k - o,
    {
        let c = match mh {
            Some(x) => low[o] && hist[o] == x,
            None => false,
        };
        if c {
            el.push(o);
        }
        rest.push(active[o] && !c);
        o = o + 1;
    }
    assert(rest@ =~= Seq::new(k as nat, |o: int| active@[o] && !cand[o]));
    (el, rest)
}

/// One round of an instant-runoff count.
#[derive(Clone, Debug)]
pub struct Round {
    /// The weight of the ballots that prefer each option.
    pub totals: Vec<u128>,
    /// The weight of the ballots that are not exhausted.
    pub live_weight: u128,
    /// The options eliminated after this round, in increasing order.
    pub eliminated: Vec<usize>,
}

impl Round {
    pub open spec fn view(&self) -> RoundView {
        (as_ints(self.totals@), self.live_weight as int, self.eliminated@)
    }
}

/// How an instant-runoff count ends.
#[derive(Clone, Debug)]
pub enum RankedOutcome {
    Winner(usize),
    /// Every remaining option was eliminated at once.
    Tie(Vec<usize>),
}

/// The rounds and the end of an instant-runoff count.
#[derive(Clone, Debug)]
pub struct RankedResult {
    pub rounds: Vec<Round>,
    pub outcome: RankedOutcome,
}

impl RankedResult {
    /// The result records exactly the count `c`.
    pub open spec fn records(&self, c: (Seq<RoundView>, Option<usize>, Seq<usize>)) -> bool {
        &&& self.rounds@.len() == c.0.len()
        &&& forall|i: int| 0 <= i < c.0.len() ==> (#[trigger] self.rounds@[i]).view() == c.0[i]
        &&& match self.outcome {
            RankedOutcome::Winner(o) => c.1 == Some(o),
            RankedOutcome::Tie(v) => c.1 is None && c.2 == v@,
        }
    }
}

/// Counts weighted ranked ballots over `k` options by instant runoff.
///
/// Each round every ballot goes to its highest-ranked option still active;
/// a ballot with none left is exhausted and leaves the live weight.  An
/// option with more than half of the live weight wins.  Otherwise the
/// options with the lowest total go, and among them only those seen least
/// often as a first preference over all rounds so far; when that would
/// remove every option left, those options tie.  A single option left wins.
pub fn tally_ranked(bs: &Vec<Ballot>, ws: &Vec<u64>, k: usize) -> (r: RankedResult)
    requires
        bs@.len() == ws@.len(),
        rankings_within(bs@, k as nat),
    ensures
        r.records(instant_runoff(bs@, ws@, k as nat)),
{
    let mut active: Vec<bool> = Vec::new();
    let mut hist: Vec<u128> = Vec::new();
    let mut o: usize = 0;
    while o < k
        invariant
            o <= k,
            active@.len() == o,
            hist@.len() == o,
            forall|p: int| 0 <= p < o ==> #[trigger] active@[p],
            forall|p: int| 0 <= p < o ==> #[trigger] hist@[p] == 0,
        decreases k - o,
    {
        active.push(true);
        hist.push(0);
        o = o + 1;
    }
    assert(active@ =~= Seq::new(k as nat, |o: int| true));
    assert(as_ints(hist@) =~= Seq::new(k as nat, |o: int| 0int));
    let ghost whole = instant_runoff(bs@, ws@, k as nat);
    let ghost done: Seq<RoundView> = Seq::empty();
    let mut rounds: Vec<Round> = Vec::new();
    let mut fuel: usize = k;
    let mut outcome: RankedOutcome = RankedOutcome::Tie(Vec::new());
    let nb = bs.len();
    loop
        invariant_except_break
            nb == bs@.len(),
            bs@.len() == ws@.len(),
            rankings_within(bs@, k as nat),
            fuel <= k,
            active@.len() == k,
            hist@.len() == k,
            forall|p: int| 0 <= p < k ==> #[trigger] hist@[p] <= (k - fuel) * bs@.len(),
            whole == instant_runoff(bs@, ws@, k as nat),
            ({
                let rest = runoff(bs@, ws@, k as nat, active@, as_ints(hist@), fuel as nat);
                whole.0 == done + rest.0 && whole.1 == rest.1 && whole.2 == rest.2
            }),
            rounds@.len() == done.len(),
            forall|i: int| 0 <= i < done.len() ==> (#[trigger] rounds@[i]).view() == done[i],
        ensures
            rounds@.len() == whole.0.len(),
            forall|i: int| 0 <= i < whole.0.len() ==> (#[trigger] rounds@[i]).view() == whole.0[i],
            match outcome {
                RankedOutcome::Winner(o) => whole.1 == Some(o),
                RankedOutcome::Tie(v) => whole.1 is None && whole.2 == v@,
            },
        decreases fuel,
    {
        let ghost rest = runoff(bs@, ws@, k as nat, active@, as_ints(hist@), fuel as nat);
        let c = active_count(&active);
        if c == 0 {
            outcome = RankedOutcome::Tie(Vec::new());
            assert(done + rest.0 =~= done);
            break ;
        }
        if c == 1 {
            proof {
                lemma_one_active_has_first(active@, k as nat);
            }
            outcome = RankedOutcome::Winner(first_active_index(&active).unwrap());
            assert(done + rest.0 =~= done);
            break ;
        }
        if fuel == 0 {
            outcome = RankedOutcome::Tie(Vec::new());
            assert(done + rest.0 =~= done);
            break ;
        }
        let (totals, counts, live) = count_round(bs, ws, &active);
        let ghost tt = round_totals(bs@, ws@, active@, k as nat);
        assert(as_ints(totals@) =~= tt);
        let mut hist2: Vec<u128> = Vec::new();
        let mut p: usize = 0;
        while p < k
            invariant
                p <= k,
                nb == bs@.len(),
                fuel >= 1,
                fuel <= k,
                hist@.len() == k,
                counts@.len() == k,
                hist2@.len() == p,
                forall|q: int| 0 <= q < k ==> #[trigger] hist@[q] <= (k - fuel) * bs@.len(),
                forall|q: int| 0 <= q < k ==> #[trigger] counts@[q] <= bs@.len(),
                forall|q: int| 0 <= q < p ==> #[trigger] hist2@[q] == hist@[q] + counts@[q],
                forall|q: int| 0 <= q < p ==> #[trigger] hist2@[q] <= (k - fuel + 1) * bs@.len(),
            decreases k - p,
        {
            proof {
                let d = (k - fuel) as int;
                let l = nb as int;
                assert(d * l + l == (d + 1) * l) by (nonlinear_arith);
                assert((d + 1) * l <= u128::MAX) by (nonlinear_arith)
                    requires
                        0 <= d + 1 <= usize::MAX,
                        0 <= l <= usize::MAX,
                ;
            }
            hist2.push(hist[p] + counts[p]);
            p = p + 1;
        }
        let ghost h2 = next_history(bs@, ws@, active@, as_ints(hist@), k as nat);
        assert(as_ints(hist2@) =~= h2);
        match majority_index(&totals, &active, live) {
            Some(w) => {
                let ghost rv: RoundView = (tt, live as int, Seq::empty());
                let round = Round { totals, live_weight: live, eliminated: Vec::new() };
                assert(round.view() =~= rv);
                rounds.push(round);
                proof {
                    done = done.push(rv);
                    assert(done =~= whole.0);
                }
                outcome = RankedOutcome::Winner(w);
                break ;
            },
            None => {},
        }
        let (el, active2) = eliminate(&totals, &hist2, &active);
        let ghost rv: RoundView = (tt, live as int, el@);
        let mut tied: Vec<usize> = Vec::new();
        let mut q: usize = 0;
        while q < el.len()
            invariant
                q <= el@.len(),
                tied@ == el@.take(q as int),
            decreases el@.len() - q,
        {
            tied.push(el[q]);
            q = q + 1;
            assert(tied@ =~= el@.take(q as int));
        }
        assert(el@.take(el@.len() as int) =~= el@);
        let round = Round { totals, live_weight: live, eliminated: el };
        assert(round.view() =~= rv);
        rounds.push(round);
        proof {
            done = done.push(rv);
        }
        if active_count(&active2) == 0 {
            outcome = RankedOutcome::Tie(tied);
            assert(done =~= whole.0);
            break ;
        }
        proof {
            assert(seq![rv] + runoff(bs@, ws@, k as nat, active2@, h2, (fuel - 1) as nat).0 =~= rest.0);
            assert(done + runoff(bs@, ws@, k as nat, active2@, h2, (fuel - 1) as nat).0 =~= whole.0);
        }
        active = active2;
        hist = hist2;
        fuel = fuel - 1;
    }
    RankedResult { rounds, outcome }
}

proof fn lemma_one_active_has_first(active: Seq<bool>, k: nat)
    requires
        active.len() == k,
        count_active(active, k) == 1,
    ensures
        first_active_option(active, 0, k as int) is Some,
{
    if first_active_option(active, 0, k as int) is None {
        lemma_no_first_no_active(active, 0, k as int);
        lemma_count_none_active(active, k);
    }
}

proof fn lemma_no_first_no_active(active: Seq<bool>, j: int, k: int)
    requires
        0 <= j,
        first_active_option(active, j, k) is None,
    ensures
        forall|o: int| j <= o < k ==> !active[o],
    decreases k - j,
{
    if j < k {
        lemma_no_first_no_active(active, j + 1, k);
    }
}

proof fn lemma_count_none_active(active: Seq<bool>, m: nat)
    requires
        forall|o: int| 0 <= o < m ==> !active[o],
    ensures
        count_active(active, m) == 0,
    decreases m,
{
    if m > 0 {
        lemma_count_none_active(active, (m - 1) as nat);
    }
}

proof fn lemma_min_active_witness(vals: Seq<int>, active: Seq<bool>, m: nat)
    requires
        count_active(active, m) >= 1,
    ensures
        min_active(vals, active, m) is Some,
        exists|o: int| 0 <= o < m && active[o] && #[trigger] vals[o] == min_active(vals, active, m)->Some_0,
    decreases m,
{
    if m > 0 {
        let o = m - 1;
        if count_active(active, (m - 1) as nat) >= 1 {
            lemma_min_active_witness(vals, active, (m - 1) as nat);
            let w = choose|w: int| 0 <= w < m - 1 && active[w] && #[trigger] vals[w] == min_active(vals, active, (m - 1) as nat)->Some_0;
            if active[o] && vals[o] < vals[w] {
                assert(vals[o] == min_active(vals, active, m)->Some_0);
            } else {
                assert(vals[w] == min_active(vals, active, m)->Some_0);
            }
        } else {
            lemma_count_zero_none(vals, active, (m - 1) as nat);
            assert(vals[o] == min_active(vals, active, m)->Some_0);
        }
    }
}

proof fn lemma_count_zero_none(vals: Seq<int>, active: Seq<bool>, m: nat)
    requires
        count_active(active, m) == 0,
    ensures
        min_active(vals, active, m) is None,
    decreases m,
{
    if m > 0 {
        lemma_count_zero_none(vals, active, (m - 1) as nat);
    }
}

proof fn lemma_count_positive(active: Seq<bool>, m: nat, o: int)
    requires
        0 <= o < m,
        active[o],
    ensures
        count_active(active, m) >= 1,
    decreases m,
{
    if o < m - 1 {
        lemma_count_positive(active, (m - 1) as nat, o);
    }
}

proof fn lemma_count_smaller(a: Seq<bool>, b: Seq<bool>, m: nat, o: int)
    requires
        forall|p: int| 0 <= p < m && #[trigger] b[p] ==> a[p],
        0 <= o < m,
        a[o],
        !b[o],
    ensures
        count_active(b, m) < count_active(a, m),
    decreases m,
{
    if o < m - 1 {
        lemma_count_smaller(a, b, (m - 1) as nat, o);
    } else {
        lemma_count_le(a, b, (m - 1) as nat);
    }
}

proof fn lemma_count_le(a: Seq<bool>, b: Seq<bool>, m: nat)
    requires
        forall|p: int| 0 <= p < m && #[trigger] b[p] ==> a[p],
    ensures
        count_active(b, m) <= count_active(a, m),
    decreases m,
{
    if m > 0 {
        lemma_count_le(a, b, (m - 1) as nat);
    }
}

/// A round without a majority eliminates at least one active option.
proof fn lemma_round_eliminates(totals: Seq<int>, hist: Seq<int>, active: Seq<bool>, k: nat)
    requires
        totals.len() == k,
        hist.len() == k,
        count_active(active, k) >= 1,
    ensures
        count_active(
            Seq::new(k, |o: int| active[o] && !lowest(totals, hist, active)[o]),
            k,
        ) < count_active(active, k),
{
    let low = Seq::new(k, |o: int| active[o] && Some(totals[o]) == min_active(totals, active, k));
    lemma_min_active_witness(totals, active, k);
    let w = choose|o: int| 0 <= o < k && active[o] && #[trigger] totals[o] == min_active(totals, active, k)->Some_0;
    assert(low[w]);
    lemma_count_positive(low, k, w);
    lemma_min_active_witness(hist, low, k);
    let c = choose|o: int| 0 <= o < k && low[o] && #[trigger] hist[o] == min_active(hist, low, k)->Some_0;
    let cand = lowest(totals, hist, active);
    assert(cand[c]);
    let rest = Seq::new(k, |o: int| active[o] && !cand[o]);
    lemma_count_smaller(active, rest, k, c);
}

/// The bound on the number of rounds does not matter once it allows one
/// round per active option: each round eliminates at least one, so the
/// count always ends by a majority, a last option standing, or a tie.
pub proof fn lemma_runoff_bound_irrelevant(
    bs: Seq<Ballot>,
    ws: Seq<u64>,
    k: nat,
    active: Seq<bool>,
    hist: Seq<int>,
    f1: nat,
    f2: nat,
)
    requires
        hist.len() == k,
        f1 + 1 >= count_active(active, k),
        f2 + 1 >= count_active(active, k),
    ensures
        runoff(bs, ws, k, active, hist, f1) == runoff(bs, ws, k, active, hist, f2),
    decreases f1,
{
    let c = count_active(active, k);
    if c >= 2 {
        let totals = round_totals(bs, ws, active, k);
        let hist2 = next_history(bs, ws, active, hist, k);
        lemma_round_eliminates(totals, hist2, active, k);
        let active2 = Seq::new(k, |o: int| active[o] && !lowest(totals, hist2, active)[o]);
        lemma_runoff_bound_irrelevant(bs, ws, k, active2, hist2, (f1 - 1) as nat, (f2 - 1) as nat);
    }
}

} // verus!
