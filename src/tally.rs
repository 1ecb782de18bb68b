use vstd::prelude::*;

use crate::model::{score_of, Ballot, BallotPayload, ReferendumOption};

verus! {

/// The largest weight times score that one quantified ballot adds to an option.
pub const MAX_WEIGHTED_SCORE: u128 = 0xffff_fffe_ffff_ffff_0000_0001;

/// The decision of a referendum.
#[derive(Clone, Copy, Debug, PartialEq, Eq, Structural)]
pub enum Decision {
    Winner(ReferendumOption),
    Tie,
}

/// Totals and decision of a referendum.
#[derive(Clone, Copy, Debug, PartialEq, Eq, Structural)]
pub struct ReferendumResult {
    pub yes: u128,
    pub no: u128,
    pub decision: Decision,
}

/// Totals per option of a quantified question; the rank of each option:
/// one more than the number of options with a strictly higher total, so that
/// equal totals share a rank; and the options listed by total, highest
/// first, equal totals in option order.
#[derive(Clone, Debug)]
pub struct QuantifiedResult {
    pub totals: Vec<u128>,
    pub ranks: Vec<usize>,
    pub order: Vec<usize>,
}

/// The ballot is a referendum answer `c`.
pub open spec fn answers(b: Ballot, c: ReferendumOption) -> bool {
    match b.payload {
        BallotPayload::Referendum(x) => x == c,
        _ => false,
    }
}

/// The weight cast for `c` by the first `m` ballots.
pub open spec fn referendum_total(bs: Seq<Ballot>, ws: Seq<u64>, c: ReferendumOption, m: nat) -> int
    decreases m,
{
    if m == 0 {
        0
    } else {
        referendum_total(bs, ws, c, (m - 1) as nat) + if answers(bs[m - 1], c) {
            ws[m - 1] as int
        } else {
            0
        }
    }
}

/// The decision for the totals `yes` and `no`.
pub open spec fn decide(yes: int, no: int) -> Decision {
    if yes > no {
        Decision::Winner(ReferendumOption::Yes)
    } else if no > yes {
        Decision::Winner(ReferendumOption::No)
    } else {
        Decision::Tie
    }
}

/// Tallies weighted referendum ballots: ballot `i` counts with weight `ws[i]`.
pub fn tally_referendum(bs: &Vec<Ballot>, ws: &Vec<u64>) -> (r: ReferendumResult)
    requires
        bs@.len() == ws@.len(),
    ensures
        r.yes == referendum_total(bs@, ws@, ReferendumOption::Yes, bs@.len()),
        r.no == referendum_total(bs@, ws@, ReferendumOption::No, bs@.len()),
        r.decision == decide(r.yes as int, r.no as int),
{
    let mut yes: u128 = 0;
    let mut no: u128 = 0;
    let mut i: usize = 0;
    while i < bs.len()
        invariant
            i <= bs@.len() == ws@.len(),
            yes == referendum_total(bs@, ws@, ReferendumOption::Yes, i as nat),
            no == referendum_total(bs@, ws@, ReferendumOption::No, i as nat),
            yes + no <= i * 0xffff_ffff_ffff_ffffu128,
        decreases bs@.len() - i,
    {
        match &bs[i].payload {
            BallotPayload::Referendum(ReferendumOption::Yes) => {
                yes = yes + ws[i] as u128;
            },
            BallotPayload::Referendum(ReferendumOption::No) => {
                no = no + ws[i] as u128;
            },
            _ => {},
        }
        i = i + 1;
    }
    let decision = if yes > no {
        Decision::Winner(ReferendumOption::Yes)
    } else if no > yes {
        Decision::Winner(ReferendumOption::No)
    } else {
        Decision::Tie
    };
    ReferendumResult { yes, no, decision }
}

/// The weighted score of option `o` over the first `m` ballots.
pub open spec fn quantified_total(bs: Seq<Ballot>, ws: Seq<u64>, o: int, m: nat) -> int
    decreases m,
{
    if m == 0 {
        0
    } else {
        quantified_total(bs, ws, o, (m - 1) as nat) + ws[m - 1] * score_of(bs[m - 1], o)
    }
}

/// How many of the first `m` totals are strictly above `x`.
pub open spec fn count_above(totals: Seq<u128>, x: u128, m: nat) -> nat
    decreases m,
{
    if m == 0 {
        0
    } else {
        count_above(totals, x, (m - 1) as nat) + if totals[m - 1] > x {
            1nat
        } else {
            0nat
        }
    }
}

/// The rank of option `o`: ties share the better rank.
pub open spec fn rank_of(totals: Seq<u128>, o: int) -> nat {
    1 + count_above(totals, totals[o], totals.len())
}

proof fn lemma_count_above_bound(totals: Seq<u128>, x: u128, m: nat)
    ensures
        count_above(totals, x, m) <= m,
    decreases m,
{
    if m > 0 {
        lemma_count_above_bound(totals, x, (m - 1) as nat);
    }
}

/// The rank of every option, from its total.
pub fn ranks_of(totals: &Vec<u128>) -> (ranks: Vec<usize>)
    requires
        totals@.len() < usize::MAX,
    ensures
        ranks@.len() == totals@.len(),
        forall|o: int| 0 <= o < totals@.len() ==> #[trigger] ranks@[o] == rank_of(totals@, o),
{
    let k = totals.len();
    let mut ranks: Vec<usize> = Vec::new();
    let mut o: usize = 0;
    while o < k
        invariant
            k == totals@.len() < usize::MAX,
            o <= k,
            ranks@.len() == o,
            forall|p: int| 0 <= p < o ==> #[trigger] ranks@[p] == rank_of(totals@, p),
        decreases k - o,
    {
        let mut above: usize = 0;
        let mut j: usize = 0;
        while j < k
            invariant
                k == totals@.len() < usize::MAX,
                o < k,
                j <= k,
                above == count_above(totals@, totals@[o as int], j as nat),
            decreases k - j,
        {
            proof {
                lemma_count_above_bound(totals@, totals@[o as int], j as nat);
            }
            if totals[j] > totals[o] {
                above = above + 1;
            }
            j = j + 1;
        }
        proof {
            lemma_count_above_bound(totals@, totals@[o as int], k as nat);
        }
        ranks.push(above + 1);
        o = o + 1;
    }
    ranks
}

/// Option `a` comes before option `b` in the listing by total.
pub open spec fn listed_before(totals: Seq<u128>, a: int, b: int) -> bool {
    totals[a] > totals[b] || (totals[a] == totals[b] && a < b)
}

/// `order` lists every option of `totals` once, by total, highest first,
/// equal totals in option order.
pub open spec fn lists_by_total(totals: Seq<u128>, order: Seq<usize>) -> bool {
    &&& order.len() == totals.len()
    &&& forall|i: int| 0 <= i < order.len() ==> #[trigger] order[i] < totals.len()
    &&& forall|i: int, j: int| 0 <= i < j < order.len() ==> listed_before(totals, #[trigger] order[i] as int, #[trigger] order[j] as int)
    &&& forall|o: int| 0 <= o < totals.len() ==> #[trigger] order.contains(o as usize)
}

/// There is only one listing of the options by total.
pub proof fn lemma_listing_unique(totals: Seq<u128>, a: Seq<usize>, b: Seq<usize>)
    requires
        lists_by_total(totals, a),
        lists_by_total(totals, b),
    ensures
        a == b,
{
    assert forall|i: int| 0 <= i < a.len() implies a[i] == b[i] by {
        lemma_listing_agrees_at(totals, a, b, i);
    }
    assert(a =~= b);
}

proof fn lemma_listing_agrees_at(totals: Seq<u128>, a: Seq<usize>, b: Seq<usize>, i: int)
    requires
        lists_by_total(totals, a),
        lists_by_total(totals, b),
        0 <= i < a.len(),
    ensures
        a[i] == b[i],
    decreases i,
{
    assert forall|j: int| 0 <= j < i implies a[j] == b[j] by {
        lemma_listing_agrees_at(totals, a, b, j);
    }
    if a[i] != b[i] {
        assert(a[i] < totals.len());
        assert(b[i] < totals.len());
        let x = a[i] as int;
        let y = b[i] as int;
        assert(b.contains(x as usize));
        assert(a.contains(y as usize));
        let j = choose|j: int| 0 <= j < b.len() && b[j] == a[i];
        let l = choose|l: int| 0 <= l < a.len() && a[l] == b[i];
        if j < i {
            assert(a[j] == b[j]);
            assert(listed_before(totals, a[j] as int, a[i] as int));
        }
        if l < i {
            assert(a[l] == b[l]);
            assert(listed_before(totals, b[l] as int, b[i] as int));
        }
        assert(listed_before(totals, b[i] as int, b[j] as int));
        assert(listed_before(totals, a[i] as int, a[l] as int));
    }
}

/// The options listed by total, highest first, equal totals in option order.
pub fn order_by_total(totals: &Vec<u128>) -> (order: Vec<usize>)
    ensures
        lists_by_total(totals@, order@),
{
    let k = totals.len();
    let mut order: Vec<usize> = Vec::new();
    let mut o: usize = 0;
    while o < k
        invariant
            k == totals@.len(),
            o <= k,
            order@.len() == o,
            forall|i: int| 0 <= i < order@.len() ==> #[trigger] order@[i] < o,
            forall|i: int, j: int| 0 <= i < j < order@.len() ==> listed_before(totals@, #[trigger] order@[i] as int, #[trigger] order@[j] as int),
            forall|p: int| 0 <= p < o ==> #[trigger] order@.contains(p as usize),
        decreases k - o,
    {
        let mut j: usize = 0;
        while j < order.len() && (totals[order[j]] > totals[o] || (totals[order[j]] == totals[o] && order[j] < o))
            invariant
                k == totals@.len(),
                o < k,
                j <= order@.len(),
                forall|i: int| 0 <= i < order@.len() ==> #[trigger] order@[i] < o,
                forall|i: int| 0 <= i < j ==> listed_before(totals@, #[trigger] order@[i] as int, o as int),
            decreases order@.len() - j,
        {
            j = j + 1;
        }
        let ghost before = order@;
        order.insert(j, o);
        proof {
            assert(order@ == before.insert(j as int, o));
            assert forall|i: int| 0 <= i < order@.len() implies #[trigger] order@[i] < o + 1 by {
                if i < j {
                    assert(order@[i] == before[i]);
                } else if i > j {
                    assert(order@[i] == before[i - 1]);
                }
            }
            assert forall|a: int, b: int| 0 <= a < b < order@.len() implies listed_before(totals@, #[trigger] order@[a] as int, #[trigger] order@[b] as int) by {
                if j < before.len() {
                    assert(!listed_before(totals@, before[j as int] as int, o as int));
                }
                if b < j {
                    assert(order@[a] == before[a] && order@[b] == before[b]);
                } else if b == j {
                    assert(order@[a] == before[a]);
                } else if a == j {
                    assert(order@[b] == before[b - 1]);
                    if b - 1 > j {
                        assert(listed_before(totals@, before[j as int] as int, before[b - 1] as int));
                    }
                } else if a < j {
                    assert(order@[a] == before[a] && order@[b] == before[b - 1]);
                } else {
                    assert(order@[a] == before[a - 1] && order@[b] == before[b - 1]);
                }
            }
            assert forall|p: int| 0 <= p < o + 1 implies #[trigger] order@.contains(p as usize) by {
                if p == o {
                    assert(order@[j as int] == o);
                } else {
                    assert(before.contains(p as usize));
                    let w = choose|w: int| 0 <= w < before.len() && before[w] == p as usize;
                    if w < j {
                        assert(order@[w] == p as usize);
                    } else {
                        assert(order@[w + 1] == p as usize);
                    }
                }
            }
        }
        o = o + 1;
    }
    order
}

/// Tallies weighted quantified ballots over `k` options: each option's total
/// is the sum of weight times score, and the options are ranked by total.
pub fn tally_quantified(bs: &Vec<Ballot>, ws: &Vec<u64>, k: usize) -> (r: QuantifiedResult)
    requires
        bs@.len() == ws@.len(),
        bs@.len() <= u32::MAX,
        k < usize::MAX,
        forall|i: int|
            0 <= i < bs@.len() ==> match (#[trigger] bs@[i]).payload {
                BallotPayload::Quantified(s) => s@.len() <= k,
                _ => true,
            },
    ensures
        r.totals@.len() == k,
        forall|o: int| 0 <= o < k ==> #[trigger] r.totals@[o] == quantified_total(bs@, ws@, o, bs@.len()),
        r.ranks@.len() == k,
        forall|o: int| 0 <= o < k ==> #[trigger] r.ranks@[o] == rank_of(r.totals@, o),
        lists_by_total(r.totals@, r.order@),
{
    let mut totals: Vec<u128> = Vec::new();
    let mut o: usize = 0;
    while o < k
        invariant
            o <= k,
            totals@.len() == o,
            forall|p: int| 0 <= p < o ==> #[trigger] totals@[p] == 0,
        decreases k - o,
    {
        totals.push(0);
        o = o + 1;
    }
    let mut i: usize = 0;
    while i < bs.len()
        invariant
            i <= bs@.len() == ws@.len() <= u32::MAX,
            totals@.len() == k,
            forall|i: int|
                0 <= i < bs@.len() ==> match (#[trigger] bs@[i]).payload {
                    BallotPayload::Quantified(s) => s@.len() <= k,
                    _ => true,
                },
            forall|p: int| 0 <= p < k ==> #[trigger] totals@[p] == quantified_total(bs@, ws@, p, i as nat),
            forall|p: int| 0 <= p < k ==> #[trigger] totals@[p] <= i * MAX_WEIGHTED_SCORE,
        decreases bs@.len() - i,
    {
        let w = ws[i];
        match &bs[i].payload {
            BallotPayload::Quantified(s) => {
                let ghost before = totals@;
                let mut j: usize = 0;
                while j < s.len()
                    invariant
                        i < bs@.len() == ws@.len() <= u32::MAX,
                        w == ws@[i as int],
                        bs@[i as int].payload == BallotPayload::Quantified(*s),
                        s@.len() <= k,
                        j <= s@.len(),
                        totals@.len() == k,
                        forall|p: int| 0 <= p < j ==> #[trigger] totals@[p] == before[p] + w * s@[p],
                        forall|p: int| j <= p < k ==> #[trigger] totals@[p] == before[p],
                        forall|p: int| 0 <= p < k ==> #[trigger] before[p] <= i * MAX_WEIGHTED_SCORE,
                    decreases s@.len() - j,
                {
                    let sc = s[j];
                    proof {
                        assert(w as int * sc as int <= MAX_WEIGHTED_SCORE) by (nonlinear_arith)
                            requires
                                w <= 0xffff_ffff_ffff_ffffu64,
                                sc <= 0xffff_ffffu32,
                        ;
                        assert(i * MAX_WEIGHTED_SCORE + MAX_WEIGHTED_SCORE <= u128::MAX);
                    }
                    totals.set(j, totals[j] + w as u128 * sc as u128);
                    j = j + 1;
                }
                proof {
                    assert forall|p: int| 0 <= p < k implies #[trigger] totals@[p] == quantified_total(
                        bs@,
                        ws@,
                        p,
                        i as nat + 1,
                    ) && totals@[p] <= (i + 1) * MAX_WEIGHTED_SCORE by {
                        assert(score_of(bs@[i as int], p) == if p < s@.len() {
                            s@[p] as int
                        } else {
                            0
                        });
                        if p < s@.len() {
                            let sc = s@[p];
                            assert(w as int * sc as int <= MAX_WEIGHTED_SCORE) by (nonlinear_arith)
                                requires
                                    w <= 0xffff_ffff_ffff_ffffu64,
                                    sc <= 0xffff_ffffu32,
                            ;
                        }
                    }
                }
            },
            _ => {
                proof {
                    assert forall|p: int| 0 <= p < k implies #[trigger] totals@[p] == quantified_total(
                        bs@,
                        ws@,
                        p,
                        i as nat + 1,
                    ) by {
                        assert(score_of(bs@[i as int], p) == 0);
                    }
                }
            },
        }
        i = i + 1;
    }
    let ranks = ranks_of(&totals);
    let order = order_by_total(&totals);
    QuantifiedResult { totals, ranks, order }
}

} // verus!
