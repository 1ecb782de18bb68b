use vstd::prelude::*;
use vstd::set_lib::*;

use crate::model::{Delegation, Topic, VoteError};

verus! {

/// A delegation graph on one topic: entry `v` is the delegate of voter `v`,
/// if `v` delegates at all.  Every voter has at most one out-edge.
pub open spec fn graph_wf(g: Seq<Option<usize>>) -> bool {
    forall|v: int| 0 <= v < g.len() && #[trigger] g[v] is Some ==> g[v].unwrap() < g.len()
}

/// A voter who delegates to nobody.
pub open spec fn is_root(g: Seq<Option<usize>>, x: int) -> bool {
    g[x] is None
}

/// One step along the out-edge of `x`; a root stays where it is.
pub open spec fn step(g: Seq<Option<usize>>, x: int) -> int {
    match g[x] {
        Some(y) => y as int,
        None => x,
    }
}

/// Where `k` steps along the delegation chain of `v` lead.
pub open spec fn walk(g: Seq<Option<usize>>, v: int, k: nat) -> int
    decreases k,
{
    if k == 0 {
        v
    } else {
        step(g, walk(g, v, (k - 1) as nat))
    }
}

/// The chain of `v` ends at a voter who delegates to nobody.
pub open spec fn reaches_root(g: Seq<Option<usize>>, v: int) -> bool {
    exists|k: nat| is_root(g, #[trigger] walk(g, v, k))
}

/// The terminal delegate of `v`: the end of its chain, or `v` itself when
/// the chain runs into a cycle and so never ends.
pub open spec fn terminal(g: Seq<Option<usize>>, v: int) -> int {
    if reaches_root(g, v) {
        walk(g, v, choose|k: nat| is_root(g, #[trigger] walk(g, v, k)))
    } else {
        v
    }
}

/// The number of voters among the first `m` whose terminal delegate is `v`.
pub open spec fn count_terminal_at(g: Seq<Option<usize>>, v: int, m: nat) -> nat
    decreases m,
{
    if m == 0 {
        0
    } else {
        count_terminal_at(g, v, (m - 1) as nat) + if terminal(g, m - 1) == v {
            1nat
        } else {
            0nat
        }
    }
}

/// The effective weight of `v`: how many voters (itself included) it votes for.
pub open spec fn weight(g: Seq<Option<usize>>, v: int) -> nat {
    count_terminal_at(g, v, g.len())
}

/// The sum of the weights of the voters below `m`.
pub open spec fn weight_sum(g: Seq<Option<usize>>, m: nat) -> nat
    decreases m,
{
    if m == 0 {
        0
    } else {
        weight_sum(g, (m - 1) as nat) + weight(g, m - 1)
    }
}

/// `v` lies on a cycle of delegations.
pub open spec fn on_cycle(g: Seq<Option<usize>>, v: int) -> bool {
    g[v] is Some && exists|k: nat| k >= 1 && #[trigger] walk(g, v, k) == v
}

pub proof fn lemma_walk_in_range(g: Seq<Option<usize>>, v: int, k: nat)
    requires
        graph_wf(g),
        0 <= v < g.len(),
    ensures
        0 <= walk(g, v, k) < g.len(),
    decreases k,
{
    if k > 0 {
        lemma_walk_in_range(g, v, (k - 1) as nat);
    }
}

pub proof fn lemma_walk_add(g: Seq<Option<usize>>, v: int, a: nat, b: nat)
    ensures
        walk(g, v, a + b) == walk(g, walk(g, v, a), b),
    decreases b,
{
    if b > 0 {
        lemma_walk_add(g, v, a, (b - 1) as nat);
        assert(walk(g, v, a + b) == step(g, walk(g, v, (a + b - 1) as nat)));
    }
}

/// Once a chain reaches a root it stays there.
pub proof fn lemma_root_stays(g: Seq<Option<usize>>, v: int, a: nat, b: nat)
    requires
        is_root(g, walk(g, v, a)),
        a <= b,
    ensures
        walk(g, v, b) == walk(g, v, a),
    decreases b,
{
    if b > a {
        lemma_root_stays(g, v, a, (b - 1) as nat);
    }
}

/// Any root that a chain reaches is its terminal delegate.
pub proof fn lemma_terminal_is_root(g: Seq<Option<usize>>, v: int, k: nat)
    requires
        is_root(g, walk(g, v, k)),
    ensures
        reaches_root(g, v),
        terminal(g, v) == walk(g, v, k),
        is_root(g, terminal(g, v)),
{
    assert(reaches_root(g, v));
    let j = choose|j: nat| is_root(g, #[trigger] walk(g, v, j));
    if j <= k {
        lemma_root_stays(g, v, j, k);
    } else {
        lemma_root_stays(g, v, k, j);
    }
}

/// A voter along the chain of `u` shares its terminal, when the chain ends.
pub proof fn lemma_terminal_along(g: Seq<Option<usize>>, u: int, j: nat)
    requires
        (forall|m: nat| m < j ==> !is_root(g, #[trigger] walk(g, u, m))),
    ensures
        reaches_root(g, u) == reaches_root(g, walk(g, u, j)),
        reaches_root(g, u) ==> terminal(g, u) == terminal(g, walk(g, u, j)),
{
    let x = walk(g, u, j);
    if reaches_root(g, x) {
        let k = choose|k: nat| is_root(g, #[trigger] walk(g, x, k));
        lemma_walk_add(g, u, j, k);
        lemma_terminal_is_root(g, u, j + k);
        lemma_terminal_is_root(g, x, k);
    }
    if reaches_root(g, u) {
        let k = choose|k: nat| is_root(g, #[trigger] walk(g, u, k));
        if k >= j {
            lemma_walk_add(g, u, j, (k - j) as nat);
            lemma_terminal_is_root(g, x, (k - j) as nat);
        }
    }
}

/// A chain that comes back to a voter it has passed never reaches a root.
pub proof fn lemma_loop_never_roots(g: Seq<Option<usize>>, v: int, j: nat, k: nat, m: nat)
    requires
        j < k,
        walk(g, v, k) == walk(g, v, j),
        (forall|i: nat| i < k ==> !is_root(g, #[trigger] walk(g, v, i))),
    ensures
        !is_root(g, walk(g, v, m)),
    decreases m,
{
    if m >= k {
        let d = (k - j) as nat;
        lemma_walk_add(g, v, k, (m - k) as nat);
        lemma_walk_add(g, v, j, (m - k) as nat);
        assert(walk(g, v, m) == walk(g, v, (m - d) as nat));
        lemma_loop_never_roots(g, v, j, k, (m - d) as nat);
    }
}

/// A voter on a cycle never reaches a root.
pub proof fn lemma_cycle_never_roots(g: Seq<Option<usize>>, v: int)
    requires
        on_cycle(g, v),
    ensures
        !reaches_root(g, v),
{
    let k = choose|k: nat| k >= 1 && #[trigger] walk(g, v, k) == v;
    if reaches_root(g, v) {
        let m = choose|m: nat| is_root(g, #[trigger] walk(g, v, m));
        // the first root on the chain comes before step k
        assert forall|i: nat| i < k implies !is_root(g, #[trigger] walk(g, v, i)) by {
            if is_root(g, walk(g, v, i)) {
                lemma_root_stays(g, v, i, k);
            }
        }
        assert(walk(g, v, 0) == v);
        lemma_loop_never_roots(g, v, 0, k, m);
    }
}

/// What a walk from one voter found: `Some(r)` when the chain ends at the
/// root `r`, `None` when it runs into a cycle.
pub open spec fn chain_outcome(g: Seq<Option<usize>>, v: int, res: Option<usize>) -> bool {
    &&& reaches_root(g, v) == res is Some
    &&& res is Some ==> terminal(g, v) == res.unwrap() as int
}

/// The terminal delegate of every voter of the graph `g`.
///
/// Each chain is walked once: a voter whose terminal is known is not walked
/// again, so the work is linear in the number of voters.
pub fn terminals(g: &Vec<Option<usize>>) -> (term: Vec<usize>)
    requires
        graph_wf(g@),
    ensures
        term@.len() == g@.len(),
        forall|v: int| 0 <= v < g@.len() ==> #[trigger] term@[v] as int == terminal(g@, v),
{
    let n = g.len();
    // 0: not yet seen; 1: on the chain being walked; 2: resolved
    let mut state: Vec<u8> = Vec::new();
    let mut term: Vec<usize> = Vec::new();
    let mut rooted: Vec<bool> = Vec::new();
    let ghost mut fresh: Set<int> = set_int_range(0, n as int);
    proof {
        lemma_int_range(0, n as int);
    }
    let mut i: usize = 0;
    while i < n
        invariant
            i <= n == g@.len(),
            graph_wf(g@),
            state@.len() == i,
            term@.len() == i,
            rooted@.len() == i,
            fresh.finite(),
            forall|y: int| fresh.contains(y) <==> (0 <= y < i && state@[y] == 0) || (i <= y < n),
            forall|y: int| 0 <= y < i ==> state@[y] == 0 || state@[y] == 2,
            forall|y: int| 0 <= y < i && state@[y] == 0 ==> g@[y] is Some,
            forall|y: int|
                0 <= y < i && #[trigger] state@[y] == 2 ==> term@[y] as int == terminal(g@, y)
                    && rooted@[y] == reaches_root(g@, y),
        decreases n - i,
    {
        match g[i] {
            None => {
                proof {
                    assert(is_root(g@, walk(g@, i as int, 0)));
                    lemma_terminal_is_root(g@, i as int, 0);
                    fresh = fresh.remove(i as int);
                }
                state.push(2);
                rooted.push(true);
            },
            Some(_) => {
                state.push(0);
                rooted.push(false);
            },
        }
        term.push(i);
        i = i + 1;
    }
    let mut v: usize = 0;
    while v < n
        invariant
            v <= n == g@.len(),
            graph_wf(g@),
            state@.len() == n,
            term@.len() == n,
            rooted@.len() == n,
            fresh.finite(),
            forall|y: int| fresh.contains(y) <==> 0 <= y < n && state@[y] == 0,
            forall|y: int| 0 <= y < n ==> state@[y] == 0 || state@[y] == 2,
            forall|y: int| 0 <= y < v ==> state@[y] == 2,
            forall|y: int| 0 <= y < n && state@[y] == 0 ==> g@[y] is Some,
            forall|y: int|
                0 <= y < n && #[trigger] state@[y] == 2 ==> term@[y] as int == terminal(g@, y)
                    && rooted@[y] == reaches_root(g@, y),
        decreases n - v,
    {
        if state[v] == 0 {
            let mut path: Vec<usize> = Vec::new();
            let mut x: usize = v;
            let mut res: Option<usize> = None;
            loop
                invariant
                    graph_wf(g@),
                    v < n == g@.len(),
                    x < n,
                    state@.len() == n,
                    term@.len() == n,
                    rooted@.len() == n,
                    fresh.finite(),
                    forall|y: int| fresh.contains(y) <==> 0 <= y < n && state@[y] == 0,
                    forall|y: int| 0 <= y < n ==> state@[y] <= 2,
                    forall|y: int| 0 <= y < n && state@[y] == 0 ==> g@[y] is Some,
                    forall|y: int| 0 <= y < n ==> (state@[y] == 1 <==> path@.contains(y as usize)),
                    forall|y: int|
                        0 <= y < v ==> state@[y] == 2,
                    forall|y: int|
                        0 <= y < n && #[trigger] state@[y] == 2 ==> term@[y] as int == terminal(
                            g@,
                            y,
                        ) && rooted@[y] == reaches_root(g@, y),
                    x as int == walk(g@, v as int, path@.len() as nat),
                    path@.len() == 0 ==> state@[v as int] == 0,
                    forall|k: int|
                        0 <= k < path@.len() ==> #[trigger] path@[k] as int == walk(
                            g@,
                            v as int,
                            k as nat,
                        ),
                    forall|k: int| 0 <= k < path@.len() ==> #[trigger] path@[k] < n,
                    forall|k: nat|
                        k < path@.len() ==> !is_root(g@, #[trigger] walk(g@, v as int, k)),
                ensures
                    state@[x as int] >= 1,
                    state@[x as int] == 2 ==> res == (if rooted@[x as int] {
                        Some(term@[x as int])
                    } else {
                        None::<usize>
                    }),
                    state@[x as int] == 1 ==> res is None,
                decreases fresh.len(),
            {
                if state[x] == 2 {
                    res = if rooted[x] {
                        Some(term[x])
                    } else {
                        None
                    };
                    break ;
                } else if state[x] == 1 {
                    res = None;
                    break ;
                } else {
                    let y = g[x].unwrap();
                    proof {
                        assert(walk(g@, v as int, (path@.len() + 1) as nat) == y);
                        fresh = fresh.remove(x as int);
                    }
                    let ghost old_path = path@;
                    state.set(x, 1);
                    path.push(x);
                    proof {
                        assert forall|z: int| 0 <= z < n implies (state@[z] == 1 <==> path@.contains(z as usize)) by {
                            if z != x as int {
                                if path@.contains(z as usize) {
                                    let w = choose|w: int| 0 <= w < path@.len() && path@[w] == z as usize;
                                    if w < old_path.len() {
                                        assert(old_path[w] == z as usize);
                                    }
                                }
                                if old_path.contains(z as usize) {
                                    let w = choose|w: int| 0 <= w < old_path.len() && old_path[w] == z as usize;
                                    assert(path@[w] == z as usize);
                                }
                            } else {
                                assert(path@[path@.len() - 1] == x);
                            }
                        }
                    }
                    x = y;
                }
            }
            let ghost k = path@.len() as nat;
            proof {
                assert(path@.len() > 0);
                assert(path@[0] as int == walk(g@, v as int, 0));
                if state@[x as int] == 1 {
                    let j = choose|j: int| 0 <= j < path@.len() && path@[j] == x;
                    assert(walk(g@, v as int, j as nat) == x);
                    assert forall|m: nat| !is_root(g@, #[trigger] walk(g@, v as int, m)) by {
                        lemma_loop_never_roots(g@, v as int, j as nat, k, m);
                    }
                } else {
                    assert(state@[x as int] == 2);
                }
                assert forall|p: int| 0 <= p < k implies chain_outcome(g@, #[trigger] path@[p] as int, res) by {
                    let u = path@[p] as int;
                    lemma_walk_add(g@, v as int, p as nat, (k - p) as nat);
                    assert forall|m: nat| m < (k - p) implies !is_root(g@, #[trigger] walk(g@, u, m)) by {
                        lemma_walk_add(g@, v as int, p as nat, m);
                    }
                    lemma_terminal_along(g@, u, (k - p) as nat);
                    if state@[x as int] == 1 {
                        if reaches_root(g@, u) {
                            let m = choose|m: nat| is_root(g@, #[trigger] walk(g@, u, m));
                            lemma_walk_add(g@, v as int, p as nat, m);
                        }
                    }
                }
            }
            let mut q: usize = 0;
            while q < path.len()
                invariant
                    graph_wf(g@),
                    v < n == g@.len(),
                    state@.len() == n,
                    term@.len() == n,
                    rooted@.len() == n,
                    fresh.finite(),
                    forall|y: int| fresh.contains(y) <==> 0 <= y < n && state@[y] == 0,
                    forall|y: int| 0 <= y < n ==> state@[y] <= 2,
                    forall|y: int| 0 <= y < n && state@[y] == 0 ==> g@[y] is Some,
                    forall|y: int| 0 <= y < n ==> (state@[y] == 1 ==> path@.contains(y as usize)),
                    forall|y: int|
                        0 <= y < n && state@[y] == 1 ==> exists|p: int| q <= p < path@.len() && path@[p] == y,
                    forall|y: int|
                        0 <= y < v ==> state@[y] == 2,
                    forall|y: int|
                        0 <= y < n && #[trigger] state@[y] == 2 ==> term@[y] as int == terminal(
                            g@,
                            y,
                        ) && rooted@[y] == reaches_root(g@, y),
                    forall|p: int| 0 <= p < path@.len() ==> #[trigger] path@[p] < n,
                    forall|p: int| 0 <= p < path@.len() ==> chain_outcome(g@, #[trigger] path@[p] as int, res),
                    forall|p: int| 0 <= p < path@.len() ==> state@[#[trigger] path@[p] as int] >= 1,
                    path@.len() > 0 ==> path@[0] == v,
                    path@.len() > 0,
                    q <= path@.len(),
                    forall|p: int| 0 <= p < q ==> state@[#[trigger] path@[p] as int] == 2,
                decreases path@.len() - q,
            {
                let u = path[q];
                state.set(u, 2);
                match res {
                    Some(r) => {
                        term.set(u, r);
                        rooted.set(u, true);
                    },
                    None => {
                        term.set(u, u);
                        rooted.set(u, false);
                    },
                }
                q = q + 1;
            }
        }
        v = v + 1;
    }
    assert forall|y: int| 0 <= y < n implies #[trigger] term@[y] as int == terminal(g@, y) by {
        assert(state@[y] == 2);
    }
    term
}

/// The sum, over the voters below `vs`, of how many of the first `m`
/// voters have them as terminal delegate.
pub open spec fn terminal_count_sum(g: Seq<Option<usize>>, m: nat, vs: nat) -> nat
    decreases vs,
{
    if vs == 0 {
        0
    } else {
        terminal_count_sum(g, m, (vs - 1) as nat) + count_terminal_at(g, vs - 1, m)
    }
}

pub proof fn lemma_terminal_in_range(g: Seq<Option<usize>>, v: int)
    requires
        graph_wf(g),
        0 <= v < g.len(),
    ensures
        0 <= terminal(g, v) < g.len(),
{
    if reaches_root(g, v) {
        let k = choose|k: nat| is_root(g, #[trigger] walk(g, v, k));
        lemma_walk_in_range(g, v, k);
    }
}

proof fn lemma_count_sum_step(g: Seq<Option<usize>>, m: nat, vs: nat)
    ensures
        terminal_count_sum(g, m + 1, vs) == terminal_count_sum(g, m, vs) + if 0 <= terminal(g, m as int) < vs {
            1nat
        } else {
            0nat
        },
    decreases vs,
{
    if vs > 0 {
        lemma_count_sum_step(g, m, (vs - 1) as nat);
    }
}

proof fn lemma_count_sum_total(g: Seq<Option<usize>>, m: nat)
    requires
        graph_wf(g),
        m <= g.len(),
    ensures
        terminal_count_sum(g, m, g.len()) == m,
    decreases m,
{
    if m > 0 {
        let p = (m - 1) as nat;
        lemma_count_sum_total(g, p);
        lemma_count_sum_step(g, p, g.len());
        lemma_terminal_in_range(g, p as int);
    } else {
        lemma_count_sum_zero(g, g.len());
    }
}

proof fn lemma_count_sum_zero(g: Seq<Option<usize>>, vs: nat)
    ensures
        terminal_count_sum(g, 0, vs) == 0,
    decreases vs,
{
    if vs > 0 {
        lemma_count_sum_zero(g, (vs - 1) as nat);
    }
}

proof fn lemma_weight_sum_is_count_sum(g: Seq<Option<usize>>, vs: nat)
    ensures
        weight_sum(g, vs) == terminal_count_sum(g, g.len(), vs),
    decreases vs,
{
    if vs > 0 {
        lemma_weight_sum_is_count_sum(g, (vs - 1) as nat);
    }
}

/// Weight conservation: delegation moves voting power between voters but
/// never creates or destroys it, so the weights of all voters of a topic's
/// graph add up to the number of those voters.
pub proof fn lemma_weight_conservation(g: Seq<Option<usize>>)
    requires
        graph_wf(g),
    ensures
        weight_sum(g, g.len()) == g.len(),
{
    lemma_weight_sum_is_count_sum(g, g.len());
    lemma_count_sum_total(g, g.len());
}

proof fn lemma_count_only_self(g: Seq<Option<usize>>, v: int, m: nat)
    requires
        graph_wf(g),
        0 <= v < g.len(),
        m <= g.len(),
        g[v] is Some,
        !reaches_root(g, v),
    ensures
        count_terminal_at(g, v, m) == if v < m {
            1nat
        } else {
            0nat
        },
    decreases m,
{
    if m > 0 {
        let u = m - 1;
        lemma_count_only_self(g, v, (m - 1) as nat);
        if u != v && reaches_root(g, u) {
            let k = choose|k: nat| is_root(g, #[trigger] walk(g, u, k));
            lemma_terminal_is_root(g, u, k);
        }
    }
}

/// Cycle neutrality: a voter on a cycle of delegations keeps its own vote
/// and nobody else's, so its weight is exactly one.
pub proof fn lemma_cycle_neutral(g: Seq<Option<usize>>, v: int)
    requires
        graph_wf(g),
        0 <= v < g.len(),
        on_cycle(g, v),
    ensures
        terminal(g, v) == v,
        weight(g, v) == 1,
{
    lemma_cycle_never_roots(g, v);
    lemma_count_only_self(g, v, g.len());
}

/// How many voters, counted once each, have `v` as terminal delegate.
pub fn weights_of(g: &Vec<Option<usize>>, term: &Vec<usize>) -> (w: Vec<u64>)
    requires
        graph_wf(g@),
        term@.len() == g@.len(),
        forall|v: int| 0 <= v < g@.len() ==> #[trigger] term@[v] as int == terminal(g@, v),
    ensures
        w@.len() == g@.len(),
        forall|v: int| 0 <= v < g@.len() ==> #[trigger] w@[v] as int == weight(g@, v),
{
    let n = g.len();
    let mut w: Vec<u64> = Vec::new();
    let mut i: usize = 0;
    while i < n
        invariant
            i <= n,
            w@.len() == i,
            forall|v: int| 0 <= v < i ==> #[trigger] w@[v] == 0,
        decreases n - i,
    {
        w.push(0);
        i = i + 1;
    }
    let mut u: usize = 0;
    while u < n
        invariant
            u <= n == g@.len(),
            graph_wf(g@),
            term@.len() == n,
            forall|v: int| 0 <= v < n ==> #[trigger] term@[v] as int == terminal(g@, v),
            w@.len() == n,
            forall|v: int| 0 <= v < n ==> #[trigger] w@[v] as int == count_terminal_at(g@, v, u as nat),
            forall|v: int| 0 <= v < n ==> #[trigger] w@[v] <= u,
        decreases n - u,
    {
        let t = term[u];
        proof {
            lemma_terminal_in_range(g@, u as int);
        }
        w.set(t, w[t] + 1);
        u = u + 1;
    }
    w
}

/// The graph of the delegations of `ds` that are active on `topic` at `time`,
/// over the voters `0..n`; or the first inconsistency met, in order.
pub open spec fn build_graph(ds: Seq<Delegation>, topic: Topic, time: i64, n: nat) -> Result<
    Seq<Option<usize>>,
    VoteError,
>
    decreases ds.len(),
{
    if ds.len() == 0 {
        Ok(Seq::new(n, |v: int| None::<usize>))
    } else {
        match build_graph(ds.drop_last(), topic, time, n) {
            Err(e) => Err(e),
            Ok(g) => {
                let d = ds.last();
                if !d.active_at(topic, time) {
                    Ok(g)
                } else if d.from_principal >= n || d.to_delegate >= n {
                    Err(VoteError::UnknownOption)
                } else if g[d.from_principal as int] is Some {
                    Err(VoteError::DelegationInvariantViolation)
                } else {
                    Ok(g.update(d.from_principal as int, Some(d.to_delegate)))
                }
            },
        }
    }
}

/// The graph `g` with the out-edges of the voters marked in `direct` removed.
pub open spec fn without_edges_of(g: Seq<Option<usize>>, direct: Seq<bool>) -> Seq<Option<usize>> {
    Seq::new(g.len(), |v: int| if direct[v] { None::<usize> } else { g[v] })
}

/// A delegation on another topic, or one that has ended by `time`, leaves
/// the graph of `topic` at `time` as it is.
pub proof fn lemma_inactive_delegation_ignored(ds: Seq<Delegation>, d: Delegation, topic: Topic, time: i64, n: nat)
    requires
        !d.active_at(topic, time),
    ensures
        build_graph(ds.push(d), topic, time, n) == build_graph(ds, topic, time, n),
{
    assert(ds.push(d).drop_last() =~= ds);
}

pub proof fn lemma_build_graph_wf(ds: Seq<Delegation>, topic: Topic, time: i64, n: nat)
    ensures
        build_graph(ds, topic, time, n) is Ok ==> graph_wf(build_graph(ds, topic, time, n)->Ok_0)
            && build_graph(ds, topic, time, n)->Ok_0.len() == n,
    decreases ds.len(),
{
    if ds.len() > 0 {
        lemma_build_graph_wf(ds.drop_last(), topic, time, n);
    }
}

/// Builds the delegation graph of `topic` at `time` over `n` voters.
pub fn active_graph(topic: Topic, time: i64, n: usize, ds: &Vec<Delegation>) -> (r: Result<
    Vec<Option<usize>>,
    VoteError,
>)
    ensures
        match build_graph(ds@, topic, time, n as nat) {
            Ok(g) => r is Ok && r->Ok_0@ == g,
            Err(e) => r == Err::<Vec<Option<usize>>, VoteError>(e),
        },
{
    let mut g: Vec<Option<usize>> = Vec::new();
    let mut i: usize = 0;
    while i < n
        invariant
            i <= n,
            g@ == Seq::new(i as nat, |v: int| None::<usize>),
        decreases n - i,
    {
        g.push(None);
        i = i + 1;
        proof {
            assert(g@ =~= Seq::new(i as nat, |v: int| None::<usize>));
        }
    }
    let mut j: usize = 0;
    while j < ds.len()
        invariant
            j <= ds@.len(),
            build_graph(ds@.take(j as int), topic, time, n as nat) == Ok::<
                Seq<Option<usize>>,
                VoteError,
            >(g@),
        decreases ds@.len() - j,
    {
        let d = ds[j];
        proof {
            assert(ds@.take(j as int + 1).drop_last() =~= ds@.take(j as int));
            assert(ds@.take(j as int + 1).last() == d);
            lemma_build_graph_wf(ds@.take(j as int), topic, time, n as nat);
        }
        if d.is_active(topic, time) {
            if d.from_principal >= n || d.to_delegate >= n {
                proof {
                    lemma_build_error_stays(ds@, topic, time, n as nat, j as int + 1);
                }
                return Err(VoteError::UnknownOption);
            }
            if g[d.from_principal].is_some() {
                proof {
                    lemma_build_error_stays(ds@, topic, time, n as nat, j as int + 1);
                }
                return Err(VoteError::DelegationInvariantViolation);
            }
            g.set(d.from_principal, Some(d.to_delegate));
        }
        j = j + 1;
    }
    proof {
        assert(ds@.take(ds@.len() as int) =~= ds@);
    }
    Ok(g)
}

proof fn lemma_build_error_stays(ds: Seq<Delegation>, topic: Topic, time: i64, n: nat, j: int)
    requires
        0 <= j <= ds.len(),
        build_graph(ds.take(j), topic, time, n) is Err,
    ensures
        build_graph(ds, topic, time, n) == build_graph(ds.take(j), topic, time, n),
    decreases ds.len() - j,
{
    if j < ds.len() {
        assert(ds.take(j + 1).drop_last() =~= ds.take(j));
        lemma_build_error_stays(ds, topic, time, n, j + 1);
    } else {
        assert(ds.take(j) =~= ds);
    }
}

/// The terminal delegate and the effective weight of every voter of a graph.
#[derive(Debug)]
pub struct Resolution {
    pub terminal: Vec<usize>,
    pub weight: Vec<u64>,
}

impl Resolution {
    /// The resolution describes the graph `g` exactly.
    pub open spec fn resolves(&self, g: Seq<Option<usize>>) -> bool {
        &&& self.terminal@.len() == g.len()
        &&& self.weight@.len() == g.len()
        &&& forall|v: int| 0 <= v < g.len() ==> #[trigger] self.terminal@[v] as int == terminal(g, v)
        &&& forall|v: int| 0 <= v < g.len() ==> #[trigger] self.weight@[v] as int == weight(g, v)
    }
}

/// Resolves a graph that is already built.
pub fn resolve_graph(g: &Vec<Option<usize>>) -> (r: Resolution)
    requires
        graph_wf(g@),
    ensures
        r.resolves(g@),
        weight_sum(g@, g@.len()) == g@.len(),
{
    proof {
        lemma_weight_conservation(g@);
    }
    let terminal = terminals(g);
    let weight = weights_of(g, &terminal);
    Resolution { terminal, weight }
}

/// Resolves the delegations of `ds` that are active on `topic` at `time`
/// among the voters `0..n_voters`: for each voter, its terminal delegate
/// and its effective weight.
pub fn resolve(topic: Topic, time: i64, n_voters: usize, ds: &Vec<Delegation>) -> (r: Result<
    Resolution,
    VoteError,
>)
    ensures
        match build_graph(ds@, topic, time, n_voters as nat) {
            Ok(g) => r is Ok && r->Ok_0.resolves(g),
            Err(e) => r is Err && r->Err_0 == e,
        },
{
    proof {
        lemma_build_graph_wf(ds@, topic, time, n_voters as nat);
    }
    match active_graph(topic, time, n_voters, ds) {
        Ok(g) => Ok(resolve_graph(&g)),
        Err(e) => Err(e),
    }
}

/// Removes the out-edge of every voter marked in `direct`.
pub fn cut_edges(g: &mut Vec<Option<usize>>, direct: &Vec<bool>)
    requires
        old(g)@.len() == direct@.len(),
    ensures
        final(g)@ == without_edges_of(old(g)@, direct@),
{
    let n = g.len();
    let mut i: usize = 0;
    while i < n
        invariant
            n == g@.len() == direct@.len() == old(g)@.len(),
            i <= n,
            forall|v: int| 0 <= v < i ==> g@[v] == without_edges_of(old(g)@, direct@)[v],
            forall|v: int| i <= v < n ==> g@[v] == old(g)@[v],
        decreases n - i,
    {
        if direct[i] {
            g.set(i, None);
        }
        i = i + 1;
    }
    proof {
        assert(g@ =~= without_edges_of(old(g)@, direct@));
    }
}

pub proof fn lemma_without_edges_wf(g: Seq<Option<usize>>, direct: Seq<bool>)
    requires
        graph_wf(g),
    ensures
        graph_wf(without_edges_of(g, direct)),
{
}

} // verus!
