//! The cheapest path through a shift-register trellis.
//!
//! The state is the tail of the branch stream: a step from state `s` on branch `b` leads to
//! `(4 s + b) mod n`, where `n` is the number of states. The pair is named by its window
//! `4 s + b`. Each branch of each state names one of eight cosets, and a step costs what its
//! coset costs at that step.

use vstd::arithmetic::div_mod::{
    lemma_basic_div, lemma_div_denominator, lemma_fundamental_div_mod,
    lemma_fundamental_div_mod_converse, lemma_mod_bound,
};
use vstd::arithmetic::power2::{
    lemma2_to64, lemma_pow2_pos, lemma_pow2_strictly_increases, lemma_pow2_unfold, pow2,
};
use vstd::bits::{lemma_u64_shl_is_mul, lemma_u64_shr_is_div};
use vstd::prelude::*;

use crate::sums::{total, total_of_nothing, total_of_push};

verus! {

/// How many ones `n` has in binary.
pub open spec fn ones(n: nat) -> nat
    decreases n,
{
    if n == 0 {
        0
    } else {
        n % 2 + ones(n / 2)
    }
}

/// The coset that a state and a branch name: the parity of the whole state picks one half of
/// the eight cosets, the branch one coset of that half.
pub open spec fn coset_named(state: nat, branch: nat) -> nat {
    (ones(state) % 2) * 4 + branch
}

/// The coset that a state and a branch name.
pub fn coset_for(state: usize, branch: usize) -> (c: usize)
    requires
        branch < 4,
    ensures
        c == coset_named(state as nat, branch as nat),
        c < 8,
{
    let mut left: usize = state;
    let mut odd: bool = false;
    while left > 0
        invariant
            (ones(state as nat) % 2 == 1) == (odd != (ones(left as nat) % 2 == 1)),
        decreases left,
    {
        if left % 2 == 1 {
            odd = !odd;
        }
        left = left / 2;
    }
    if odd {
        4 + branch
    } else {
        branch
    }
}

/// A state reaches exactly the four cosets of one half, one on each branch.
pub proof fn a_state_reaches_four_cosets(state: nat, coset: nat)
    requires
        coset < 8,
    ensures
        (exists|branch: nat| branch < 4 && #[trigger] coset_named(state, branch) == coset)
            <==> coset / 4 == ones(state) % 2,
{
    if coset / 4 == ones(state) % 2 {
        assert(coset_named(state, coset % 4) == coset);
    }
}

/// `state` with bit `j` the other way.
pub open spec fn flip(state: nat, j: nat) -> nat {
    if (state / pow2(j)) % 2 == 0 {
        state + pow2(j)
    } else {
        (state - pow2(j)) as nat
    }
}

proof fn lemma_flip_halves(state: nat, j: nat)
    requires
        j > 0,
    ensures
        flip(state, j) == 2 * flip(state / 2, (j - 1) as nat) + state % 2,
{
    let p = pow2((j - 1) as nat);
    lemma_pow2_unfold(j);
    lemma_pow2_pos((j - 1) as nat);
    lemma_div_denominator(state as int, 2, p as int);
    if (state / 2 / p) % 2 != 0 {
        assert(state / 2 >= p) by {
            if state / 2 < p {
                lemma_basic_div((state / 2) as int, p as int);
            }
        }
    }
}

proof fn lemma_flip_changes_parity(state: nat, j: nat)
    ensures
        ones(flip(state, j)) % 2 != ones(state) % 2,
    decreases j,
{
    if j == 0 {
        lemma2_to64();
        assert(flip(state, 0) / 2 == state / 2);
        assert(flip(state, 0) % 2 != state % 2);
        reveal_with_fuel(ones, 2);
    } else {
        lemma_flip_halves(state, j);
        lemma_flip_changes_parity(state / 2, (j - 1) as nat);
        let f = flip(state, j);
        assert(f / 2 == flip(state / 2, (j - 1) as nat));
        assert(f % 2 == state % 2);
        reveal_with_fuel(ones, 2);
    }
}

/// Any one bit of the state picks the half: with the bit the other way, every branch names the
/// coset whose high label bit is the other way.
pub proof fn any_state_bit_picks_the_half(state: nat, j: nat, branch: nat)
    requires
        branch < 4,
    ensures
        coset_named(flip(state, j), branch) == (coset_named(state, branch) + 4) % 8,
{
    lemma_flip_changes_parity(state, j);
}

/// In a machine word, the other way is an exclusive or.
pub proof fn flipping_is_exclusive_or(state: u64, j: u64)
    requires
        j < 64,
    ensures
        flip(state as nat, j as nat) == state ^ (1u64 << j),
{
    let p = 1u64 << j;
    lemma2_to64();
    lemma_pow2_strictly_increases(j as nat, 64);
    lemma_u64_shl_is_mul(1, j);
    lemma_u64_shr_is_div(state, j);
    assert((state >> j) % 2 == 0 ==> state ^ p == state + p && state <= 0xffff_ffff_ffff_ffff - p)
        by (bit_vector)
        requires
            p == 1u64 << j,
            j < 64,
    ;
    assert((state >> j) % 2 != 0 ==> state ^ p == state - p && state >= p) by (bit_vector)
        requires
            p == 1u64 << j,
            j < 64,
    ;
}

/// The state that follows.
pub open spec fn next(n: nat, state: nat, branch: nat) -> nat {
    (state * 4 + branch) % n
}

/// The state after the first `b` branches.
pub open spec fn walk(n: nat, start: nat, branches: Seq<nat>, b: nat) -> nat
    decreases b,
{
    if b == 0 {
        start
    } else {
        next(n, walk(n, start, branches, (b - 1) as nat), branches[b - 1])
    }
}

/// What the first `b` steps of a path cost.
pub open spec fn path_cost(
    costs: Seq<Seq<int>>,
    n: nat,
    start: nat,
    branches: Seq<nat>,
    b: nat,
) -> int
    decreases b,
{
    if b == 0 {
        0
    } else {
        let before = (b - 1) as nat;
        path_cost(costs, n, start, branches, before) + costs[b - 1][coset_named(
            walk(n, start, branches, before),
            branches[b - 1],
        ) as int]
    }
}

/// A start state and a branch for each step.
pub open spec fn is_path(n: nat, start: nat, branches: Seq<nat>, len: nat) -> bool {
    &&& start < n
    &&& branches.len() == len
    &&& forall|b: int| 0 <= b < len ==> (#[trigger] branches[b]) < 4
}

/// The `i`-th of the four windows that lead to state `s`, in ascending order.
pub open spec fn window(n: nat, s: nat, i: nat) -> nat {
    s + i * n
}

/// The cost of the cheapest way into state `s` with `b` steps.
pub open spec fn reach(costs: Seq<Seq<int>>, n: nat, b: nat, s: nat) -> int
    decreases b, 0nat,
{
    if b == 0 {
        0
    } else {
        via(costs, n, (b - 1) as nat, best_window(costs, n, (b - 1) as nat, s))
    }
}

/// The cost of the cheapest way through window `w` at step `b`.
pub open spec fn via(costs: Seq<Seq<int>>, n: nat, b: nat, w: nat) -> int
    decreases b, 1nat,
{
    reach(costs, n, b, w / 4) + costs[b as int][coset_named(w / 4, w % 4) as int]
}

/// The cheaper of two windows, the first if both cost the same.
pub open spec fn cheaper(costs: Seq<Seq<int>>, n: nat, b: nat, v: nat, w: nat) -> nat
    decreases b, 2nat,
{
    if via(costs, n, b, w) < via(costs, n, b, v) {
        w
    } else {
        v
    }
}

/// The cheapest window into state `s` at step `b`, the smallest if several cost the same.
pub open spec fn best_window(costs: Seq<Seq<int>>, n: nat, b: nat, s: nat) -> nat
    decreases b, 3nat,
{
    let v1 = cheaper(costs, n, b, window(n, s, 0), window(n, s, 1));
    let v2 = cheaper(costs, n, b, v1, window(n, s, 2));
    cheaper(costs, n, b, v2, window(n, s, 3))
}

/// The branches of the cheapest way into state `s` with `b` steps.
pub open spec fn branches_into(costs: Seq<Seq<int>>, n: nat, b: nat, s: nat) -> Seq<nat>
    decreases b,
{
    if b == 0 {
        Seq::empty()
    } else {
        let w = best_window(costs, n, (b - 1) as nat, s);
        branches_into(costs, n, (b - 1) as nat, w / 4).push(w % 4)
    }
}

/// The state in which the cheapest way into state `s` with `b` steps starts.
pub open spec fn start_of(costs: Seq<Seq<int>>, n: nat, b: nat, s: nat) -> nat
    decreases b,
{
    if b == 0 {
        s
    } else {
        start_of(costs, n, (b - 1) as nat, best_window(costs, n, (b - 1) as nat, s) / 4)
    }
}

/// The cheapest of the first `k + 1` states to end in after `b` steps, the smallest if several
/// cost the same.
pub open spec fn best_end(costs: Seq<Seq<int>>, n: nat, b: nat, k: nat) -> nat
    decreases k,
{
    if k == 0 {
        0
    } else {
        let e = best_end(costs, n, b, (k - 1) as nat);
        if reach(costs, n, b, k) < reach(costs, n, b, e) {
            k
        } else {
            e
        }
    }
}

/// Where the cheapest path of all ends.
pub open spec fn end_state(costs: Seq<Seq<int>>, n: nat) -> nat {
    best_end(costs, n, costs.len(), (n - 1) as nat)
}

/// The branches of the cheapest path.
pub open spec fn best_branches(costs: Seq<Seq<int>>, n: nat) -> Seq<nat> {
    branches_into(costs, n, costs.len(), end_state(costs, n))
}

/// Where the cheapest path starts.
pub open spec fn best_start(costs: Seq<Seq<int>>, n: nat) -> nat {
    start_of(costs, n, costs.len(), end_state(costs, n))
}

/// Every window into `s` leads there from a state.
proof fn lemma_window(n: nat, s: nat, i: nat)
    requires
        n > 0,
        s < n,
        i < 4,
    ensures
        window(n, s, i) / 4 < n,
        next(n, window(n, s, i) / 4, window(n, s, i) % 4) == s,
{
    let w = window(n, s, i);
    assert(w < 4 * n) by (nonlinear_arith)
        requires
            w == s + i * n,
            s < n,
            i < 4,
    ;
    assert(w / 4 * 4 + w % 4 == w);
    lemma_fundamental_div_mod_converse(w as int, n as int, i as int, s as int);
}

/// Every step is a window into the state that it leads to.
proof fn lemma_step_is_window(n: nat, t: nat, branch: nat) -> (i: nat)
    requires
        n > 0,
        t < n,
        branch < 4,
    ensures
        i < 4,
        window(n, next(n, t, branch), i) == t * 4 + branch,
        next(n, t, branch) < n,
{
    let w = t * 4 + branch;
    lemma_fundamental_div_mod(w as int, n as int);
    lemma_mod_bound(w as int, n as int);
    let q = w as int / n as int;
    let r = w as int % n as int;
    assert(0 <= q < 4) by (nonlinear_arith)
        requires
            w == n * q + r,
            0 <= r,
            r < n,
            0 <= w < 4 * n,
            n > 0,
    ;
    assert(n * q == q * n) by (nonlinear_arith);
    q as nat
}

proof fn lemma_best_window(costs: Seq<Seq<int>>, n: nat, b: nat, s: nat)
    requires
        n > 0,
        s < n,
    ensures
        exists|i: nat| i < 4 && best_window(costs, n, b, s) == #[trigger] window(n, s, i),
        forall|i: nat|
            i < 4 ==> via(costs, n, b, best_window(costs, n, b, s)) <= via(
                costs,
                n,
                b,
                #[trigger] window(n, s, i),
            ),
{
    let w0 = window(n, s, 0);
    let w1 = window(n, s, 1);
    let w2 = window(n, s, 2);
    let w3 = window(n, s, 3);
    let v1 = cheaper(costs, n, b, w0, w1);
    let v2 = cheaper(costs, n, b, v1, w2);
    let v3 = cheaper(costs, n, b, v2, w3);
    assert(best_window(costs, n, b, s) == v3);
    assert forall|i: nat| i < 4 implies via(costs, n, b, v3) <= via(
        costs,
        n,
        b,
        #[trigger] window(n, s, i),
    ) by {
        assert(i == 0 || i == 1 || i == 2 || i == 3);
    }
}

/// The cheapest way into a state is a path that ends there and costs what it should.
proof fn lemma_traced(costs: Seq<Seq<int>>, n: nat, b: nat, s: nat)
    requires
        n > 0,
        s < n,
        b <= costs.len(),
    ensures
        is_path(n, start_of(costs, n, b, s), branches_into(costs, n, b, s), b),
        walk(n, start_of(costs, n, b, s), branches_into(costs, n, b, s), b) == s,
        path_cost(costs, n, start_of(costs, n, b, s), branches_into(costs, n, b, s), b) == reach(
            costs,
            n,
            b,
            s,
        ),
    decreases b,
{
    if b > 0 {
        let a = (b - 1) as nat;
        let w = best_window(costs, n, a, s);
        lemma_best_window(costs, n, a, s);
        let i = choose|i: nat| i < 4 && w == #[trigger] window(n, s, i);
        lemma_window(n, s, i);
        lemma_traced(costs, n, a, w / 4);
        let start = start_of(costs, n, a, w / 4);
        let short = branches_into(costs, n, a, w / 4);
        let long = short.push(w % 4);
        lemma_path_prefix(costs, n, start, short, long, a);
        assert forall|k: int| 0 <= k < b implies (#[trigger] long[k]) < 4 by {
            if k < a {
                assert(long[k] == short[k]);
            }
        }
    }
}

proof fn lemma_path_prefix(
    costs: Seq<Seq<int>>,
    n: nat,
    start: nat,
    p: Seq<nat>,
    q: Seq<nat>,
    b: nat,
)
    requires
        forall|i: int| 0 <= i < b ==> #[trigger] p[i] == q[i],
    ensures
        walk(n, start, p, b) == walk(n, start, q, b),
        path_cost(costs, n, start, p, b) == path_cost(costs, n, start, q, b),
    decreases b,
{
    if b > 0 {
        lemma_path_prefix(costs, n, start, p, q, (b - 1) as nat);
        assert(p[b - 1] == q[b - 1]);
    }
}

/// No path is cheaper than the cheapest way into the state where it ends.
proof fn lemma_no_cheaper(
    costs: Seq<Seq<int>>,
    n: nat,
    start: nat,
    branches: Seq<nat>,
    b: nat,
)
    requires
        n > 0,
        is_path(n, start, branches, costs.len()),
        b <= costs.len(),
    ensures
        walk(n, start, branches, b) < n,
        reach(costs, n, b, walk(n, start, branches, b)) <= path_cost(
            costs,
            n,
            start,
            branches,
            b,
        ),
    decreases b,
{
    if b > 0 {
        let a = (b - 1) as nat;
        lemma_no_cheaper(costs, n, start, branches, a);
        let t = walk(n, start, branches, a);
        let br = branches[b - 1];
        assert(br < 4);
        let s = next(n, t, br);
        let i = lemma_step_is_window(n, t, br);
        lemma_best_window(costs, n, a, s);
        let w = window(n, s, i);
        assert(w / 4 == t && w % 4 == br);
    }
}

proof fn lemma_best_end(costs: Seq<Seq<int>>, n: nat, b: nat, k: nat, s: nat)
    requires
        s <= k,
    ensures
        best_end(costs, n, b, k) <= k,
        reach(costs, n, b, best_end(costs, n, b, k)) <= reach(costs, n, b, s),
    decreases k,
{
    if k > 0 {
        if s < k {
            lemma_best_end(costs, n, b, (k - 1) as nat, s);
        } else {
            lemma_best_end(costs, n, b, (k - 1) as nat, 0);
        }
    }
}

/// The chosen path is a path, and no path costs less, wherever it starts.
pub proof fn chosen_path_is_optimal(
    costs: Seq<Seq<int>>,
    n: nat,
    start: nat,
    branches: Seq<nat>,
)
    requires
        n > 0,
        is_path(n, start, branches, costs.len()),
    ensures
        is_path(n, best_start(costs, n), best_branches(costs, n), costs.len()),
        path_cost(costs, n, best_start(costs, n), best_branches(costs, n), costs.len())
            <= path_cost(costs, n, start, branches, costs.len()),
{
    let b = costs.len();
    lemma_best_end(costs, n, b, (n - 1) as nat, 0);
    lemma_traced(costs, n, b, end_state(costs, n));
    lemma_no_cheaper(costs, n, start, branches, b);
    lemma_best_end(costs, n, b, (n - 1) as nat, walk(n, start, branches, b));
}

/// The chosen path is a path.
pub proof fn lemma_chosen_is_path(costs: Seq<Seq<int>>, n: nat)
    requires
        n > 0,
    ensures
        is_path(n, best_start(costs, n), best_branches(costs, n), costs.len()),
{
    lemma_best_end(costs, n, costs.len(), (n - 1) as nat, 0);
    lemma_traced(costs, n, costs.len(), end_state(costs, n));
}

/// The costs of the eight cosets at each step.
pub open spec fn cost_table(costs: Seq<[i128; 8]>) -> Seq<Seq<int>> {
    Seq::new(costs.len(), |b: int| Seq::new(8, |c: int| costs[b]@[c] as int))
}

/// The largest cost that a step may have.
pub const DEAREST: i128 = 0x4000_0000_0000_0000_0000_0000;

/// Every step costs something between nothing and `DEAREST`.
pub open spec fn costs_bounded(costs: Seq<[i128; 8]>) -> bool {
    forall|b: int, c: int|
        0 <= b < costs.len() && 0 <= c < 8 ==> 0 <= (#[trigger] costs[b]@[c]) <= DEAREST
}

proof fn lemma_reach_bound(costs: Seq<[i128; 8]>, n: nat, b: nat, s: nat)
    requires
        costs_bounded(costs),
        n > 0,
        s < n,
        b <= costs.len(),
    ensures
        0 <= reach(cost_table(costs), n, b, s) <= b * DEAREST,
    decreases b,
{
    if b > 0 {
        let a = (b - 1) as nat;
        let t = cost_table(costs);
        let w = best_window(t, n, a, s);
        lemma_best_window(t, n, a, s);
        let i = choose|i: nat| i < 4 && w == #[trigger] window(n, s, i);
        lemma_window(n, s, i);
        lemma_reach_bound(costs, n, a, w / 4);
        let c = coset_named(w / 4, w % 4) as int;
        assert(t[a as int][c] == costs[a as int]@[c]);
        assert(b * DEAREST == a * DEAREST + DEAREST) by (nonlinear_arith)
            requires
                b == a + 1,
        ;
    }
}

/// The cheapest way through window `w`, given what the states before it cost.
fn window_cost(
    costs: &Vec<[i128; 8]>,
    cost: &Vec<i128>,
    b: usize,
    w: usize,
    Ghost(n): Ghost<nat>,
) -> (d: i128)
    requires
        costs_bounded(costs@),
        b < costs.len() <= u32::MAX,
        cost.len() == n,
        0 < n <= 0x10_0000,
        w < 4 * n,
        forall|s: int|
            0 <= s < n ==> #[trigger] cost@[s] == reach(cost_table(costs@), n, b as nat, s as nat),
    ensures
        d == via(cost_table(costs@), n, b as nat, w as nat),
{
    let s: usize = w / 4;
    let c: usize = coset_for(s, w % 4);
    proof {
        lemma_reach_bound(costs@, n, b as nat, s as nat);
        assert(b * DEAREST <= 0xffff_ffff * DEAREST) by (nonlinear_arith)
            requires
                b <= 0xffff_ffff,
                DEAREST >= 0,
        ;
        assert(0 <= costs@[b as int]@[c as int] <= DEAREST);
        assert(cost@[s as int] == reach(cost_table(costs@), n, b as nat, s as nat));
    }
    cost[s] + costs[b][c]
}

/// The start state and the branches of the cheapest path through a trellis of `n` states.
#[verifier::rlimit(60)]
pub fn cheapest_path(costs: &Vec<[i128; 8]>, n: usize) -> (r: (usize, Vec<u8>))
    requires
        0 < n <= 0x10_0000,
        costs.len() <= u32::MAX,
        costs_bounded(costs@),
    ensures
        r.0 == best_start(cost_table(costs@), n as nat),
        r.0 < n,
        r.1.len() == costs.len(),
        forall|b: int|
            0 <= b < r.1.len() ==> #[trigger] r.1@[b] == best_branches(
                cost_table(costs@),
                n as nat,
            )[b] && r.1@[b] < 4,
{
    let len: usize = costs.len();
    let ghost table = cost_table(costs@);
    let mut cost: Vec<i128> = vec![0i128; n];
    let mut back: Vec<Vec<u32>> = Vec::with_capacity(len);
    let mut b: usize = 0;
    while b < len
        invariant
            b <= len == costs.len(),
            len <= u32::MAX,
            0 < n <= 0x10_0000,
            costs_bounded(costs@),
            table == cost_table(costs@),
            cost.len() == n,
            forall|s: int|
                0 <= s < n ==> #[trigger] cost@[s] == reach(table, n as nat, b as nat, s as nat),
            back.len() == b,
            forall|k: int| 0 <= k < b ==> (#[trigger] back@[k]).len() == n,
            forall|k: int, s: int|
                0 <= k < b && 0 <= s < n ==> #[trigger] back@[k]@[s] == best_window(
                    table,
                    n as nat,
                    k as nat,
                    s as nat,
                ),
        decreases len - b,
    {
        let mut after: Vec<i128> = Vec::with_capacity(n);
        let mut row: Vec<u32> = Vec::with_capacity(n);
        let mut s: usize = 0;
        while s < n
            invariant
                s <= n <= 0x10_0000,
                b < len == costs.len(),
                len <= u32::MAX,
                costs_bounded(costs@),
                table == cost_table(costs@),
                cost.len() == n,
                forall|t: int|
                    0 <= t < n ==> #[trigger] cost@[t] == reach(
                        table,
                        n as nat,
                        b as nat,
                        t as nat,
                    ),
                after.len() == s,
                row.len() == s,
                forall|t: int|
                    0 <= t < s ==> #[trigger] after@[t] == reach(
                        table,
                        n as nat,
                        (b + 1) as nat,
                        t as nat,
                    ),
                forall|t: int|
                    0 <= t < s ==> #[trigger] row@[t] == best_window(
                        table,
                        n as nat,
                        b as nat,
                        t as nat,
                    ),
            decreases n - s,
        {
            let mut best: usize = s;
            let mut best_d: i128 = window_cost(costs, &cost, b, s, Ghost(n as nat));
            let w1: usize = s + n;
            let d1: i128 = window_cost(costs, &cost, b, w1, Ghost(n as nat));
            proof {
                assert(window(n as nat, s as nat, 0) == s);
                assert(window(n as nat, s as nat, 1) == w1);
                assert(window(n as nat, s as nat, 2) == w1 + n);
                assert(window(n as nat, s as nat, 3) == w1 + n + n);
            }
            if d1 < best_d {
                best_d = d1;
                best = w1;
            }
            let w2: usize = w1 + n;
            let d2: i128 = window_cost(costs, &cost, b, w2, Ghost(n as nat));
            if d2 < best_d {
                best_d = d2;
                best = w2;
            }
            let w3: usize = w2 + n;
            let d3: i128 = window_cost(costs, &cost, b, w3, Ghost(n as nat));
            if d3 < best_d {
                best_d = d3;
                best = w3;
            }
            assert(best == best_window(table, n as nat, b as nat, s as nat));
            after.push(best_d);
            row.push(best as u32);
            s += 1;
        }
        cost = after;
        back.push(row);
        b += 1;
    }
    let mut end: usize = 0;
    let mut k: usize = 1;
    while k < n
        invariant
            1 <= k <= n,
            end < k,
            cost.len() == n,
            forall|s: int|
                0 <= s < n ==> #[trigger] cost@[s] == reach(table, n as nat, len as nat, s as nat),
            end == best_end(table, n as nat, len as nat, (k - 1) as nat),
        decreases n - k,
    {
        if cost[k] < cost[end] {
            end = k;
        }
        k += 1;
    }
    let mut branches: Vec<u8> = vec![0u8; len];
    let mut state: usize = end;
    let mut left: usize = len;
    let ghost all = best_branches(table, n as nat);
    proof {
        assert(table.len() == len);
        assert(end == end_state(table, n as nat));
        lemma_best_end(table, n as nat, len as nat, (n - 1) as nat, 0);
        lemma_traced(table, n as nat, len as nat, end as nat);
    }
    while left > 0
        invariant
            left <= len == costs.len(),
            0 < n <= 0x10_0000,
            table.len() == len,
            state < n,
            branches.len() == len,
            back.len() == len,
            forall|k: int| 0 <= k < len ==> (#[trigger] back@[k]).len() == n,
            forall|k: int, s: int|
                0 <= k < len && 0 <= s < n ==> #[trigger] back@[k]@[s] == best_window(
                    table,
                    n as nat,
                    k as nat,
                    s as nat,
                ),
            all == best_branches(table, n as nat),
            all.len() == len,
            start_of(table, n as nat, left as nat, state as nat) == best_start(table, n as nat),
            forall|b: int|
                0 <= b < left ==> #[trigger] all[b] == branches_into(
                    table,
                    n as nat,
                    left as nat,
                    state as nat,
                )[b],
            forall|b: int| left <= b < len ==> #[trigger] branches@[b] == all[b] && branches@[b] < 4,
        decreases left,
    {
        left -= 1;
        let ghost row = back@[left as int]@;
        let w: usize = back[left][state] as usize;
        proof {
            assert(row[state as int] == w);
            lemma_best_window(table, n as nat, left as nat, state as nat);
            let i = choose|i: nat|
                i < 4 && w as nat == #[trigger] window(n as nat, state as nat, i);
            lemma_window(n as nat, state as nat, i);
            let long = branches_into(table, n as nat, (left + 1) as nat, state as nat);
            let short = branches_into(table, n as nat, left as nat, (w / 4) as nat);
            lemma_traced(table, n as nat, left as nat, (w / 4) as nat);
            assert(long == short.push((w % 4) as nat));
            assert(all[left as int] == long[left as int]);
            assert forall|b: int| 0 <= b < left implies #[trigger] all[b] == short[b] by {
                assert(all[b] == long[b]);
            }
        }
        branches[left] = (w % 4) as u8;
        state = w / 4;
    }
    (state, branches)
}

// ---- What the trellis promises ----

/// The state is the tail of the branch stream: the start state and the branches after it, two
/// bits each, as one number modulo the number of states.
pub proof fn the_state_is_the_tail_of_the_stream(
    n: nat,
    start: nat,
    branches: Seq<nat>,
    b: nat,
)
    requires
        n > 0,
        start < n,
        b <= branches.len(),
    ensures
        walk(n, start, branches, b) == stream(start, branches, b) % n,
    decreases b,
{
    if b == 0 {
        vstd::arithmetic::div_mod::lemma_small_mod(start, n);
    } else {
        let c = (b - 1) as nat;
        the_state_is_the_tail_of_the_stream(n, start, branches, c);
        let x = stream(start, branches, c) as int;
        let y = branches[b - 1] as int;
        let m = n as int;
        vstd::arithmetic::div_mod::lemma_mul_mod_noop_left(x, 4, m);
        vstd::arithmetic::div_mod::lemma_add_mod_noop((x % m) * 4, y, m);
        vstd::arithmetic::div_mod::lemma_add_mod_noop(x * 4, y, m);
    }
}

/// A start state and the first `b` branches after it as one number, two bits for each branch.
pub open spec fn stream(start: nat, branches: Seq<nat>, b: nat) -> nat
    decreases b,
{
    if b == 0 {
        start
    } else {
        stream(start, branches, (b - 1) as nat) * 4 + branches[b - 1]
    }
}

/// A path costs what its steps cost: at each step the cost of the coset that the state before it
/// and its branch name.
pub proof fn a_path_costs_what_its_steps_cost(
    costs: Seq<Seq<int>>,
    n: nat,
    start: nat,
    branches: Seq<nat>,
    b: nat,
)
    ensures
        path_cost(costs, n, start, branches, b) == total(
            Seq::new(
                b,
                |i: int|
                    costs[i][coset_named(walk(n, start, branches, i as nat), branches[i]) as int],
            ),
        ),
    decreases b,
{
    let f = |i: int| costs[i][coset_named(walk(n, start, branches, i as nat), branches[i]) as int];
    if b > 0 {
        a_path_costs_what_its_steps_cost(costs, n, start, branches, (b - 1) as nat);
        assert(Seq::new(b, f) =~= Seq::new((b - 1) as nat, f).push(f(b - 1)));
        total_of_push(Seq::new((b - 1) as nat, f), f(b - 1));
    } else {
        total_of_nothing(Seq::new(0, f));
    }
}

/// The zero state names the first four cosets in order; with the parity of a state the other four
/// follow.
pub proof fn the_zero_state_names_the_first_cosets(branch: nat)
    requires
        branch < 4,
    ensures
        coset_named(0, branch) == branch,
        ones(0) == 0,
{
}

/// The number of ones: doubling a number adds none, and one more in the last place adds one.
pub proof fn ones_are_counted_digit_by_digit(n: nat)
    ensures
        ones(2 * n) == ones(n),
        ones(2 * n + 1) == ones(n) + 1,
{
    assert((2 * n) / 2 == n && (2 * n + 1) / 2 == n);
    if n == 0 {
        reveal_with_fuel(ones, 2);
    }
}

} // verus!
