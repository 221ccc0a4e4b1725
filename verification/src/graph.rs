//! A single-layer navigable small-world graph with entry points spread over the insertion
//! order, so that a search can start near any region of a clustered stream.

use vstd::prelude::*;

use crate::beam::{
    a_beam_with_room_holds_all_that_is_reachable, distinct_ids, dominated, holds, is_beam,
    is_single, lemma_beam_bound, lemma_beam_weaken, lemma_reach_start, lemma_reach_step,
    lemma_seen_bound, reaches, scored_by, scores_all, settled, Cand, Topology, Visited,
};
use crate::hnsw::search_width;
use crate::links::{
    best_ids_are_unique, is_related_once, is_relinked, lemma_sort_distinct, lemma_top_ids_full, rated,
    related_by, relates_all, relink, relinking_is_deterministic, seen_from, select_neighbors,
    sorting_is_unique, the_most_similar_candidates_are_kept, top_ids,
};
use crate::order::{in_order, is_sort_of, merge_sort, Ranked};

verus! {

/// One entry point is registered every so many insertions.
pub const ENTRY_STRIDE: usize = 256;

/// A navigable small-world graph over the nodes `0..len()`.
pub struct NswGraph {
    nodes: Vec<Vec<u32>>,
    m: usize,
    ef_c: usize,
    entries: Vec<u32>,
}

/// The graph that the neighbour lists describe.
pub open spec fn edges_of(nodes: Seq<Vec<u32>>) -> Seq<Seq<u32>> {
    Seq::new(nodes.len(), |u: int| nodes[u]@)
}

/// The entry points of a graph of `n` nodes: every `ENTRY_STRIDE`-th node from the first on.
pub open spec fn entry_points(n: nat) -> Seq<u32> {
    Seq::new((n + ENTRY_STRIDE - 1) as nat / ENTRY_STRIDE as nat, |j: int| (j * ENTRY_STRIDE) as u32)
}

/// A neighbour list of `u` in a graph of `n` nodes: at most `m` distinct nodes other than `u`.
pub open spec fn nbrs_ok(list: Seq<u32>, u: int, n: int, m: nat) -> bool {
    &&& list.len() <= m
    &&& list.no_duplicates()
    &&& forall|i: int| 0 <= i < list.len() ==> (#[trigger] list[i]) < n && list[i] != u
}

impl Topology for NswGraph {
    closed spec fn edges(&self) -> Seq<Seq<u32>> {
        edges_of(self.nodes@)
    }

    fn degree(&self, u: u32) -> (d: usize) {
        self.nodes[u as usize].len()
    }

    fn neighbor(&self, u: u32, i: usize) -> (v: u32) {
        self.nodes[u as usize][i]
    }
}

/// The position of the best candidate: the last of those with the highest similarity.
fn position_of_best(v: &Vec<Cand>) -> (i: usize)
    requires
        v.len() > 0,
    ensures
        i < v.len(),
        forall|j: int| 0 <= j < v.len() ==> (#[trigger] v@[j]).sim <= v@[i as int].sim,
        forall|j: int| i < j < v.len() ==> (#[trigger] v@[j]).sim < v@[i as int].sim,
{
    let mut best: usize = 0;
    let mut j: usize = 1;
    while j < v.len()
        invariant
            best < j <= v.len(),
            forall|q: int| 0 <= q < j ==> (#[trigger] v@[q]).sim <= v@[best as int].sim,
            forall|q: int| best < q < j ==> (#[trigger] v@[q]).sim < v@[best as int].sim,
        decreases v.len() - j,
    {
        if v[j].sim >= v[best].sim {
            best = j;
        }
        j += 1;
    }
    best
}

/// The position of the worst candidate: the first of those with the lowest similarity.
fn position_of_worst(v: &Vec<Cand>) -> (i: usize)
    requires
        v.len() > 0,
    ensures
        i < v.len(),
        forall|j: int| 0 <= j < v.len() ==> v@[i as int].sim <= (#[trigger] v@[j]).sim,
        forall|j: int| 0 <= j < i ==> v@[i as int].sim < (#[trigger] v@[j]).sim,
{
    let mut worst: usize = 0;
    let mut j: usize = 1;
    while j < v.len()
        invariant
            worst < j <= v.len(),
            forall|q: int| 0 <= q < j ==> v@[worst as int].sim <= (#[trigger] v@[q]).sim,
            forall|q: int| 0 <= q < worst ==> v@[worst as int].sim < (#[trigger] v@[q]).sim,
        decreases v.len() - j,
    {
        if v[j].sim < v[worst].sim {
            worst = j;
        }
        j += 1;
    }
    worst
}

/// `rest` is `all` without its entry `i`, in some order.
spec fn without(all: Seq<Cand>, i: int, rest: Seq<Cand>) -> bool {
    &&& 0 <= i < all.len()
    &&& rest == all.update(i, all.last()).drop_last()
}

proof fn lemma_without(all: Seq<Cand>, i: int, rest: Seq<Cand>)
    requires
        without(all, i, rest),
    ensures
        rest.len() == all.len() - 1,
        forall|j: int|
            0 <= j < rest.len() ==> #[trigger] rest[j] == all[if j == i {
                all.len() - 1
            } else {
                j
            }],
        forall|j: int|
            0 <= j < all.len() && j != i ==> #[trigger] all[j] == rest[if j == all.len() - 1 {
                i
            } else {
                j
            }],
        distinct_ids(all) ==> distinct_ids(rest),
        rest == taken(all, i),
{
    assert(rest =~= taken(all, i));
}

/// Dropping the worst entry of an overfull list leaves every settled node settled.
proof fn lemma_drop_worst(
    score: spec_fn(u32, i64) -> bool,
    all: Seq<Cand>,
    i: int,
    rest: Seq<Cand>,
    ef: nat,
)
    requires
        without(all, i, rest),
        all.len() > ef,
        forall|j: int| 0 <= j < all.len() ==> all[i].sim <= (#[trigger] all[j]).sim,
        forall|j: int| 0 <= j < all.len() ==> score((#[trigger] all[j]).id, all[j].sim),
    ensures
        forall|v: u32| #[trigger] settled(score, v, ef, all) ==> settled(score, v, ef, rest),
{
    lemma_without(all, i, rest);
    assert forall|v: u32| #[trigger] settled(score, v, ef, all) implies settled(
        score,
        v,
        ef,
        rest,
    ) by {
        if holds(all, v) {
            let j = choose|j: int| 0 <= j < all.len() && (#[trigger] all[j]).id == v;
            if j == i {
                assert(score(v, all[i].sim));
                assert(dominated(score, v, ef, rest));
            } else {
                let q = if j == all.len() - 1 {
                    i
                } else {
                    j
                };
                assert(rest[q].id == v);
            }
        } else {
            let s = choose|s: i64| #[trigger]
                score(v, s) && forall|j: int| 0 <= j < all.len() ==> s <= (#[trigger] all[j]).sim;
            assert(dominated(score, v, ef, rest));
        }
    }
}

/// A node that enters a list is settled there, and so is every node that was.
proof fn lemma_push_settles(
    score: spec_fn(u32, i64) -> bool,
    found: Seq<Cand>,
    c: Cand,
    ef: nat,
)
    requires
        found.len() < ef || exists|j: int| 0 <= j < found.len() && (#[trigger] found[j]).sim < c.sim,
    ensures
        forall|v: u32| #[trigger]
            settled(score, v, ef, found) ==> settled(score, v, ef, found.push(c)),
        settled(score, c.id, ef, found.push(c)),
{
    let next = found.push(c);
    assert(next[found.len() as int].id == c.id);
    assert forall|v: u32| #[trigger] settled(score, v, ef, found) implies settled(
        score,
        v,
        ef,
        next,
    ) by {
        if holds(found, v) {
            let j = choose|j: int| 0 <= j < found.len() && (#[trigger] found[j]).id == v;
            assert(next[j].id == v);
        } else {
            let s = choose|s: i64| #[trigger]
                score(v, s) && forall|j: int| 0 <= j < found.len() ==> s <= (#[trigger] found[j]).sim;
            let w = choose|j: int| 0 <= j < found.len() && (#[trigger] found[j]).sim < c.sim;
            assert(s <= found[w].sim);
            assert(dominated(score, v, ef, next));
        }
    }
}

// ---- The sweep, step by step ----

/// The entry at `i` is the last of those with the highest similarity.
pub open spec fn is_last_best(v: Seq<Cand>, i: int) -> bool {
    &&& 0 <= i < v.len()
    &&& forall|j: int| 0 <= j < v.len() ==> (#[trigger] v[j]).sim <= v[i].sim
    &&& forall|j: int| i < j < v.len() ==> (#[trigger] v[j]).sim < v[i].sim
}

/// The entry at `i` is the first of those with the lowest similarity.
pub open spec fn is_first_worst(v: Seq<Cand>, i: int) -> bool {
    &&& 0 <= i < v.len()
    &&& forall|j: int| 0 <= j < v.len() ==> v[i].sim <= (#[trigger] v[j]).sim
    &&& forall|j: int| 0 <= j < i ==> v[i].sim < (#[trigger] v[j]).sim
}

/// Where the best entry is.
pub open spec fn best_at(v: Seq<Cand>) -> int {
    choose|i: int| is_last_best(v, i)
}

/// Where the worst entry is.
pub open spec fn worst_at(v: Seq<Cand>) -> int {
    choose|i: int| is_first_worst(v, i)
}

/// The list without its entry `i`, whose place the last entry takes.
pub open spec fn taken(v: Seq<Cand>, i: int) -> Seq<Cand> {
    Seq::new(
        (v.len() - 1) as nat,
        |j: int|
            if j == i {
                v.last()
            } else {
                v[j]
            },
    )
}

/// The list without its worst entries, one after the other, until `ef` are left.
pub open spec fn trimmed(v: Seq<Cand>, ef: nat) -> Seq<Cand>
    decreases v.len(),
{
    if v.len() <= ef {
        v
    } else {
        trimmed(taken(v, worst_at(v)), ef)
    }
}

/// A moment of a sweep: what was found and what waits, as they are kept, and which nodes were
/// seen.
pub struct Sweep {
    pub found: Seq<Cand>,
    pub waiting: Seq<Cand>,
    pub seen: Set<int>,
}

/// Whether a node that scores `s` enters what was found.
pub open spec fn enters(found: Seq<Cand>, s: i64, ef: nat) -> bool {
    found.len() < ef || s > found[worst_at(found)].sim
}

/// The moment after the sweep met the unseen node `v` with score `s`.
pub open spec fn met(ef: nat, a: Sweep, v: u32, s: i64) -> Sweep {
    let x = Cand { sim: s, id: v };
    let seen = a.seen.insert(v as int);
    if enters(a.found, s, ef) {
        Sweep { found: trimmed(a.found.push(x), ef), waiting: a.waiting.push(x), seen }
    } else {
        Sweep { seen, ..a }
    }
}

/// The sweep comes to the node `v`; a node that was seen changes nothing.
pub open spec fn comes_to(
    score: spec_fn(u32, i64) -> bool,
    ef: nat,
    a: Sweep,
    v: u32,
    b: Sweep,
) -> bool {
    if a.seen.contains(v as int) {
        b == a
    } else {
        exists|s: i64| #[trigger] score(v, s) && b == met(ef, a, v, s)
    }
}

/// Between two moments the sweep comes to the `k`-th of `nodes`.
pub open spec fn comes_at(
    nodes: Seq<u32>,
    score: spec_fn(u32, i64) -> bool,
    ef: nat,
    mid: Seq<Sweep>,
    k: int,
) -> bool {
    comes_to(score, ef, mid[k], nodes[k], mid[k + 1])
}

/// The sweep comes to each of `nodes` in turn.
pub open spec fn is_round(
    nodes: Seq<u32>,
    score: spec_fn(u32, i64) -> bool,
    ef: nat,
    mid: Seq<Sweep>,
) -> bool {
    &&& mid.len() == nodes.len() + 1
    &&& forall|k: int| 0 <= k < nodes.len() ==> #[trigger] comes_at(nodes, score, ef, mid, k)
}

/// The sweep ends when nothing waits, or when what was found is full and beats all that waits.
pub open spec fn is_swept_out(a: Sweep, ef: nat) -> bool {
    ||| a.waiting.len() == 0
    ||| a.found.len() >= ef && (a.found.len() == 0 || a.waiting[best_at(a.waiting)].sim
        < a.found[worst_at(a.found)].sim)
}

/// The moment after the best node that waits was taken out.
pub open spec fn picked_up(a: Sweep) -> Sweep {
    Sweep { waiting: taken(a.waiting, best_at(a.waiting)), ..a }
}

/// The `i`-th step of a sweep takes the best node that waits and comes to its neighbours.
pub open spec fn moves_on(
    g: Seq<Seq<u32>>,
    score: spec_fn(u32, i64) -> bool,
    ef: nat,
    trace: Seq<Sweep>,
    i: int,
) -> bool {
    let a = trace[i];
    &&& !is_swept_out(a, ef)
    &&& exists|mid: Seq<Sweep>| #[trigger]
        is_round(g[a.waiting[best_at(a.waiting)].id as int], score, ef, mid) && mid[0] == picked_up(
            a,
        ) && mid.last() == trace[i + 1]
}

/// The starts with their scores.
pub open spec fn are_rated(
    score: spec_fn(u32, i64) -> bool,
    starts: Seq<u32>,
    all: Seq<Cand>,
) -> bool {
    &&& all.len() == starts.len()
    &&& forall|i: int|
        0 <= i < all.len() ==> (#[trigger] all[i]).id == starts[i] && score(starts[i], all[i].sim)
}

/// A sweep opens with its starts: all wait and were seen, and the best of them were found.
pub open spec fn sets_out(
    score: spec_fn(u32, i64) -> bool,
    starts: Seq<u32>,
    ef: nat,
    a: Sweep,
) -> bool {
    &&& are_rated(score, starts, a.waiting)
    &&& a.found == trimmed(a.waiting, ef)
    &&& forall|v: int| #[trigger]
        a.seen.contains(v) <==> exists|i: int| 0 <= i < starts.len() && #[trigger] starts[i] == v
}

/// `trace` is a sweep of width `ef` from `starts`, step by step.
pub open spec fn is_tour(
    g: Seq<Seq<u32>>,
    score: spec_fn(u32, i64) -> bool,
    starts: Seq<u32>,
    ef: nat,
    trace: Seq<Sweep>,
) -> bool {
    &&& trace.len() > 0
    &&& sets_out(score, starts, ef, trace[0])
    &&& forall|i: int|
        0 <= i < trace.len() - 1 ==> #[trigger] moves_on(g, score, ef, trace, i)
}

/// `out` is what a sweep of width `ef` from `starts` ends with, best first.
pub open spec fn is_swept(
    g: Seq<Seq<u32>>,
    score: spec_fn(u32, i64) -> bool,
    starts: Seq<u32>,
    ef: nat,
    out: Seq<Cand>,
) -> bool {
    exists|trace: Seq<Sweep>| #[trigger]
        is_tour(g, score, starts, ef, trace) && is_swept_out(trace.last(), ef) && is_sort_of(
            trace.last().found,
            out,
        )
}

proof fn lemma_best_at(v: Seq<Cand>, i: int)
    requires
        is_last_best(v, i),
    ensures
        best_at(v) == i,
{
    let j = best_at(v);
    assert(is_last_best(v, j));
    assert(v[i].sim <= v[j].sim);
    assert(v[j].sim <= v[i].sim);
}

proof fn lemma_worst_at(v: Seq<Cand>, i: int)
    requires
        is_first_worst(v, i),
    ensures
        worst_at(v) == i,
{
    let j = worst_at(v);
    assert(is_first_worst(v, j));
    assert(v[j].sim <= v[i].sim);
    assert(v[i].sim <= v[j].sim);
}

/// A sweep stays one when more scores are admitted for a node.
proof fn lemma_swept_weaken(
    g: Seq<Seq<u32>>,
    a: spec_fn(u32, i64) -> bool,
    b: spec_fn(u32, i64) -> bool,
    starts: Seq<u32>,
    ef: nat,
    out: Seq<Cand>,
)
    requires
        is_swept(g, a, starts, ef, out),
        forall|x: u32, s: i64| #[trigger] a(x, s) ==> b(x, s),
    ensures
        is_swept(g, b, starts, ef, out),
{
    let trace = choose|trace: Seq<Sweep>| #[trigger]
        is_tour(g, a, starts, ef, trace) && is_swept_out(trace.last(), ef) && is_sort_of(
            trace.last().found,
            out,
        );
    assert(sets_out(b, starts, ef, trace[0])) by {
        let all = trace[0].waiting;
        assert forall|i: int| 0 <= i < all.len() implies (#[trigger] all[i]).id == starts[i] && b(
            starts[i],
            all[i].sim,
        ) by {
            assert(a(starts[i], all[i].sim));
        }
    }
    assert forall|i: int| 0 <= i < trace.len() - 1 implies #[trigger] moves_on(
        g,
        b,
        ef,
        trace,
        i,
    ) by {
        assert(moves_on(g, a, ef, trace, i));
        let m = trace[i];
        let nodes = g[m.waiting[best_at(m.waiting)].id as int];
        let mid = choose|mid: Seq<Sweep>| #[trigger]
            is_round(nodes, a, ef, mid) && mid[0] == picked_up(m) && mid.last() == trace[i + 1];
        assert forall|k: int| 0 <= k < nodes.len() implies #[trigger] comes_at(
            nodes,
            b,
            ef,
            mid,
            k,
        ) by {
            assert(comes_at(nodes, a, ef, mid, k));
            if !mid[k].seen.contains(nodes[k] as int) {
                let s = choose|s: i64| #[trigger]
                    a(nodes[k], s) && mid[k + 1] == met(ef, mid[k], nodes[k], s);
                assert(b(nodes[k], s));
            }
        }
        assert(is_round(nodes, b, ef, mid));
    }
    assert(is_tour(g, b, starts, ef, trace));
}

/// One more node is come to.
proof fn lemma_round_push(
    nodes: Seq<u32>,
    score: spec_fn(u32, i64) -> bool,
    ef: nat,
    mid: Seq<Sweep>,
    v: u32,
    next: Sweep,
)
    requires
        is_round(nodes, score, ef, mid),
        comes_to(score, ef, mid.last(), v, next),
    ensures
        is_round(nodes.push(v), score, ef, mid.push(next)),
{
    let more = nodes.push(v);
    let longer = mid.push(next);
    assert forall|k: int| 0 <= k < more.len() implies #[trigger] comes_at(
        more,
        score,
        ef,
        longer,
        k,
    ) by {
        assert(longer[k] == mid[k]);
        if k < nodes.len() {
            assert(comes_at(nodes, score, ef, mid, k));
            assert(longer[k + 1] == mid[k + 1]);
            assert(more[k] == nodes[k]);
        }
    }
}

/// One more step leads on.
proof fn lemma_tour_push(
    g: Seq<Seq<u32>>,
    score: spec_fn(u32, i64) -> bool,
    starts: Seq<u32>,
    ef: nat,
    trace: Seq<Sweep>,
    mid: Seq<Sweep>,
    next: Sweep,
)
    requires
        is_tour(g, score, starts, ef, trace),
        !is_swept_out(trace.last(), ef),
        is_round(
            g[trace.last().waiting[best_at(trace.last().waiting)].id as int],
            score,
            ef,
            mid,
        ),
        mid[0] == picked_up(trace.last()),
        mid.last() == next,
    ensures
        is_tour(g, score, starts, ef, trace.push(next)),
{
    let longer = trace.push(next);
    assert forall|i: int| 0 <= i < longer.len() - 1 implies #[trigger] moves_on(
        g,
        score,
        ef,
        longer,
        i,
    ) by {
        assert(longer[i] == trace[i]);
        if i < trace.len() - 1 {
            assert(moves_on(g, score, ef, trace, i));
            let m = trace[i];
            let nodes = g[m.waiting[best_at(m.waiting)].id as int];
            let t = choose|t: Seq<Sweep>| #[trigger]
                is_round(nodes, score, ef, t) && t[0] == picked_up(m) && t.last() == trace[i + 1];
            assert(longer[i + 1] == trace[i + 1]);
            assert(is_round(nodes, score, ef, t) && t.last() == longer[i + 1]);
        } else {
            assert(trace[i] == trace.last());
            assert(longer[i + 1] == next);
        }
    }
    assert(longer[0] == trace[0]);
}

/// The state of a search; `claimed` holds the expanded nodes and the one being expanded.
spec fn search_state(
    g: Seq<Seq<u32>>,
    score: spec_fn(u32, i64) -> bool,
    starts: Seq<u32>,
    ef: nat,
    found: Seq<Cand>,
    waiting: Seq<Cand>,
    seen: Set<int>,
    expanded: Set<int>,
    claimed: Set<int>,
) -> bool {
    &&& forall|i: int|
        0 <= i < found.len() ==> {
            &&& (#[trigger] found[i]).id < g.len()
            &&& score(found[i].id, found[i].sim)
            &&& reaches(g, starts, found[i].id)
            &&& seen.contains(found[i].id as int)
            &&& claimed.contains(found[i].id as int) || waiting.contains(found[i])
        }
    &&& distinct_ids(found)
    &&& forall|j: int|
        0 <= j < waiting.len() ==> (#[trigger] waiting[j]).id < g.len() && reaches(
            g,
            starts,
            waiting[j].id,
        )
    &&& forall|v: int| #[trigger]
        seen.contains(v) ==> 0 <= v < g.len() && settled(score, v as u32, ef, found)
    &&& forall|v: int, k: int|
        expanded.contains(v) && 0 <= k < g[v].len() ==> seen.contains(#[trigger] g[v][k] as int)
}

/// Once every found node is expanded, what was found is a beam.
proof fn lemma_search_done(
    g: Seq<Seq<u32>>,
    score: spec_fn(u32, i64) -> bool,
    starts: Seq<u32>,
    ef: nat,
    found: Seq<Cand>,
    waiting: Seq<Cand>,
    seen: Set<int>,
    expanded: Set<int>,
)
    requires
        search_state(g, score, starts, ef, found, waiting, seen, expanded, expanded),
        found.len() <= ef,
        forall|i: int| 0 <= i < starts.len() ==> seen.contains(#[trigger] starts[i] as int),
        waiting.len() == 0 || forall|i: int|
            0 <= i < found.len() ==> expanded.contains((#[trigger] found[i]).id as int),
    ensures
        is_beam(g, score, starts, ef, found),
{
    assert forall|i: int| 0 <= i < found.len() implies expanded.contains(
        (#[trigger] found[i]).id as int,
    ) by {
    }
    assert forall|k: int| 0 <= k < starts.len() implies settled(
        score,
        #[trigger] starts[k],
        ef,
        found,
    ) by {
        assert(seen.contains(starts[k] as int));
    }
    assert forall|i: int, k: int|
        0 <= i < found.len() && 0 <= k < g[found[i].id as int].len() implies settled(
        score,
        #[trigger] g[found[i].id as int][k],
        ef,
        found,
    ) by {
        assert(expanded.contains(found[i].id as int));
        assert(seen.contains(g[found[i].id as int][k] as int));
    }
}

/// A sorted beam is a beam.
proof fn lemma_beam_sorted(
    g: Seq<Seq<u32>>,
    score: spec_fn(u32, i64) -> bool,
    starts: Seq<u32>,
    ef: nat,
    found: Seq<Cand>,
    out: Seq<Cand>,
)
    requires
        is_beam(g, score, starts, ef, found),
        is_sort_of(found, out),
    ensures
        is_beam(g, score, starts, ef, out),
{
    broadcast use vstd::seq_lib::group_to_multiset_ensures;

    lemma_sort_distinct(found, out);
    assert(found.to_multiset().len() == out.to_multiset().len());
    assert forall|c: Cand| #[trigger] found.contains(c) <==> out.contains(c) by {
        assert(found.to_multiset().count(c) == out.to_multiset().count(c));
    }
    assert forall|v: u32| #[trigger] settled(score, v, ef, found) implies settled(
        score,
        v,
        ef,
        out,
    ) by {
        if holds(found, v) {
            let j = choose|j: int| 0 <= j < found.len() && (#[trigger] found[j]).id == v;
            assert(found.contains(found[j]));
            let q = choose|q: int| 0 <= q < out.len() && out[q] == found[j];
            assert(out[q].id == v);
        } else {
            let s = choose|s: i64| #[trigger]
                score(v, s) && forall|j: int| 0 <= j < found.len() ==> s <= (#[trigger] found[j]).sim;
            assert forall|q: int| 0 <= q < out.len() implies s <= (#[trigger] out[q]).sim by {
                assert(out.contains(out[q]) && found.contains(out[q]));
                let j = choose|j: int| 0 <= j < found.len() && found[j] == out[q];
                assert(s <= found[j].sim);
            }
            assert(dominated(score, v, ef, out));
        }
    }
    assert forall|q: int| 0 <= q < out.len() implies {
        &&& (#[trigger] out[q]).id < g.len()
        &&& score(out[q].id, out[q].sim)
        &&& reaches(g, starts, out[q].id)
        &&& forall|k: int|
            0 <= k < g[out[q].id as int].len() ==> settled(
                score,
                #[trigger] g[out[q].id as int][k],
                ef,
                found,
            )
    } by {
        assert(out.contains(out[q]) && found.contains(out[q]));
        let j = choose|j: int| 0 <= j < found.len() && found[j] == out[q];
        assert(found[j].id < g.len());
        assert forall|k: int| 0 <= k < g[out[q].id as int].len() implies settled(
            score,
            #[trigger] g[out[q].id as int][k],
            ef,
            found,
        ) by {
            assert(settled(score, g[found[j].id as int][k], ef, found));
        }
    }
}

/// Dropping the worst entry of an overfull list keeps the state of the search.
proof fn lemma_state_drop(
    g: Seq<Seq<u32>>,
    score: spec_fn(u32, i64) -> bool,
    starts: Seq<u32>,
    ef: nat,
    all: Seq<Cand>,
    i: int,
    rest: Seq<Cand>,
    waiting: Seq<Cand>,
    seen: Set<int>,
    expanded: Set<int>,
    claimed: Set<int>,
)
    requires
        search_state(g, score, starts, ef, all, waiting, seen, expanded, claimed),
        without(all, i, rest),
        all.len() > ef,
        forall|j: int| 0 <= j < all.len() ==> all[i].sim <= (#[trigger] all[j]).sim,
    ensures
        search_state(g, score, starts, ef, rest, waiting, seen, expanded, claimed),
        rest.len() == all.len() - 1,
{
    lemma_without(all, i, rest);
    lemma_drop_worst(score, all, i, rest, ef);
}

/// A newly seen node that enters keeps the state of the search.
proof fn lemma_state_push(
    g: Seq<Seq<u32>>,
    score: spec_fn(u32, i64) -> bool,
    starts: Seq<u32>,
    ef: nat,
    found: Seq<Cand>,
    waiting: Seq<Cand>,
    seen: Set<int>,
    expanded: Set<int>,
    claimed: Set<int>,
    c: Cand,
)
    requires
        search_state(g, score, starts, ef, found, waiting, seen, expanded, claimed),
        c.id < g.len(),
        score(c.id, c.sim),
        reaches(g, starts, c.id),
        !seen.contains(c.id as int),
        found.len() < ef || exists|j: int| 0 <= j < found.len() && (#[trigger] found[j]).sim < c.sim,
    ensures
        search_state(
            g,
            score,
            starts,
            ef,
            found.push(c),
            waiting.push(c),
            seen.insert(c.id as int),
            expanded,
            claimed,
        ),
{
    let next = found.push(c);
    let queue = waiting.push(c);
    let now = seen.insert(c.id as int);
    lemma_push_settles(score, found, c, ef);
    assert(queue[waiting.len() as int] == c);
    assert forall|i: int| 0 <= i < next.len() implies claimed.contains(
        (#[trigger] next[i]).id as int,
    ) || queue.contains(next[i]) by {
        if i < found.len() {
            assert(next[i] == found[i]);
            if waiting.contains(found[i]) {
                let j = choose|j: int| 0 <= j < waiting.len() && waiting[j] == found[i];
                assert(queue[j] == found[i]);
            }
        }
    }
    assert forall|v: int| #[trigger] now.contains(v) implies 0 <= v < g.len() && settled(
        score,
        v as u32,
        ef,
        next,
    ) by {
        if v != c.id {
            assert(seen.contains(v));
        }
    }
}

/// A node has joined the graph: it links to the `m` best of `found`, a beam from the entry
/// points; each of these has it appended to its own list, cut back to the `m` closest; no
/// other list changed.
pub open spec fn is_joined(
    sim: spec_fn(u32, u32, i64) -> bool,
    before: Seq<Vec<u32>>,
    after: Seq<Vec<u32>>,
    m: nat,
    ef_c: nat,
    found: Seq<Cand>,
) -> bool {
    let id = before.len() as u32;
    &&& is_beam(edges_of(before), seen_from(sim, id), entry_points(before.len()), ef_c, found)
    &&& is_swept(edges_of(before), seen_from(sim, id), entry_points(before.len()), ef_c, found)
    &&& top_ids(found, m, after[before.len() as int]@)
    &&& forall|u: int|
        0 <= u < before.len() ==> if after[before.len() as int]@.contains(u as u32) {
            is_relinked(sim, before[u]@, u as u32, id, m, (#[trigger] after[u])@)
        } else {
            after[u]@ == before[u]@
        }
}

/// `after` is `before` with one node more. The first node has no neighbours.
pub open spec fn is_grown(
    sim: spec_fn(u32, u32, i64) -> bool,
    before: Seq<Vec<u32>>,
    after: Seq<Vec<u32>>,
    m: nat,
    ef_c: nat,
) -> bool {
    &&& after.len() == before.len() + 1
    &&& if before.len() == 0 {
        after[0]@.len() == 0
    } else {
        exists|found: Seq<Cand>| #[trigger] is_joined(sim, before, after, m, ef_c, found)
    }
}

/// What a search returns: nothing from an empty graph, else the best `k` of a beam of width
/// `max(ef, k)` from the entry points, best first.
pub open spec fn is_found(
    nodes: Seq<Vec<u32>>,
    score: spec_fn(u32, i64) -> bool,
    k: nat,
    ef: nat,
    out: Seq<u32>,
) -> bool {
    if nodes.len() == 0 {
        out.len() == 0
    } else {
        exists|found: Seq<Cand>|
            {
                &&& #[trigger] is_beam(
                    edges_of(nodes),
                    score,
                    entry_points(nodes.len()),
                    search_width(ef, k),
                    found,
                )
                &&& is_swept(
                    edges_of(nodes),
                    score,
                    entry_points(nodes.len()),
                    search_width(ef, k),
                    found,
                )
                &&& top_ids(found, k, out)
            }
    }
}

impl NswGraph {
    /// The neighbour lists.
    pub closed spec fn nodes(&self) -> Seq<Vec<u32>> {
        self.nodes@
    }

    pub closed spec fn m(&self) -> nat {
        self.m as nat
    }

    pub closed spec fn ef_c(&self) -> nat {
        self.ef_c as nat
    }

    /// Every list is well formed and capped at `m`; the entry points are where they should be.
    pub closed spec fn wf(&self) -> bool {
        &&& self.nodes@.len() <= u32::MAX
        &&& self.entries@ == entry_points(self.nodes@.len())
        &&& forall|u: int|
            0 <= u < self.nodes@.len() ==> nbrs_ok(
                (#[trigger] self.nodes@[u])@,
                u,
                self.nodes@.len() as int,
                self.m as nat,
            )
    }

    /// No node has more than `m` neighbours, links to itself, or lists a node twice.
    pub proof fn degree_is_capped(&self, u: int)
        requires
            self.wf(),
            0 <= u < self.nodes().len(),
        ensures
            nbrs_ok(self.nodes()[u]@, u, self.nodes().len() as int, self.m()),
    {
    }

    /// An empty graph that links each new node to at most `m` others, found by a search of
    /// width `ef_c`.
    pub fn new(m: usize, ef_c: usize) -> (g: Self)
        ensures
            g.wf(),
            g.nodes().len() == 0,
            g.m() == m,
            g.ef_c() == ef_c,
    {
        let g: NswGraph = NswGraph { nodes: Vec::new(), m, ef_c, entries: Vec::new() };
        assert(g.entries@ =~= entry_points(0));
        g
    }

    pub fn len(&self) -> (n: usize)
        ensures
            n == self.nodes().len(),
    {
        self.nodes.len()
    }

    pub fn is_empty(&self) -> (r: bool)
        ensures
            r == (self.nodes().len() == 0),
    {
        self.nodes.len() == 0
    }

    /// Best-first search of width `ef` from all entry points: a beam, best entry first.
    #[verifier::rlimit(60)]
    fn search_layer<F: Fn(u32) -> i64>(&self, score: &F, ef: usize) -> (out: Vec<Cand>)
        requires
            self.wf(),
            scores_all(self.nodes().len(), *score),
        ensures
            self.nodes().len() == 0 ==> out.len() == 0,
            self.nodes().len() > 0 ==> is_beam(
                edges_of(self.nodes()),
                scored_by(*score),
                entry_points(self.nodes().len()),
                ef as nat,
                out@,
            ) && is_swept(
                edges_of(self.nodes()),
                scored_by(*score),
                entry_points(self.nodes().len()),
                ef as nat,
                out@,
            ),
            out.len() <= ef,
            in_order(out@),
    {
        if self.nodes.len() == 0 {
            return Vec::new();
        }
        let ghost g = edges_of(self.nodes@);
        let ghost n = g.len() as int;
        let ghost rel = scored_by(*score);
        let ghost starts = self.entries@;
        let mut vis: Visited = Visited::new(self.nodes.len());
        vis.clear();
        let mut waiting: Vec<Cand> = Vec::new();
        let mut found: Vec<Cand> = Vec::new();
        let ghost mut seen: Set<int> = Set::empty();
        proof {
            assert(starts.no_duplicates());
            assert forall|i: int| 0 <= i < starts.len() implies (#[trigger] starts[i]) < n by {
                assert(i * ENTRY_STRIDE < n);
            }
        }
        let wide: usize = self.nodes.len();
        let mut k: usize = 0;
        while k < self.entries.len()
            invariant
                k <= self.entries.len(),
                self.wf(),
                g == edges_of(self.nodes@),
                n == g.len(),
                wide == n,
                n > 0,
                rel == scored_by(*score),
                starts == self.entries@,
                scores_all(g.len(), *score),
                starts.no_duplicates(),
                forall|i: int| 0 <= i < starts.len() ==> (#[trigger] starts[i]) < n,
                vis.wf(),
                vis.size() == n,
                forall|v: int| #[trigger] vis.seen(v) <==> seen.contains(v),
                seen.finite(),
                forall|i: int| 0 <= i < k ==> seen.contains(#[trigger] starts[i] as int),
                forall|v: int| #[trigger]
                    seen.contains(v) ==> exists|i: int| 0 <= i < k && #[trigger] starts[i] == v,
                found.len() == k,
                waiting.len() == k,
                found@ == waiting@,
                forall|i: int|
                    0 <= i < k ==> (#[trigger] waiting@[i]).id == starts[i] && rel(
                        starts[i],
                        waiting@[i].sim,
                    ),
                seen.len() == k,
                forall|v: int| #[trigger] seen.contains(v) ==> holds(found@, v as u32),
                search_state(
                    g,
                    rel,
                    starts,
                    ef as nat,
                    found@,
                    waiting@,
                    seen,
                    Set::empty(),
                    Set::empty(),
                ),
            decreases self.entries.len() - k,
        {
            let e: u32 = self.entries[k];
            proof {
                assert(starts[k as int] == e);
                if seen.contains(e as int) {
                    let i = choose|i: int| 0 <= i < k && #[trigger] starts[i] == e;
                    assert(starts[i] == starts[k as int]);
                }
            }
            if !vis.test_set(e as usize) {
                let s: i64 = score(e);
                let c: Cand = Cand { sim: s, id: e };
                let ghost found0 = found@;
                let ghost waiting0 = waiting@;
                let ghost seen0 = seen;
                waiting.push(c);
                found.push(c);
                proof {
                    assert(rel(e, s));
                    assert(starts.contains(e));
                    lemma_reach_start(g, starts, e);
                    seen = seen.insert(e as int);
                    assert forall|v: int| #[trigger] seen.contains(v) implies holds(
                        found@,
                        v as u32,
                    ) && 0 <= v < g.len() by {
                        if v == e {
                            assert(found@[k as int].id == e);
                        } else {
                            assert(seen0.contains(v));
                            let i = choose|i: int|
                                0 <= i < found0.len() && (#[trigger] found0[i]).id == v as u32;
                            assert(found@[i].id == v as u32);
                        }
                    }
                    assert forall|i: int| 0 <= i < found@.len() implies waiting@.contains(
                        #[trigger] found@[i],
                    ) by {
                        if i < found0.len() {
                            assert(found@[i] == found0[i]);
                            let j = choose|j: int| 0 <= j < waiting0.len() && waiting0[j] == found0[i];
                            assert(waiting@[j] == found0[i]);
                        } else {
                            assert(waiting@[k as int] == c);
                        }
                    }
                    assert forall|v: int| #[trigger] seen.contains(v) implies exists|i: int|
                        0 <= i < k + 1 && #[trigger] starts[i] == v by {
                        if v == e {
                            assert(starts[k as int] == v);
                        } else {
                            assert(seen0.contains(v));
                            let i = choose|i: int| 0 <= i < k && #[trigger] starts[i] == v;
                            assert(starts[i] == v);
                        }
                    }
                }
            }
            k += 1;
        }
        let ghost begun = found@;
        while found.len() > ef
            invariant
                trimmed(begun, ef as nat) == trimmed(found@, ef as nat),
                search_state(
                    g,
                    rel,
                    starts,
                    ef as nat,
                    found@,
                    waiting@,
                    seen,
                    Set::empty(),
                    Set::empty(),
                ),
            decreases found.len(),
        {
            let ghost all = found@;
            let w: usize = position_of_worst(&found);
            let _worst: Cand = found.swap_remove(w);
            proof {
                assert(without(all, w as int, found@));
                lemma_without(all, w as int, found@);
                lemma_worst_at(all, w as int);
                lemma_state_drop(
                    g,
                    rel,
                    starts,
                    ef as nat,
                    all,
                    w as int,
                    found@,
                    waiting@,
                    seen,
                    Set::empty(),
                    Set::empty(),
                );
            }
        }
        let ghost mut expanded: Set<int> = Set::empty();
        let ghost mut trace: Seq<Sweep> = seq![Sweep { found: found@, waiting: waiting@, seen }];
        proof {
            lemma_seen_bound(seen, n);
            assert forall|v: int| #[trigger] seen.contains(v) <==> exists|i: int|
                0 <= i < starts.len() && #[trigger] starts[i] == v by {
                if exists|i: int| 0 <= i < starts.len() && #[trigger] starts[i] == v {
                    let i = choose|i: int| 0 <= i < starts.len() && #[trigger] starts[i] == v;
                    assert(seen.contains(starts[i] as int));
                }
            }
            assert(sets_out(rel, starts, ef as nat, trace[0]));
            assert(is_tour(g, rel, starts, ef as nat, trace));
        }
        loop
            invariant_except_break
                trace.last() == (Sweep { found: found@, waiting: waiting@, seen }),
            invariant
                is_tour(g, rel, starts, ef as nat, trace),
                self.wf(),
                g == edges_of(self.nodes@),
                n == g.len(),
                rel == scored_by(*score),
                scores_all(g.len(), *score),
                vis.wf(),
                vis.size() == n,
                forall|v: int| #[trigger] vis.seen(v) <==> seen.contains(v),
                seen.finite(),
                seen.len() <= n,
                forall|i: int| 0 <= i < starts.len() ==> seen.contains(#[trigger] starts[i] as int),
                found.len() <= ef,
                search_state(
                    g,
                    rel,
                    starts,
                    ef as nat,
                    found@,
                    waiting@,
                    seen,
                    expanded,
                    expanded,
                ),
            ensures
                is_beam(g, rel, starts, ef as nat, found@),
                found.len() <= ef,
                is_tour(g, rel, starts, ef as nat, trace),
                is_swept_out(trace.last(), ef as nat),
                trace.last().found == found@,
            decreases n - seen.len() + waiting.len(),
        {
            if waiting.len() == 0 {
                proof {
                    lemma_search_done(g, rel, starts, ef as nat, found@, waiting@, seen, expanded);
                }
                break;
            }
            let ghost waiting0 = waiting@;
            let ghost seen0 = seen;
            let b: usize = position_of_best(&waiting);
            let c: Cand = waiting.swap_remove(b);
            proof {
                assert(without(waiting0, b as int, waiting@));
                lemma_without(waiting0, b as int, waiting@);
                lemma_best_at(waiting0, b as int);
            }
            let full: bool = found.len() >= ef;
            let mut stop: bool = full;
            if full && found.len() > 0 {
                let w: usize = position_of_worst(&found);
                stop = c.sim < found[w].sim;
                proof {
                    lemma_worst_at(found@, w as int);
                }
            }
            if stop {
                proof {
                    assert forall|i: int| 0 <= i < found@.len() implies expanded.contains(
                        (#[trigger] found@[i]).id as int,
                    ) by {
                        assert(c.sim < found@[i].sim);
                        if waiting0.contains(found@[i]) {
                            let j = choose|j: int|
                                0 <= j < waiting0.len() && waiting0[j] == found@[i];
                            assert(waiting0[j].sim <= waiting0[b as int].sim);
                        }
                    }
                    lemma_search_done(g, rel, starts, ef as nat, found@, waiting0, seen, expanded);
                }
                break;
            }
            let ghost claimed = expanded.insert(c.id as int);
            proof {
                assert(waiting0[b as int] == c);
                assert forall|i: int| 0 <= i < found@.len() implies claimed.contains(
                    (#[trigger] found@[i]).id as int,
                ) || waiting@.contains(found@[i]) by {
                    if waiting0.contains(found@[i]) {
                        let j = choose|j: int| 0 <= j < waiting0.len() && waiting0[j] == found@[i];
                        if j != b {
                            let q = if j == waiting0.len() - 1 {
                                b as int
                            } else {
                                j
                            };
                            assert(waiting@[q] == found@[i]);
                        }
                    }
                }
            }
            let deg: usize = self.nodes[c.id as usize].len();
            let mut i: usize = 0;
            let ghost nodes = g[c.id as int];
            let ghost first = Sweep { found: found@, waiting: waiting@, seen };
            let ghost mut mid: Seq<Sweep> = seq![first];
            proof {
                assert(nodes.take(0) =~= Seq::empty());
                assert(first == picked_up(trace.last()));
            }
            while i < deg
                invariant
                    nodes == g[c.id as int],
                    is_round(nodes.take(i as int), rel, ef as nat, mid),
                    mid[0] == first,
                    mid.last() == (Sweep { found: found@, waiting: waiting@, seen }),
                    self.wf(),
                    g == edges_of(self.nodes@),
                    n == g.len(),
                    rel == scored_by(*score),
                    scores_all(g.len(), *score),
                    i <= deg == g[c.id as int].len(),
                    c.id < n,
                    reaches(g, starts, c.id),
                    vis.wf(),
                    vis.size() == n,
                    forall|v: int| #[trigger] vis.seen(v) <==> seen.contains(v),
                    seen.finite(),
                    seen.len() <= n,
                    forall|v: int| #[trigger] seen0.contains(v) ==> seen.contains(v),
                    n - seen.len() + waiting.len() < n - seen0.len() + waiting0.len(),
                    claimed == expanded.insert(c.id as int),
                    found.len() <= ef,
                    ef > 0,
                    search_state(
                        g,
                        rel,
                        starts,
                        ef as nat,
                        found@,
                        waiting@,
                        seen,
                        expanded,
                        claimed,
                    ),
                    forall|q: int| 0 <= q < i ==> seen.contains(#[trigger] g[c.id as int][q] as int),
                decreases deg - i,
            {
                let nb: u32 = self.nodes[c.id as usize][i];
                proof {
                    assert(g[c.id as int][i as int] == nb);
                    assert(nbrs_ok(self.nodes@[c.id as int]@, c.id as int, n, self.m as nat));
                    assert(g[c.id as int].contains(nb));
                }
                let ghost was = mid.last();
                if !vis.test_set(nb as usize) {
                    let s: i64 = score(nb);
                    let x: Cand = Cand { sim: s, id: nb };
                    let mut goes_in: bool = found.len() < ef;
                    if !goes_in {
                        let w: usize = position_of_worst(&found);
                        goes_in = s > found[w].sim;
                        proof {
                            lemma_worst_at(found@, w as int);
                        }
                    }
                    assert(goes_in == enters(was.found, s, ef as nat));
                    let ghost found1 = found@;
                    let ghost waiting1 = waiting@;
                    let ghost seen1 = seen;
                    proof {
                        assert(rel(nb, s));
                        lemma_reach_step(g, starts, c.id, nb);
                        seen = seen.insert(nb as int);
                        lemma_seen_bound(seen, n);
                    }
                    if goes_in {
                        waiting.push(x);
                        found.push(x);
                        proof {
                            lemma_state_push(
                                g,
                                rel,
                                starts,
                                ef as nat,
                                found1,
                                waiting1,
                                seen1,
                                expanded,
                                claimed,
                                x,
                            );
                        }
                        if found.len() > ef {
                            let ghost all = found@;
                            let w: usize = position_of_worst(&found);
                            let _worst: Cand = found.swap_remove(w);
                            proof {
                                assert(without(all, w as int, found@));
                                lemma_without(all, w as int, found@);
                                lemma_worst_at(all, w as int);
                                assert(trimmed(found@, ef as nat) == found@);
                                lemma_state_drop(
                                    g,
                                    rel,
                                    starts,
                                    ef as nat,
                                    all,
                                    w as int,
                                    found@,
                                    waiting@,
                                    seen,
                                    expanded,
                                    claimed,
                                );
                            }
                        }
                        assert(found@ == trimmed(found1.push(x), ef as nat));
                    } else {
                        proof {
                            assert(dominated(rel, nb, ef as nat, found@));
                            assert forall|v: int| #[trigger] seen.contains(v) implies 0 <= v
                                < g.len() && settled(rel, v as u32, ef as nat, found@) by {
                                if v != nb {
                                    assert(seen1.contains(v));
                                }
                            }
                        }
                    }
                    assert(met(ef as nat, was, nb, s) == (Sweep {
                        found: found@,
                        waiting: waiting@,
                        seen,
                    }));
                }
                proof {
                    let next = Sweep { found: found@, waiting: waiting@, seen };
                    assert(comes_to(rel, ef as nat, was, nb, next));
                    lemma_round_push(nodes.take(i as int), rel, ef as nat, mid, nb, next);
                    assert(nodes.take(i as int).push(nb) =~= nodes.take(i + 1));
                    mid = mid.push(next);
                }
                i += 1;
            }
            proof {
                expanded = claimed;
                assert(nodes.take(i as int) =~= nodes);
                let next = Sweep { found: found@, waiting: waiting@, seen };
                lemma_tour_push(g, rel, starts, ef as nat, trace, mid, next);
                trace = trace.push(next);
            }
        }
        let out: Vec<Cand> = merge_sort(&found);
        proof {
            lemma_beam_sorted(g, rel, starts, ef as nat, found@, out@);
        }
        out
    }

    /// Adds a node: it links to the `m` best nodes of a search of width `ef_c`, and each of
    /// these links back, keeping its `m` closest. `sim` is the similarity of any two nodes,
    /// the new one included.
    #[verifier::rlimit(60)]
    pub fn insert<F: Fn(u32, u32) -> i64>(&mut self, sim: &F)
        requires
            old(self).wf(),
            old(self).nodes().len() < u32::MAX,
            relates_all(old(self).nodes().len() + 1, *sim),
        ensures
            final(self).wf(),
            final(self).m() == old(self).m(),
            final(self).ef_c() == old(self).ef_c(),
            is_grown(
                related_by(*sim),
                old(self).nodes(),
                final(self).nodes(),
                old(self).m(),
                old(self).ef_c(),
            ),
    {
        let n: usize = self.nodes.len();
        let id: u32 = n as u32;
        let ghost pre = self.nodes@;
        let ghost rel = related_by(*sim);
        if n == 0 {
            self.nodes.push(Vec::new());
            self.entries.push(0);
            proof {
                assert(self.entries@ =~= entry_points(1));
            }
            return;
        }
        let score = |i: u32| -> (r: i64)
            requires
                sim.requires((id, i)),
            ensures
                sim.ensures((id, i), r),
            { sim(id, i) };
        let found: Vec<Cand> = self.search_layer(&score, self.ef_c);
        proof {
            lemma_swept_weaken(
                edges_of(pre),
                scored_by(score),
                seen_from(rel, id),
                entry_points(pre.len()),
                self.ef_c as nat,
                found@,
            );
            lemma_beam_weaken(
                edges_of(pre),
                scored_by(score),
                seen_from(rel, id),
                entry_points(pre.len()),
                self.ef_c as nat,
                found@,
            );
        }
        let chosen: Vec<u32> = select_neighbors(&found, self.m);
        let mut own: Vec<u32> = Vec::with_capacity(chosen.len());
        let mut c: usize = 0;
        while c < chosen.len()
            invariant
                c <= chosen.len(),
                own@ == chosen@.take(c as int),
            decreases chosen.len() - c,
        {
            own.push(chosen[c]);
            c += 1;
            assert(own@ =~= chosen@.take(c as int));
        }
        assert(own@ =~= chosen@);
        proof {
            assert forall|i: int| 0 <= i < chosen@.len() implies (#[trigger] chosen@[i]) < n by {
                assert(holds(found@, chosen@[i]));
                let q = choose|q: int|
                    0 <= q < found@.len() && (#[trigger] found@[q]).id == chosen@[i];
                assert(found@[q].id < n);
            }
        }
        self.nodes.push(own);
        let mut i: usize = 0;
        while i < chosen.len()
            invariant
                i <= chosen.len(),
                n == pre.len(),
                id == n,
                n < u32::MAX,
                self.m == old(self).m,
                self.ef_c == old(self).ef_c,
                self.entries@ == old(self).entries@,
                self.nodes@.len() == n + 1,
                rel == related_by(*sim),
                relates_all((n + 1) as nat, *sim),
                chosen@.no_duplicates(),
                chosen.len() <= self.m,
                forall|j: int| 0 <= j < chosen.len() ==> (#[trigger] chosen@[j]) < n,
                forall|u: int|
                    0 <= u < n ==> nbrs_ok((#[trigger] pre[u])@, u, n as int, self.m as nat),
                self.nodes@[n as int]@ == chosen@,
                forall|j: int|
                    0 <= j < i ==> is_relinked(
                        rel,
                        pre[#[trigger] chosen@[j] as int]@,
                        chosen@[j],
                        id,
                        self.m as nat,
                        self.nodes@[chosen@[j] as int]@,
                    ),
                forall|u: int|
                    0 <= u < n ==> nbrs_ok(
                        (#[trigger] self.nodes@[u])@,
                        u,
                        n + 1,
                        self.m as nat,
                    ),
                forall|u: int|
                    0 <= u < n && !chosen@.take(i as int).contains(u as u32)
                        ==> #[trigger] self.nodes@[u] == pre[u],
            decreases chosen.len() - i,
        {
            let nb: u32 = chosen[i];
            let ghost mid = self.nodes@;
            proof {
                assert(!chosen@.take(i as int).contains(nb)) by {
                    if chosen@.take(i as int).contains(nb) {
                        let q = choose|q: int| 0 <= q < i && chosen@.take(i as int)[q] == nb;
                        assert(chosen@[q] == chosen@[i as int]);
                    }
                }
                assert(mid[nb as int] == pre[nb as int]);
                assert(nbrs_ok(pre[nb as int]@, nb as int, n as int, self.m as nat));
            }
            let list: Vec<u32> = relink(sim, &self.nodes[nb as usize], nb, id, self.m);
            let ghost before = pre[nb as int]@;
            proof {
                assert forall|q: int| 0 <= q < list@.len() implies (#[trigger] list@[q]) < n + 1
                    && list@[q] != nb by {
                    if list@[q] != id {
                        let t = choose|t: int| 0 <= t < before.len() && before[t] == list@[q];
                        assert(before[t] == list@[q]);
                    }
                }
            }
            self.nodes[nb as usize] = list;
            proof {
                let now = self.nodes@;
                let done = chosen@.take(i + 1);
                assert(done[i as int] == nb);
                assert forall|j: int| 0 <= j < i + 1 implies is_relinked(
                    rel,
                    pre[#[trigger] chosen@[j] as int]@,
                    chosen@[j],
                    id,
                    self.m as nat,
                    now[chosen@[j] as int]@,
                ) by {
                    if j < i {
                        assert(chosen@[j] != chosen@[i as int]);
                        assert(now[chosen@[j] as int] == mid[chosen@[j] as int]);
                    }
                }
                assert forall|u: int| 0 <= u < n && !done.contains(u as u32) implies #[trigger] now[u]
                    == pre[u] by {
                    assert(u != nb) by {
                        if u == nb {
                            assert(done.contains(nb));
                        }
                    }
                    if chosen@.take(i as int).contains(u as u32) {
                        let q = choose|q: int| 0 <= q < i && chosen@.take(i as int)[q] == u as u32;
                        assert(done[q] == u as u32);
                    }
                    assert(now[u] == mid[u]);
                }
            }
            i += 1;
        }
        proof {
            let post = self.nodes@;
            assert(chosen@.take(i as int) =~= chosen@);
            assert forall|u: int| 0 <= u < n implies if post[n as int]@.contains(u as u32) {
                is_relinked(rel, pre[u]@, u as u32, id, self.m as nat, (#[trigger] post[u])@)
            } else {
                post[u]@ == pre[u]@
            } by {
                if chosen@.contains(u as u32) {
                    let q = choose|q: int| 0 <= q < chosen@.len() && chosen@[q] == u as u32;
                    assert(chosen@[q] as int == u);
                }
            }
            assert(is_joined(rel, pre, post, self.m as nat, self.ef_c as nat, found@));
        }
        if n % ENTRY_STRIDE == 0 {
            self.entries.push(id);
        }
        proof {
            assert(self.entries@ =~= entry_points((n + 1) as nat));
        }
    }

    /// The ids of the best `k` nodes of a search of width `max(ef_s, k)`, best first.
    pub fn search<F: Fn(u32) -> i64>(&self, score: &F, k: usize, ef_s: usize) -> (out: Vec<u32>)
        requires
            self.wf(),
            scores_all(self.nodes().len(), *score),
        ensures
            is_found(self.nodes(), scored_by(*score), k as nat, ef_s as nat, out@),
    {
        let width: usize = if ef_s < k {
            k
        } else {
            ef_s
        };
        let found: Vec<Cand> = self.search_layer(score, width);
        let keep: usize = if k < found.len() {
            k
        } else {
            found.len()
        };
        let mut out: Vec<u32> = Vec::with_capacity(keep);
        let mut i: usize = 0;
        while i < keep
            invariant
                i <= keep <= found.len(),
                out@ == Seq::new(i as nat, |j: int| found@[j].id),
            decreases keep - i,
        {
            out.push(found[i].id);
            i += 1;
            assert(out@ =~= Seq::new(i as nat, |j: int| found@[j].id));
        }
        proof {
            assert(is_sort_of(found@, found@));
            assert(top_ids(found@, k as nat, out@));
            assert(search_width(ef_s as nat, k as nat) == width as nat);
        }
        out
    }
}

// ---- One outcome ----

proof fn lemma_round_once(
    nodes: Seq<u32>,
    score: spec_fn(u32, i64) -> bool,
    ef: nat,
    x: Seq<Sweep>,
    y: Seq<Sweep>,
    k: int,
)
    requires
        is_single(score),
        is_round(nodes, score, ef, x),
        is_round(nodes, score, ef, y),
        x[0] == y[0],
        0 <= k <= nodes.len(),
    ensures
        x[k] == y[k],
    decreases k,
{
    if k > 0 {
        lemma_round_once(nodes, score, ef, x, y, k - 1);
        assert(comes_at(nodes, score, ef, x, k - 1));
        assert(comes_at(nodes, score, ef, y, k - 1));
        let a = x[k - 1];
        let v = nodes[k - 1];
        if !a.seen.contains(v as int) {
            let s = choose|s: i64| #[trigger] score(v, s) && x[k] == met(ef, a, v, s);
            let t = choose|t: i64| #[trigger] score(v, t) && y[k] == met(ef, a, v, t);
            assert(s == t);
        }
    }
}

proof fn lemma_tour_once(
    g: Seq<Seq<u32>>,
    score: spec_fn(u32, i64) -> bool,
    starts: Seq<u32>,
    ef: nat,
    x: Seq<Sweep>,
    y: Seq<Sweep>,
    i: int,
)
    requires
        is_single(score),
        is_tour(g, score, starts, ef, x),
        is_tour(g, score, starts, ef, y),
        0 <= i < x.len(),
        i < y.len(),
    ensures
        x[i] == y[i],
    decreases i,
{
    if i == 0 {
        let a = x[0].waiting;
        let b = y[0].waiting;
        assert forall|k: int| 0 <= k < a.len() implies a[k] == b[k] by {
            assert(a[k].id == starts[k] && b[k].id == starts[k]);
            assert(score(starts[k], a[k].sim) && score(starts[k], b[k].sim));
        }
        assert(a =~= b);
        assert(x[0].seen =~= y[0].seen);
    } else {
        lemma_tour_once(g, score, starts, ef, x, y, i - 1);
        assert(moves_on(g, score, ef, x, i - 1) && moves_on(g, score, ef, y, i - 1));
        let a = x[i - 1];
        let nodes = g[a.waiting[best_at(a.waiting)].id as int];
        let p = choose|mid: Seq<Sweep>| #[trigger]
            is_round(nodes, score, ef, mid) && mid[0] == picked_up(a) && mid.last() == x[i];
        let q = choose|mid: Seq<Sweep>| #[trigger]
            is_round(nodes, score, ef, mid) && mid[0] == picked_up(a) && mid.last() == y[i];
        lemma_round_once(nodes, score, ef, p, q, nodes.len() as int);
    }
}

/// Where every node has one score, a sweep has one outcome.
pub proof fn a_sweep_has_one_outcome(
    g: Seq<Seq<u32>>,
    score: spec_fn(u32, i64) -> bool,
    starts: Seq<u32>,
    ef: nat,
    a: Seq<Cand>,
    b: Seq<Cand>,
)
    requires
        is_single(score),
        is_swept(g, score, starts, ef, a),
        is_swept(g, score, starts, ef, b),
    ensures
        a == b,
{
    let x = choose|trace: Seq<Sweep>| #[trigger]
        is_tour(g, score, starts, ef, trace) && is_swept_out(trace.last(), ef) && is_sort_of(
            trace.last().found,
            a,
        );
    let y = choose|trace: Seq<Sweep>| #[trigger]
        is_tour(g, score, starts, ef, trace) && is_swept_out(trace.last(), ef) && is_sort_of(
            trace.last().found,
            b,
        );
    if x.len() < y.len() {
        lemma_tour_once(g, score, starts, ef, x, y, x.len() - 1);
        assert(moves_on(g, score, ef, y, x.len() - 1));
    } else if y.len() < x.len() {
        lemma_tour_once(g, score, starts, ef, x, y, y.len() - 1);
        assert(moves_on(g, score, ef, x, y.len() - 1));
    } else {
        lemma_tour_once(g, score, starts, ef, x, y, x.len() - 1);
        sorting_is_unique(x.last().found, a, b);
    }
}

/// Where every node has one score, a search of the graph has one answer.
pub proof fn a_search_has_one_answer(
    nodes: Seq<Vec<u32>>,
    score: spec_fn(u32, i64) -> bool,
    k: nat,
    ef: nat,
    a: Seq<u32>,
    b: Seq<u32>,
)
    requires
        is_single(score),
        is_found(nodes, score, k, ef, a),
        is_found(nodes, score, k, ef, b),
    ensures
        a == b,
{
    if nodes.len() == 0 {
        assert(a =~= b);
    } else {
        let g = edges_of(nodes);
        let starts = entry_points(nodes.len());
        let w = search_width(ef, k);
        let x = choose|found: Seq<Cand>|
            {
                &&& #[trigger] is_beam(g, score, starts, w, found)
                &&& is_swept(g, score, starts, w, found)
                &&& top_ids(found, k, a)
            };
        let y = choose|found: Seq<Cand>|
            {
                &&& #[trigger] is_beam(g, score, starts, w, found)
                &&& is_swept(g, score, starts, w, found)
                &&& top_ids(found, k, b)
            };
        a_sweep_has_one_outcome(g, score, starts, w, x, y);
        best_ids_are_unique(x, k, a, b);
    }
}

/// Where every pair has one similarity, a graph grows in one way.
pub proof fn growth_is_deterministic(
    sim: spec_fn(u32, u32, i64) -> bool,
    before: Seq<Vec<u32>>,
    a: Seq<Vec<u32>>,
    b: Seq<Vec<u32>>,
    m: nat,
    ef_c: nat,
)
    requires
        is_related_once(sim),
        before.len() < u32::MAX,
        is_grown(sim, before, a, m, ef_c),
        is_grown(sim, before, b, m, ef_c),
    ensures
        edges_of(a) == edges_of(b),
{
    let n = before.len() as int;
    if n == 0 {
        assert(a[0]@ =~= b[0]@);
    } else {
        let id = n as u32;
        let score = seen_from(sim, id);
        assert(is_single(score)) by {
            assert forall|v: u32, p: i64, q: i64| #[trigger] score(v, p) && #[trigger] score(
                v,
                q,
            ) implies p == q by {
                assert(sim(id, v, p) && sim(id, v, q));
            }
        }
        let x = choose|found: Seq<Cand>| #[trigger] is_joined(sim, before, a, m, ef_c, found);
        let y = choose|found: Seq<Cand>| #[trigger] is_joined(sim, before, b, m, ef_c, found);
        a_sweep_has_one_outcome(
            edges_of(before),
            score,
            entry_points(before.len()),
            ef_c,
            x,
            y,
        );
        best_ids_are_unique(x, m, a[n]@, b[n]@);
        assert forall|u: int| 0 <= u < n implies (#[trigger] a[u])@ == b[u]@ by {
            if a[n]@.contains(u as u32) {
                assert(is_relinked(sim, before[u]@, u as u32, id, m, a[u]@));
                assert(is_relinked(sim, before[u]@, u as u32, id, m, b[u]@));
                relinking_is_deterministic(sim, before[u]@, u as u32, id, m, a[u]@, b[u]@);
            }
        }
    }
    assert forall|u: int| 0 <= u < a.len() implies edges_of(a)[u] == edges_of(b)[u] by {
        assert(a[u]@ == b[u]@);
    }
    assert(edges_of(a) =~= edges_of(b));
}

// ---- What the graph promises ----

/// `v` is one of `out`, or `out` has `k` nodes and none of them scores lower than `v`.
pub open spec fn is_outdone(
    score: spec_fn(u32, i64) -> bool,
    k: nat,
    out: Seq<u32>,
    v: u32,
) -> bool {
    out.contains(v) || (out.len() == k && forall|i: int, s: i64, t: i64|
        0 <= i < out.len() && #[trigger] score(v, s) && #[trigger] score(out[i], t) ==> s <= t)
}

proof fn lemma_held_is_outdone(
    g: Seq<Seq<u32>>,
    score: spec_fn(u32, i64) -> bool,
    starts: Seq<u32>,
    w: nat,
    k: nat,
    found: Seq<Cand>,
    out: Seq<u32>,
    v: u32,
)
    requires
        is_single(score),
        is_beam(g, score, starts, w, found),
        top_ids(found, k, out),
        holds(found, v),
    ensures
        is_outdone(score, k, out, v),
{
    let q = choose|q: int| 0 <= q < found.len() && (#[trigger] found[q]).id == v;
    the_most_similar_candidates_are_kept(found, k, out, q);
    if !out.contains(v) {
        assert forall|i: int, s: i64, t: i64|
            0 <= i < out.len() && #[trigger] score(v, s) && #[trigger] score(
                out[i],
                t,
            ) implies s <= t by {
            let j = choose|j: int| 0 <= j < found.len() && #[trigger] found[j].id == out[i];
            assert(out.contains(found[j].id));
            assert(score(found[j].id, found[j].sim));
            assert(score(found[q].id, found[q].sim));
        }
    }
}

proof fn lemma_settled_is_outdone(
    g: Seq<Seq<u32>>,
    score: spec_fn(u32, i64) -> bool,
    starts: Seq<u32>,
    w: nat,
    k: nat,
    found: Seq<Cand>,
    out: Seq<u32>,
    v: u32,
)
    requires
        is_single(score),
        is_beam(g, score, starts, w, found),
        top_ids(found, k, out),
        k <= w,
        settled(score, v, w, found),
    ensures
        is_outdone(score, k, out, v),
{
    if found.len() == 0 {
        if !holds(found, v) {
            assert(w == 0);
            let sorted = choose|sorted: Seq<Cand>| #[trigger]
                is_sort_of(found, sorted) && out == Seq::new(
                    if k < sorted.len() {
                        k
                    } else {
                        sorted.len()
                    },
                    |i: int| sorted[i].id,
                );
            assert(out.len() == 0);
        }
    } else if holds(found, v) {
        lemma_held_is_outdone(g, score, starts, w, k, found, out, v);
    } else {
        let s0 = choose|s: i64| #[trigger]
            score(v, s) && forall|i: int| 0 <= i < found.len() ==> s <= (#[trigger] found[i]).sim;
        the_most_similar_candidates_are_kept(found, k, out, 0);
        lemma_top_ids_full(found, k, out);
        assert forall|i: int, s: i64, t: i64|
            0 <= i < out.len() && #[trigger] score(v, s) && #[trigger] score(out[i], t) implies s
            <= t by {
            let j = choose|j: int| 0 <= j < found.len() && #[trigger] found[j].id == out[i];
            assert(score(found[j].id, found[j].sim));
            assert(s0 <= found[j].sim);
        }
    }
}

/// A search returns at most `k` different nodes of the graph, those that score higher first and
/// of equal ones the later.
pub proof fn found_nodes_are_ranked(
    nodes: Seq<Vec<u32>>,
    score: spec_fn(u32, i64) -> bool,
    k: nat,
    ef: nat,
    out: Seq<u32>,
    i: int,
    j: int,
)
    requires
        is_single(score),
        is_found(nodes, score, k, ef, out),
        0 <= i < j < out.len(),
    ensures
        out.len() <= k,
        out[i] < nodes.len(),
        out[j] < nodes.len(),
        out[i] != out[j],
        exists|s: i64, t: i64|
            #[trigger] score(out[i], s) && #[trigger] score(out[j], t) && s >= t && (s == t
                ==> out[i] > out[j]),
{
    broadcast use vstd::seq_lib::group_to_multiset_ensures;

    let g = edges_of(nodes);
    let w = search_width(ef, k);
    let found = choose|found: Seq<Cand>|
        {
            &&& #[trigger] is_beam(g, score, entry_points(nodes.len()), w, found)
            &&& is_swept(g, score, entry_points(nodes.len()), w, found)
            &&& top_ids(found, k, out)
        };
    let sorted = choose|sorted: Seq<Cand>| #[trigger]
        is_sort_of(found, sorted) && out == Seq::new(
            if k < sorted.len() {
                k
            } else {
                sorted.len()
            },
            |i: int| sorted[i].id,
        );
    lemma_sort_distinct(found, sorted);
    assert(sorted[i].leq(sorted[j]));
    assert(sorted.to_multiset().count(sorted[i]) > 0 && sorted.to_multiset().count(sorted[j]) > 0);
    assert(found.contains(sorted[i]) && found.contains(sorted[j]));
    let p = choose|p: int| 0 <= p < found.len() && found[p] == sorted[i];
    let q = choose|q: int| 0 <= q < found.len() && found[q] == sorted[j];
    assert(found[p].id < g.len() && found[q].id < g.len());
    assert(score(out[i], sorted[i].sim) && score(out[j], sorted[j].sim));
}

/// No node that a search comes across is passed over: neither an entry point, which is every
/// 256th node from the first on, nor a neighbour of a node that is returned.
pub proof fn no_node_in_sight_is_passed_over(
    nodes: Seq<Vec<u32>>,
    score: spec_fn(u32, i64) -> bool,
    k: nat,
    ef: nat,
    out: Seq<u32>,
)
    requires
        is_single(score),
        nodes.len() <= u32::MAX,
        is_found(nodes, score, k, ef, out),
    ensures
        forall|e: u32| e < nodes.len() && e % 256 == 0 ==> #[trigger] is_outdone(score, k, out, e),
        forall|i: int, j: int|
            0 <= i < out.len() && 0 <= j < nodes[out[i] as int]@.len() ==> is_outdone(
                score,
                k,
                out,
                #[trigger] nodes[out[i] as int]@[j],
            ),
{
    broadcast use vstd::seq_lib::group_to_multiset_ensures;

    if nodes.len() > 0 {
        let g = edges_of(nodes);
        let w = search_width(ef, k);
        let starts = entry_points(nodes.len());
        let found = choose|found: Seq<Cand>|
            {
                &&& #[trigger] is_beam(g, score, starts, w, found)
                &&& is_swept(g, score, starts, w, found)
                &&& top_ids(found, k, out)
            };
        assert forall|e: u32| e < nodes.len() && e % 256 == 0 implies #[trigger] is_outdone(
            score,
            k,
            out,
            e,
        ) by {
            let j = e as int / 256;
            assert(j * 256 == e);
            assert(j < starts.len());
            assert(starts[j] == e);
            assert(settled(score, starts[j], w, found));
            lemma_settled_is_outdone(g, score, starts, w, k, found, out, e);
        }
        assert forall|i: int, j: int|
            0 <= i < out.len() && 0 <= j < nodes[out[i] as int]@.len() implies is_outdone(
            score,
            k,
            out,
            #[trigger] nodes[out[i] as int]@[j],
        ) by {
            if found.len() == 0 {
                lemma_top_ids_full(found, k, out);
            }
            the_most_similar_candidates_are_kept(found, k, out, 0);
            let q = choose|q: int| 0 <= q < found.len() && #[trigger] found[q].id == out[i];
            assert(found[q].id < g.len());
            let v = g[found[q].id as int][j];
            assert(settled(score, g[found[q].id as int][j], w, found));
            lemma_settled_is_outdone(g, score, starts, w, k, found, out, v);
        }
    }
}

/// A node that joins a graph links to the best it meets: no entry point and no neighbour of one
/// that it links to is passed over. Each node that it links to answers unless its list is full,
/// and no other list changes.
pub proof fn a_new_node_links_to_the_best_it_meets(
    sim: spec_fn(u32, u32, i64) -> bool,
    before: Seq<Vec<u32>>,
    after: Seq<Vec<u32>>,
    m: nat,
    ef_c: nat,
    e: u32,
    u: int,
)
    requires
        is_related_once(sim),
        is_grown(sim, before, after, m, ef_c),
        0 < before.len() < u32::MAX,
        m <= ef_c,
        e < before.len(),
        e % 256 == 0,
        0 <= u < before.len(),
    ensures
        after.len() == before.len() + 1,
        is_outdone(seen_from(sim, before.len() as u32), m, after[before.len() as int]@, e),
        !after[before.len() as int]@.contains(u as u32) ==> after[u]@ == before[u]@,
        after[before.len() as int]@.contains(u as u32) ==> after[u]@.contains(before.len() as u32)
            || after[u]@.len() == m,
{
    let id = before.len() as u32;
    let score = seen_from(sim, id);
    let found = choose|found: Seq<Cand>| #[trigger] is_joined(sim, before, after, m, ef_c, found);
    let g = edges_of(before);
    let starts = entry_points(before.len());
    let list = after[before.len() as int]@;
    assert(is_single(score)) by {
        assert forall|v: u32, s: i64, t: i64| #[trigger] score(v, s) && #[trigger] score(
            v,
            t,
        ) implies s == t by {
            assert(sim(id, v, s) && sim(id, v, t));
        }
    }
    let j = e as int / 256;
    assert(j * 256 == e);
    assert(starts[j] == e);
    assert(settled(score, starts[j], ef_c, found));
    lemma_settled_is_outdone(g, score, starts, ef_c, m, found, list, e);
    if list.contains(u as u32) {
        let full = before[u]@.push(id);
        assert(is_relinked(sim, before[u]@, u as u32, id, m, after[u]@));
        if full.len() <= m {
            assert(full[full.len() - 1] == id);
        } else {
            let cands = choose|cands: Seq<Cand>| #[trigger]
                rated(sim, u as u32, full, cands) && top_ids(cands, m, after[u]@);
            lemma_top_ids_full(cands, m, after[u]@);
        }
    }
}

proof fn lemma_wide_beam_holds(
    g: Seq<Seq<u32>>,
    score: spec_fn(u32, i64) -> bool,
    ef: nat,
    found: Seq<Cand>,
    path: Seq<u32>,
)
    requires
        is_beam(g, score, entry_points(g.len()), ef, found),
        ef > g.len(),
        g.len() <= u32::MAX,
        path.len() > 0,
        path[0] < g.len(),
        path[0] % 256 == 0,
        forall|i: int| 0 < i < path.len() ==> g[path[i - 1] as int].contains(#[trigger] path[i]),
    ensures
        holds(found, path.last()),
{
    let starts = entry_points(g.len());
    let j = path[0] as int / 256;
    assert(j * 256 == path[0]);
    assert(starts[j] == path[0]);
    lemma_beam_bound(g, score, starts, ef, found);
    a_beam_with_room_holds_all_that_is_reachable(g, score, starts, ef, found, path);
}

/// A search that is wider than the graph is exact: whatever can be reached from an entry point,
/// which is every 256th node from the first on, is returned, or `k` nodes are and none of them
/// scores lower.
pub proof fn a_search_wider_than_the_graph_finds_the_best(
    nodes: Seq<Vec<u32>>,
    score: spec_fn(u32, i64) -> bool,
    k: nat,
    ef: nat,
    out: Seq<u32>,
    path: Seq<u32>,
)
    requires
        is_single(score),
        is_found(nodes, score, k, ef, out),
        ef > nodes.len(),
        nodes.len() <= u32::MAX,
        path.len() > 0,
        forall|i: int| 0 <= i < path.len() ==> (#[trigger] path[i]) < nodes.len(),
        path[0] % 256 == 0,
        forall|i: int|
            0 < i < path.len() ==> nodes[path[i - 1] as int]@.contains(#[trigger] path[i]),
    ensures
        is_outdone(score, k, out, path.last()),
{
    let g = edges_of(nodes);
    let w = search_width(ef, k);
    assert(path[0] < nodes.len());
    let starts = entry_points(nodes.len());
    let found = choose|found: Seq<Cand>|
        {
            &&& #[trigger] is_beam(g, score, starts, w, found)
            &&& is_swept(g, score, starts, w, found)
            &&& top_ids(found, k, out)
        };
    assert forall|i: int| 0 < i < path.len() implies g[path[i - 1] as int].contains(
        #[trigger] path[i],
    ) by {
        assert(path[i - 1] < nodes.len());
    }
    lemma_wide_beam_holds(g, score, w, found, path);
    lemma_held_is_outdone(g, score, starts, w, k, found, out, path.last());
}

/// A node that joins by a search wider than the graph links to the most similar nodes: whatever
/// can be reached from an entry point is linked to, or `m` nodes are and none of them is less
/// similar.
pub proof fn a_node_joined_by_a_wide_search_links_to_the_most_similar(
    sim: spec_fn(u32, u32, i64) -> bool,
    before: Seq<Vec<u32>>,
    after: Seq<Vec<u32>>,
    m: nat,
    ef_c: nat,
    path: Seq<u32>,
)
    requires
        is_related_once(sim),
        is_grown(sim, before, after, m, ef_c),
        ef_c > before.len(),
        before.len() < u32::MAX,
        path.len() > 0,
        forall|i: int| 0 <= i < path.len() ==> (#[trigger] path[i]) < before.len(),
        path[0] % 256 == 0,
        forall|i: int|
            0 < i < path.len() ==> before[path[i - 1] as int]@.contains(#[trigger] path[i]),
    ensures
        is_outdone(
            seen_from(sim, before.len() as u32),
            m,
            after[before.len() as int]@,
            path.last(),
        ),
{
    assert(path[0] < before.len());
    let id = before.len() as u32;
    let score = seen_from(sim, id);
    let found = choose|found: Seq<Cand>| #[trigger] is_joined(sim, before, after, m, ef_c, found);
    let g = edges_of(before);
    let starts = entry_points(before.len());
    assert(is_single(score)) by {
        assert forall|v: u32, s: i64, t: i64| #[trigger] score(v, s) && #[trigger] score(
            v,
            t,
        ) implies s == t by {
            assert(sim(id, v, s) && sim(id, v, t));
        }
    }
    assert forall|i: int| 0 < i < path.len() implies g[path[i - 1] as int].contains(
        #[trigger] path[i],
    ) by {
        assert(path[i - 1] < before.len());
    }
    lemma_wide_beam_holds(g, score, ef_c, found, path);
    lemma_held_is_outdone(
        g,
        score,
        starts,
        ef_c,
        m,
        found,
        after[before.len() as int]@,
        path.last(),
    );
}

/// A search of width one in a graph with one entry point stays there if none of the neighbours
/// scores higher: what scores as high does not take the place of what was found before.
pub proof fn a_narrow_search_stays_at_the_first_node(
    nodes: Seq<Vec<u32>>,
    score: spec_fn(u32, i64) -> bool,
    out: Seq<u32>,
    top: i64,
)
    requires
        is_single(score),
        0 < nodes.len() <= 256,
        is_found(nodes, score, 1, 1, out),
        score(0, top),
        forall|k: int, s: i64|
            0 <= k < nodes[0]@.len() && #[trigger] score(nodes[0]@[k], s) ==> s <= top,
    ensures
        out == seq![0u32],
{
    broadcast use vstd::seq_lib::group_to_multiset_ensures;

    let g = edges_of(nodes);
    let starts = entry_points(nodes.len());
    assert(starts =~= seq![0u32]);
    let found = choose|found: Seq<Cand>|
        {
            &&& #[trigger] is_beam(g, score, starts, 1, found)
            &&& is_swept(g, score, starts, 1, found)
            &&& top_ids(found, 1, out)
        };
    let trace = choose|trace: Seq<Sweep>| #[trigger]
        is_tour(g, score, starts, 1, trace) && is_swept_out(trace.last(), 1) && is_sort_of(
            trace.last().found,
            found,
        );
    let c = Cand { sim: top, id: 0 };
    let a = trace[0];
    assert(a.waiting[0].id == starts[0]);
    assert(a.waiting =~= seq![c]);
    assert(a.found =~= seq![c]);
    assert(is_last_best(a.waiting, 0));
    assert(best_at(a.waiting) == 0);
    if trace.len() > 1 {
        assert(moves_on(g, score, 1, trace, 0));
        let mid = choose|mid: Seq<Sweep>| #[trigger]
            is_round(g[a.waiting[best_at(a.waiting)].id as int], score, 1, mid) && mid[0]
                == picked_up(a) && mid.last() == trace[1];
        assert(g[0] == nodes[0]@);
        lemma_nothing_joins(g[0], score, c, mid, g[0].len() as int);
        if trace.len() > 2 {
            assert(moves_on(g, score, 1, trace, 1));
            assert(is_swept_out(trace[1], 1));
        }
    }
    assert(trace.last().found =~= seq![c]);
    assert(found.to_multiset().count(c) == seq![c].to_multiset().count(c));
    assert(found.to_multiset().len() == seq![c].to_multiset().len());
    assert(seq![c].contains(c) && seq![c][0] == c);
    assert(found.contains(c));
    let sorted = choose|sorted: Seq<Cand>| #[trigger]
        is_sort_of(found, sorted) && out == Seq::new(
            if 1nat < sorted.len() {
                1nat
            } else {
                sorted.len()
            },
            |i: int| sorted[i].id,
        );
    assert(sorted.to_multiset().len() == found.to_multiset().len());
    assert(sorted.to_multiset().count(c) == found.to_multiset().count(c));
    assert(sorted.contains(c));
    assert(out =~= seq![0u32]);
}

proof fn lemma_nothing_joins(
    nodes: Seq<u32>,
    score: spec_fn(u32, i64) -> bool,
    c: Cand,
    mid: Seq<Sweep>,
    k: int,
)
    requires
        is_round(nodes, score, 1, mid),
        mid[0].found == seq![c],
        mid[0].waiting.len() == 0,
        forall|k: int, s: i64|
            0 <= k < nodes.len() && #[trigger] score(nodes[k], s) ==> s <= c.sim,
        0 <= k <= nodes.len(),
    ensures
        mid[k].found == seq![c],
        mid[k].waiting.len() == 0,
    decreases k,
{
    if k > 0 {
        lemma_nothing_joins(nodes, score, c, mid, k - 1);
        assert(comes_at(nodes, score, 1, mid, k - 1));
        let a = mid[k - 1];
        assert(is_first_worst(a.found, 0));
        assert(worst_at(a.found) == 0);
    }
}

} // verus!
