//! Best-first search of a proximity graph: the visited set, the candidate order, the
//! contract of a beam, and the beam search that both graph indexes build on.

use vstd::prelude::*;

use crate::order::{in_order, place, Ranked};

verus! {

/// Reusable scratch space of a graph search: which nodes were visited since the last `clear`.
///
/// `clear` bumps an epoch instead of resetting every mark, so one buffer serves many
/// searches; only when the epoch wraps around are the marks themselves reset.
pub struct Visited {
    mark: Vec<u32>,
    epoch: u32,
}

impl Visited {
    /// How many nodes the buffer covers.
    pub closed spec fn size(&self) -> nat {
        self.mark@.len()
    }

    /// No mark lies ahead of the epoch.
    pub closed spec fn wf(&self) -> bool {
        forall|i: int| 0 <= i < self.mark@.len() ==> #[trigger] self.mark@[i] <= self.epoch
    }

    /// Whether node `i` counts as visited.
    pub closed spec fn seen(&self, i: int) -> bool {
        0 <= i < self.mark@.len() && self.mark@[i] == self.epoch
    }

    /// A buffer for `n` nodes, none of them visited.
    pub fn new(n: usize) -> (r: Self)
        ensures
            r.wf(),
            r.size() == n,
            forall|i: int| !(#[trigger] r.seen(i)),
    {
        Visited { mark: vec![0u32; n], epoch: 1 }
    }

    /// The number of nodes the buffer covers.
    pub fn len(&self) -> (n: usize)
        ensures
            n == self.size(),
    {
        self.mark.len()
    }

    /// Forgets every visit.
    pub fn clear(&mut self)
        requires
            old(self).wf(),
        ensures
            final(self).wf(),
            final(self).size() == old(self).size(),
            forall|i: int| !(#[trigger] final(self).seen(i)),
    {
        if self.epoch == u32::MAX {
            let n: usize = self.mark.len();
            let mut i: usize = 0;
            while i < n
                invariant
                    i <= n == self.mark@.len(),
                    self.mark@.len() == old(self).mark@.len(),
                    forall|j: int| 0 <= j < i ==> #[trigger] self.mark@[j] == 0,
                decreases n - i,
            {
                self.mark[i] = 0;
                i += 1;
            }
            self.epoch = 1;
        } else {
            self.epoch = self.epoch + 1;
        }
    }

    /// Marks node `i` visited and says whether it was visited already.
    pub fn test_set(&mut self, i: usize) -> (already: bool)
        requires
            old(self).wf(),
            i < old(self).size(),
        ensures
            final(self).wf(),
            final(self).size() == old(self).size(),
            already == old(self).seen(i as int),
            forall|j: int| #[trigger] final(self).seen(j) <==> old(self).seen(j) || j == i,
    {
        if self.mark[i] == self.epoch {
            true
        } else {
            self.mark[i] = self.epoch;
            false
        }
    }
}

/// A scored node. Similarities are integer order keys: a larger key is a closer node.
///
/// Candidates rank best first: by descending similarity, then by descending id.
#[derive(Clone, Copy)]
pub struct Cand {
    pub sim: i64,
    pub id: u32,
}

impl Ranked for Cand {
    open spec fn leq(self, other: Self) -> bool {
        self.sim > other.sim || (self.sim == other.sim && self.id >= other.id)
    }

    proof fn leq_total(a: Self, b: Self) {
    }

    proof fn leq_trans(a: Self, b: Self, c: Self) {
    }

    fn no_later(&self, other: &Self) -> (r: bool) {
        self.sim > other.sim || (self.sim == other.sim && self.id >= other.id)
    }
}

/// A candidate that waits to be expanded. Waiting candidates rank worst first, so that the
/// best one is at the end of an ordered list.
#[derive(Clone, Copy)]
pub struct Waiting {
    pub sim: i64,
    pub id: u32,
}

impl Ranked for Waiting {
    open spec fn leq(self, other: Self) -> bool {
        self.sim < other.sim || (self.sim == other.sim && self.id <= other.id)
    }

    proof fn leq_total(a: Self, b: Self) {
    }

    proof fn leq_trans(a: Self, b: Self, c: Self) {
    }

    fn no_later(&self, other: &Self) -> (r: bool) {
        self.sim < other.sim || (self.sim == other.sim && self.id <= other.id)
    }
}

/// A directed graph. Its model lists the neighbours of each node.
pub trait Topology {
    spec fn edges(&self) -> Seq<Seq<u32>>;

    fn degree(&self, u: u32) -> (d: usize)
        requires
            u < self.edges().len(),
        ensures
            d == self.edges()[u as int].len(),
    ;

    fn neighbor(&self, u: u32, i: usize) -> (v: u32)
        requires
            u < self.edges().len(),
            i < self.edges()[u as int].len(),
        ensures
            v == self.edges()[u as int][i as int],
    ;
}

/// Every edge leads to a node of the graph.
pub open spec fn edges_inside(g: Seq<Seq<u32>>) -> bool {
    forall|u: int, k: int|
        0 <= u < g.len() && 0 <= k < g[u].len() ==> (#[trigger] g[u][k]) < g.len()
}

/// The score function accepts each of the first `n` nodes.
pub open spec fn scores_all<F: Fn(u32) -> i64>(n: nat, score: F) -> bool {
    forall|v: u32| v < n ==> #[trigger] score.requires((v,))
}

/// The scores that `score` may give: `scored_by(score)(v, s)` says that `s` is a score of `v`.
pub open spec fn scored_by<F: Fn(u32) -> i64>(score: F) -> spec_fn(u32, i64) -> bool {
    |v: u32, s: i64| score.ensures((v,), s)
}

/// `path` starts at one of `starts` and follows edges.
pub open spec fn is_walk(g: Seq<Seq<u32>>, starts: Seq<u32>, path: Seq<u32>) -> bool {
    &&& path.len() > 0
    &&& starts.contains(path[0])
    &&& forall|i: int| 0 < i < path.len() ==> #[trigger] steps_at(g, path, i)
}

/// An edge leads to the `i`-th node of `path` from the one before it.
pub open spec fn steps_at(g: Seq<Seq<u32>>, path: Seq<u32>, i: int) -> bool {
    g[path[i - 1] as int].contains(path[i])
}

/// Some walk from `starts` ends at `v`.
pub open spec fn reaches(g: Seq<Seq<u32>>, starts: Seq<u32>, v: u32) -> bool {
    exists|path: Seq<u32>| #[trigger] is_walk(g, starts, path) && path.last() == v
}

/// `found` holds node `v`.
pub open spec fn holds(found: Seq<Cand>, v: u32) -> bool {
    exists|i: int| 0 <= i < found.len() && (#[trigger] found[i]).id == v
}

/// `found` is full and `v` scores no better than anything in it.
pub open spec fn dominated(
    score: spec_fn(u32, i64) -> bool,
    v: u32,
    ef: nat,
    found: Seq<Cand>,
) -> bool {
    &&& found.len() >= ef
    &&& exists|s: i64| #[trigger]
        score(v, s) && forall|i: int|
            0 <= i < found.len() ==> s <= (#[trigger] found[i]).sim
}

/// `v` is in `found`, or `found` is full and has no need of it.
pub open spec fn settled(score: spec_fn(u32, i64) -> bool, v: u32, ef: nat, found: Seq<Cand>) -> bool {
    holds(found, v) || dominated(score, v, ef, found)
}

/// No two entries of `found` name the same node.
pub open spec fn distinct_ids(found: Seq<Cand>) -> bool {
    forall|i: int, j: int|
        0 <= i < j < found.len() ==> (#[trigger] found[i]).id != (#[trigger] found[j]).id
}

/// `found` is a beam of width `ef` grown from `starts`: distinct reachable nodes with their
/// scores, from which no edge leads to a node that `found` still has a place for.
///
/// In particular a beam that is not full holds every node that `starts` reach.
pub open spec fn is_beam(
    g: Seq<Seq<u32>>,
    score: spec_fn(u32, i64) -> bool,
    starts: Seq<u32>,
    ef: nat,
    found: Seq<Cand>,
) -> bool {
    &&& forall|i: int|
        0 <= i < found.len() ==> {
            &&& (#[trigger] found[i]).id < g.len()
            &&& score(found[i].id, found[i].sim)
            &&& reaches(g, starts, found[i].id)
        }
    &&& distinct_ids(found)
    &&& found.len() <= ef || found.len() <= starts.len()
    &&& forall|k: int| 0 <= k < starts.len() ==> settled(score, #[trigger] starts[k], ef, found)
    &&& forall|i: int, k: int|
        0 <= i < found.len() && 0 <= k < g[found[i].id as int].len() ==> settled(
            score,
            #[trigger] g[found[i].id as int][k],
            ef,
            found,
        )
}

proof fn lemma_settled_weaken(
    a: spec_fn(u32, i64) -> bool,
    b: spec_fn(u32, i64) -> bool,
    v: u32,
    ef: nat,
    found: Seq<Cand>,
)
    requires
        settled(a, v, ef, found),
        forall|x: u32, s: i64| #[trigger] a(x, s) ==> b(x, s),
    ensures
        settled(b, v, ef, found),
{
    if !holds(found, v) {
        let s = choose|s: i64| #[trigger]
            a(v, s) && forall|i: int| 0 <= i < found.len() ==> s <= (#[trigger] found[i]).sim;
        assert(b(v, s));
    }
}

/// A beam stays one when more scores are admitted for a node.
pub proof fn lemma_beam_weaken(
    g: Seq<Seq<u32>>,
    a: spec_fn(u32, i64) -> bool,
    b: spec_fn(u32, i64) -> bool,
    starts: Seq<u32>,
    ef: nat,
    found: Seq<Cand>,
)
    requires
        is_beam(g, a, starts, ef, found),
        forall|x: u32, s: i64| #[trigger] a(x, s) ==> b(x, s),
    ensures
        is_beam(g, b, starts, ef, found),
{
    assert forall|k: int| 0 <= k < starts.len() implies settled(
        b,
        #[trigger] starts[k],
        ef,
        found,
    ) by {
        lemma_settled_weaken(a, b, starts[k], ef, found);
    }
    assert forall|i: int, k: int|
        0 <= i < found.len() && 0 <= k < g[found[i].id as int].len() implies settled(
        b,
        #[trigger] g[found[i].id as int][k],
        ef,
        found,
    ) by {
        lemma_settled_weaken(a, b, g[found[i].id as int][k], ef, found);
    }
}

/// A moment of a best-first search: what was found, what waits to be expanded, and which nodes
/// were seen.
pub struct Moment {
    pub found: Seq<Cand>,
    pub waiting: Seq<Waiting>,
    pub seen: Set<int>,
}

/// `after` is the ordered list `before` with `x` in its place.
pub open spec fn joins<T: Ranked>(before: Seq<T>, x: T, after: Seq<T>) -> bool {
    in_order(after) && exists|p: int|
        0 <= p <= before.len() && after == #[trigger] before.insert(p, x)
}

/// Whether a node that scores `s` enters what was found: while there is room, and later only
/// past the worst entry.
pub open spec fn has_room(found: Seq<Cand>, s: i64, ef: nat) -> bool {
    found.len() == 0 || s > found.last().sim || found.len() < ef
}

/// What is kept of a list that grew: the worst entry leaves if there are too many.
pub open spec fn kept(grown: Seq<Cand>, ef: nat) -> Seq<Cand> {
    if grown.len() > ef {
        grown.drop_last()
    } else {
        grown
    }
}

/// The search meets the unseen node `v` with score `s`.
pub open spec fn meets(ef: nat, a: Moment, v: u32, s: i64, b: Moment) -> bool {
    &&& b.seen == a.seen.insert(v as int)
    &&& if has_room(a.found, s, ef) {
        &&& joins(a.waiting, Waiting { sim: s, id: v }, b.waiting)
        &&& exists|grown: Seq<Cand>| #[trigger]
            joins(a.found, Cand { sim: s, id: v }, grown) && b.found == kept(grown, ef)
    } else {
        b.found == a.found && b.waiting == a.waiting
    }
}

/// The search comes to the node `v`; a node that was seen changes nothing.
pub open spec fn visits(
    score: spec_fn(u32, i64) -> bool,
    ef: nat,
    a: Moment,
    v: u32,
    b: Moment,
) -> bool {
    if a.seen.contains(v as int) {
        b == a
    } else {
        exists|s: i64| #[trigger] score(v, s) && meets(ef, a, v, s, b)
    }
}

/// Between two moments the search comes to the `k`-th of `nodes`.
pub open spec fn visits_at(
    nodes: Seq<u32>,
    score: spec_fn(u32, i64) -> bool,
    ef: nat,
    mid: Seq<Moment>,
    k: int,
) -> bool {
    visits(score, ef, mid[k], nodes[k], mid[k + 1])
}

/// The search comes to each of `nodes` in turn.
pub open spec fn is_expansion(
    nodes: Seq<u32>,
    score: spec_fn(u32, i64) -> bool,
    ef: nat,
    mid: Seq<Moment>,
) -> bool {
    &&& mid.len() == nodes.len() + 1
    &&& forall|k: int| 0 <= k < nodes.len() ==> #[trigger] visits_at(nodes, score, ef, mid, k)
}

/// From `a` to `b` the search comes to each of `nodes` in turn.
pub open spec fn expands(
    nodes: Seq<u32>,
    score: spec_fn(u32, i64) -> bool,
    ef: nat,
    a: Moment,
    b: Moment,
) -> bool {
    exists|mid: Seq<Moment>| #[trigger]
        is_expansion(nodes, score, ef, mid) && mid[0] == a && mid.last() == b
}

/// The search ends when nothing waits, or when what was found is full and beats all that waits.
pub open spec fn is_over(a: Moment, ef: nat) -> bool {
    ||| a.waiting.len() == 0
    ||| a.found.len() > 0 && a.found.len() >= ef && a.waiting.last().sim < a.found.last().sim
}

/// The `i`-th step of a search takes the best node that waits and comes to its neighbours.
pub open spec fn advances(
    g: Seq<Seq<u32>>,
    score: spec_fn(u32, i64) -> bool,
    ef: nat,
    trace: Seq<Moment>,
    i: int,
) -> bool {
    let a = trace[i];
    let best = a.waiting.last();
    &&& !is_over(a, ef)
    &&& expands(
        g[best.id as int],
        score,
        ef,
        Moment { waiting: a.waiting.drop_last(), ..a },
        trace[i + 1],
    )
}

/// A search opens with its starts: each is found, waits and was seen.
pub open spec fn opens(score: spec_fn(u32, i64) -> bool, starts: Seq<u32>, a: Moment) -> bool {
    &&& in_order(a.found)
    &&& in_order(a.waiting)
    &&& a.found.len() == starts.len()
    &&& a.waiting.len() == starts.len()
    &&& distinct_ids(a.found)
    &&& forall|i: int|
        0 <= i < a.found.len() ==> {
            &&& starts.contains((#[trigger] a.found[i]).id)
            &&& score(a.found[i].id, a.found[i].sim)
            &&& waits(a.waiting, a.found[i])
        }
    &&& forall|v: int| #[trigger]
        a.seen.contains(v) <==> exists|i: int| 0 <= i < starts.len() && #[trigger] starts[i] == v
}

/// `trace` is a best-first search of width `ef` from `starts`, step by step.
pub open spec fn is_trace(
    g: Seq<Seq<u32>>,
    score: spec_fn(u32, i64) -> bool,
    starts: Seq<u32>,
    ef: nat,
    trace: Seq<Moment>,
) -> bool {
    &&& trace.len() > 0
    &&& opens(score, starts, trace[0])
    &&& forall|i: int|
        0 <= i < trace.len() - 1 ==> #[trigger] advances(g, score, ef, trace, i)
}

/// `found` is what a best-first search of width `ef` from `starts` ends with.
pub open spec fn is_best_first(
    g: Seq<Seq<u32>>,
    score: spec_fn(u32, i64) -> bool,
    starts: Seq<u32>,
    ef: nat,
    found: Seq<Cand>,
) -> bool {
    exists|trace: Seq<Moment>| #[trigger]
        is_trace(g, score, starts, ef, trace) && is_over(trace.last(), ef)
            && trace.last().found == found
}

/// `found` is the beam that a best-first search ends with.
pub open spec fn is_walked(
    g: Seq<Seq<u32>>,
    score: spec_fn(u32, i64) -> bool,
    starts: Seq<u32>,
    ef: nat,
    found: Seq<Cand>,
) -> bool {
    is_beam(g, score, starts, ef, found) && is_best_first(g, score, starts, ef, found)
}

proof fn lemma_visits_weaken(
    a: spec_fn(u32, i64) -> bool,
    b: spec_fn(u32, i64) -> bool,
    ef: nat,
    x: Moment,
    v: u32,
    y: Moment,
)
    requires
        visits(a, ef, x, v, y),
        forall|u: u32, s: i64| #[trigger] a(u, s) ==> b(u, s),
    ensures
        visits(b, ef, x, v, y),
{
    if !x.seen.contains(v as int) {
        let s = choose|s: i64| #[trigger] a(v, s) && meets(ef, x, v, s, y);
        assert(b(v, s));
    }
}

proof fn lemma_expands_weaken(
    a: spec_fn(u32, i64) -> bool,
    b: spec_fn(u32, i64) -> bool,
    nodes: Seq<u32>,
    ef: nat,
    x: Moment,
    y: Moment,
)
    requires
        expands(nodes, a, ef, x, y),
        forall|u: u32, s: i64| #[trigger] a(u, s) ==> b(u, s),
    ensures
        expands(nodes, b, ef, x, y),
{
    let mid = choose|mid: Seq<Moment>| #[trigger]
        is_expansion(nodes, a, ef, mid) && mid[0] == x && mid.last() == y;
    assert forall|k: int| 0 <= k < nodes.len() implies #[trigger] visits_at(
        nodes,
        b,
        ef,
        mid,
        k,
    ) by {
        assert(visits_at(nodes, a, ef, mid, k));
        lemma_visits_weaken(a, b, ef, mid[k], nodes[k], mid[k + 1]);
    }
    assert(is_expansion(nodes, b, ef, mid));
}

/// A walked beam stays one when more scores are admitted for a node.
pub proof fn lemma_walked_weaken(
    g: Seq<Seq<u32>>,
    a: spec_fn(u32, i64) -> bool,
    b: spec_fn(u32, i64) -> bool,
    starts: Seq<u32>,
    ef: nat,
    found: Seq<Cand>,
)
    requires
        is_walked(g, a, starts, ef, found),
        forall|x: u32, s: i64| #[trigger] a(x, s) ==> b(x, s),
    ensures
        is_walked(g, b, starts, ef, found),
{
    lemma_beam_weaken(g, a, b, starts, ef, found);
    let trace = choose|trace: Seq<Moment>| #[trigger]
        is_trace(g, a, starts, ef, trace) && is_over(trace.last(), ef) && trace.last().found
            == found;
    assert forall|i: int| 0 <= i < trace.len() - 1 implies #[trigger] advances(
        g,
        b,
        ef,
        trace,
        i,
    ) by {
        assert(advances(g, a, ef, trace, i));
        let m = trace[i];
        lemma_expands_weaken(
            a,
            b,
            g[m.waiting.last().id as int],
            ef,
            Moment { waiting: m.waiting.drop_last(), ..m },
            trace[i + 1],
        );
    }
    assert(is_trace(g, b, starts, ef, trace));
}

/// One more step leads on.
proof fn lemma_trace_push(
    g: Seq<Seq<u32>>,
    score: spec_fn(u32, i64) -> bool,
    starts: Seq<u32>,
    ef: nat,
    trace: Seq<Moment>,
    next: Moment,
)
    requires
        is_trace(g, score, starts, ef, trace),
        !is_over(trace.last(), ef),
        expands(
            g[trace.last().waiting.last().id as int],
            score,
            ef,
            Moment { waiting: trace.last().waiting.drop_last(), ..trace.last() },
            next,
        ),
    ensures
        is_trace(g, score, starts, ef, trace.push(next)),
{
    let longer = trace.push(next);
    assert forall|i: int| 0 <= i < longer.len() - 1 implies #[trigger] advances(
        g,
        score,
        ef,
        longer,
        i,
    ) by {
        if i < trace.len() - 1 {
            assert(advances(g, score, ef, trace, i));
            assert(longer[i + 1] == trace[i + 1]);
        }
        assert(longer[i] == trace[i]);
    }
    assert(longer[0] == trace[0]);
}

/// One more node is come to.
proof fn lemma_expansion_push(
    nodes: Seq<u32>,
    score: spec_fn(u32, i64) -> bool,
    ef: nat,
    mid: Seq<Moment>,
    v: u32,
    next: Moment,
)
    requires
        is_expansion(nodes, score, ef, mid),
        visits(score, ef, mid.last(), v, next),
    ensures
        is_expansion(nodes.push(v), score, ef, mid.push(next)),
{
    let more = nodes.push(v);
    let longer = mid.push(next);
    assert forall|k: int| 0 <= k < more.len() implies #[trigger] visits_at(
        more,
        score,
        ef,
        longer,
        k,
    ) by {
        assert(longer[k] == mid[k]);
        if k < nodes.len() {
            assert(visits_at(nodes, score, ef, mid, k));
            assert(longer[k + 1] == mid[k + 1]);
            assert(more[k] == nodes[k]);
        }
    }
}

pub proof fn lemma_reach_start(g: Seq<Seq<u32>>, starts: Seq<u32>, v: u32)
    requires
        starts.contains(v),
    ensures
        reaches(g, starts, v),
{
    assert(is_walk(g, starts, seq![v]));
    assert(seq![v].last() == v);
}

pub proof fn lemma_reach_step(g: Seq<Seq<u32>>, starts: Seq<u32>, u: u32, v: u32)
    requires
        reaches(g, starts, u),
        g[u as int].contains(v),
    ensures
        reaches(g, starts, v),
{
    let p = choose|path: Seq<u32>| #[trigger] is_walk(g, starts, path) && path.last() == u;
    let q = p.push(v);
    assert forall|i: int| 0 < i < q.len() implies #[trigger] steps_at(g, q, i) by {
        if i < p.len() {
            assert(steps_at(g, p, i));
        }
    }
    assert(is_walk(g, starts, q));
    assert(q.last() == v);
}

/// A set of nodes that holds the starts and is closed under edges holds what the starts reach.
pub proof fn lemma_reach_within(
    g: Seq<Seq<u32>>,
    starts: Seq<u32>,
    inside: spec_fn(u32) -> bool,
    v: u32,
)
    requires
        reaches(g, starts, v),
        forall|k: int| 0 <= k < starts.len() ==> inside(#[trigger] starts[k]),
        forall|u: u32, k: int|
            inside(u) && 0 <= k < g[u as int].len() ==> inside(#[trigger] g[u as int][k]),
    ensures
        inside(v),
{
    let p = choose|path: Seq<u32>| #[trigger] is_walk(g, starts, path) && path.last() == v;
    lemma_walk_within(g, starts, inside, p, p.len() - 1);
}

proof fn lemma_walk_within(
    g: Seq<Seq<u32>>,
    starts: Seq<u32>,
    inside: spec_fn(u32) -> bool,
    p: Seq<u32>,
    i: int,
)
    requires
        is_walk(g, starts, p),
        0 <= i < p.len(),
        forall|k: int| 0 <= k < starts.len() ==> inside(#[trigger] starts[k]),
        forall|u: u32, k: int|
            inside(u) && 0 <= k < g[u as int].len() ==> inside(#[trigger] g[u as int][k]),
    ensures
        inside(p[i]),
    decreases i,
{
    if i == 0 {
        let k = choose|k: int| 0 <= k < starts.len() && starts[k] == p[0];
        assert(inside(starts[k]));
    } else {
        lemma_walk_within(g, starts, inside, p, i - 1);
        assert(steps_at(g, p, i));
        let a = g[p[i - 1] as int];
        assert(a.contains(p[i]));
        let k = choose|k: int| 0 <= k < a.len() && a[k] == p[i];
        assert(inside(g[p[i - 1] as int][k]));
    }
}

/// The state of a beam search: what was found, what waits, what was seen, what was expanded.
/// `claimed` holds the expanded nodes and the one that is being expanded.
spec fn beam_state(
    g: Seq<Seq<u32>>,
    score: spec_fn(u32, i64) -> bool,
    starts: Seq<u32>,
    ef: nat,
    found: Seq<Cand>,
    waiting: Seq<Waiting>,
    seen: Set<int>,
    expanded: Set<int>,
    claimed: Set<int>,
) -> bool {
    &&& in_order(found)
    &&& in_order(waiting)
    &&& forall|i: int|
        0 <= i < found.len() ==> {
            &&& (#[trigger] found[i]).id < g.len()
            &&& score(found[i].id, found[i].sim)
            &&& reaches(g, starts, found[i].id)
            &&& seen.contains(found[i].id as int)
            &&& claimed.contains(found[i].id as int) || waits(waiting, found[i])
        }
    &&& distinct_ids(found)
    &&& found.len() <= ef || found.len() <= starts.len()
    &&& forall|j: int|
        0 <= j < waiting.len() ==> {
            &&& (#[trigger] waiting[j]).id < g.len()
            &&& reaches(g, starts, waiting[j].id)
        }
    &&& forall|v: int| #[trigger]
        seen.contains(v) ==> 0 <= v < g.len() && settled(score, v as u32, ef, found)
    &&& forall|v: int, k: int|
        expanded.contains(v) && 0 <= k < g[v].len() ==> seen.contains(
            #[trigger] g[v][k] as int,
        )
}

/// The candidate waits to be expanded.
pub open spec fn waits(waiting: Seq<Waiting>, c: Cand) -> bool {
    exists|j: int| 0 <= j < waiting.len() && #[trigger] waiting[j] == (Waiting { sim: c.sim, id: c.id })
}

/// What `found` becomes when `c` enters it at `pos`: the worst entry leaves if there are too many.
spec fn admitted(found: Seq<Cand>, pos: int, c: Cand, ef: nat) -> Seq<Cand> {
    kept(found.insert(pos, c), ef)
}

/// Admitting a node that beats the worst entry, or finds room, leaves every settled node settled.
proof fn lemma_admit(score: spec_fn(u32, i64) -> bool, found: Seq<Cand>, pos: int, c: Cand, ef: nat)
    requires
        0 <= pos <= found.len(),
        in_order(found),
        in_order(found.insert(pos, c)),
        score(c.id, c.sim),
        forall|i: int|
            0 <= i < found.len() ==> score((#[trigger] found[i]).id, found[i].sim),
        found.len() == 0 || c.sim > found.last().sim || found.len() < ef,
    ensures
        forall|v: u32| #[trigger]
            settled(score, v, ef, found) ==> settled(score, v, ef, admitted(found, pos, c, ef)),
        settled(score, c.id, ef, admitted(found, pos, c, ef)),
        found.len() <= admitted(found, pos, c, ef).len() <= found.len() + 1,
        admitted(found, pos, c, ef).len() <= ef || admitted(found, pos, c, ef).len() == found.len(),
{
    let grown = found.insert(pos, c);
    let next = admitted(found, pos, c, ef);
    assert(grown[pos] == c);
    // Whatever `grown` holds is settled in `next`.
    assert forall|i: int| 0 <= i < grown.len() implies settled(
        score,
        (#[trigger] grown[i]).id,
        ef,
        next,
    ) by {
        if i < next.len() {
            assert(next[i] == grown[i]);
        } else {
            let s = grown[i].sim;
            assert forall|j: int| 0 <= j < next.len() implies s <= (#[trigger] next[j]).sim by {
                assert(grown[j].leq(grown[i]));
            }
            assert(score(grown[i].id, s)) by {
                if i < pos {
                    assert(grown[i] == found[i]);
                } else if i > pos {
                    assert(grown[i] == found[i - 1]);
                }
            }
            assert(dominated(score, grown[i].id, ef, next));
        }
    }
    assert forall|v: u32| #[trigger] settled(score, v, ef, found) implies settled(
        score,
        v,
        ef,
        next,
    ) by {
        if holds(found, v) {
            let i = choose|i: int| 0 <= i < found.len() && (#[trigger] found[i]).id == v;
            let k = if i < pos {
                i
            } else {
                i + 1
            };
            assert(grown[k] == found[i]);
        } else {
            let s = choose|s: i64| #[trigger]
                score(v, s) && forall|i: int|
                    0 <= i < found.len() ==> s <= (#[trigger] found[i]).sim;
            assert forall|j: int| 0 <= j < next.len() implies s <= (#[trigger] next[j]).sim by {
                assert(next[j] == grown[j]);
                if j < pos {
                    assert(grown[j] == found[j]);
                } else if j > pos {
                    assert(grown[j] == found[j - 1]);
                } else if found.len() > 0 {
                    assert(s <= found[found.len() - 1].sim);
                } else {
                    assert(ef == 0);
                    assert(next.len() == 0);
                }
            }
            assert(dominated(score, v, ef, next));
        }
    }
}

/// Entering `x` at `pos` keeps every earlier entry and adds `x`.
proof fn lemma_inserted<A>(s: Seq<A>, pos: int, x: A)
    requires
        0 <= pos <= s.len(),
    ensures
        s.insert(pos, x).len() == s.len() + 1,
        s.insert(pos, x)[pos] == x,
        forall|i: int|
            0 <= i < s.len() ==> #[trigger] s[i] == s.insert(pos, x)[if i < pos {
                i
            } else {
                i + 1
            }],
        forall|i: int|
            0 <= i <= s.len() && i != pos ==> #[trigger] s.insert(pos, x)[i] == s[if i < pos {
                i
            } else {
                i - 1
            }],
{
}

proof fn lemma_waits_grow(waiting: Seq<Waiting>, pos: int, w: Waiting)
    requires
        0 <= pos <= waiting.len(),
    ensures
        forall|c: Cand| #[trigger]
            waits(waiting.insert(pos, w), c) <==> waits(waiting, c) || (c.sim == w.sim && c.id
                == w.id),
{
    lemma_inserted(waiting, pos, w);
    let grown = waiting.insert(pos, w);
    assert forall|c: Cand| waits(waiting, c) || (c.sim == w.sim && c.id == w.id) implies #[trigger]
    waits(grown, c) by {
        if waits(waiting, c) {
            let j = choose|j: int|
                0 <= j < waiting.len() && #[trigger] waiting[j] == (Waiting { sim: c.sim, id: c.id });
            let k = if j < pos {
                j
            } else {
                j + 1
            };
            assert(grown[k] == waiting[j]);
        } else {
            assert(grown[pos] == w);
        }
    }
    assert forall|c: Cand| #[trigger] waits(grown, c) implies waits(waiting, c) || (c.sim == w.sim
        && c.id == w.id) by {
        let j = choose|j: int|
            0 <= j < grown.len() && #[trigger] grown[j] == (Waiting { sim: c.sim, id: c.id });
        if j != pos {
            let k = if j < pos {
                j
            } else {
                j - 1
            };
            assert(waiting[k] == grown[j]);
        }
    }
}

proof fn lemma_insert_distinct(found: Seq<Cand>, pos: int, c: Cand)
    requires
        0 <= pos <= found.len(),
        distinct_ids(found),
        !holds(found, c.id),
    ensures
        distinct_ids(found.insert(pos, c)),
{
    lemma_inserted(found, pos, c);
}

pub proof fn lemma_seen_bound(seen: Set<int>, n: int)
    requires
        0 <= n,
        forall|v: int| #[trigger] seen.contains(v) ==> 0 <= v < n,
    ensures
        seen.len() <= n,
{
    vstd::set_lib::lemma_int_range(0, n);
    assert(seen.subset_of(vstd::set_lib::set_int_range(0, n)));
    vstd::set_lib::lemma_len_subset(seen, vstd::set_lib::set_int_range(0, n));
}

/// Once every found node is expanded, what was found is a beam.
proof fn lemma_beam_done(
    g: Seq<Seq<u32>>,
    score: spec_fn(u32, i64) -> bool,
    starts: Seq<u32>,
    ef: nat,
    found: Seq<Cand>,
    waiting: Seq<Waiting>,
    seen: Set<int>,
    expanded: Set<int>,
)
    requires
        beam_state(g, score, starts, ef, found, waiting, seen, expanded, expanded),
        forall|i: int| 0 <= i < starts.len() ==> seen.contains(#[trigger] starts[i] as int),
        waiting.len() == 0 || forall|i: int|
            0 <= i < found.len() ==> expanded.contains((#[trigger] found[i]).id as int),
    ensures
        is_beam(g, score, starts, ef, found),
{
    assert forall|i: int| 0 <= i < found.len() implies expanded.contains(
        (#[trigger] found[i]).id as int,
    ) by {
    }
    assert forall|k: int| 0 <= k < starts.len() implies settled(
        score,
        #[trigger] starts[k],
        ef,
        found,
    ) by {
        assert(seen.contains(starts[k] as int));
    }
    assert forall|i: int, k: int|
        0 <= i < found.len() && 0 <= k < g[found[i].id as int].len() implies settled(
        score,
        #[trigger] g[found[i].id as int][k],
        ef,
        found,
    ) by {
        assert(expanded.contains(found[i].id as int));
        assert(seen.contains(g[found[i].id as int][k] as int));
    }
}

/// Taking the last waiting candidate claims it.
proof fn lemma_pop_claims(
    g: Seq<Seq<u32>>,
    score: spec_fn(u32, i64) -> bool,
    starts: Seq<u32>,
    ef: nat,
    found: Seq<Cand>,
    waiting: Seq<Waiting>,
    seen: Set<int>,
    expanded: Set<int>,
)
    requires
        waiting.len() > 0,
        beam_state(g, score, starts, ef, found, waiting, seen, expanded, expanded),
    ensures
        beam_state(
            g,
            score,
            starts,
            ef,
            found,
            waiting.drop_last(),
            seen,
            expanded,
            expanded.insert(waiting.last().id as int),
        ),
        waiting.last().id < g.len(),
        reaches(g, starts, waiting.last().id),
{
    let rest = waiting.drop_last();
    let claimed = expanded.insert(waiting.last().id as int);
    assert(waiting[waiting.len() - 1] == waiting.last());
    assert forall|i: int| 0 <= i < found.len() implies claimed.contains(
        (#[trigger] found[i]).id as int,
    ) || waits(rest, found[i]) by {
        if waits(waiting, found[i]) {
            let j = choose|j: int|
                0 <= j < waiting.len() && #[trigger] waiting[j] == (Waiting {
                    sim: found[i].sim,
                    id: found[i].id,
                });
            if j < rest.len() {
                assert(rest[j] == waiting[j]);
            }
        }
    }
}

/// Admitting a newly seen node keeps the state of the search.
proof fn lemma_state_admit(
    g: Seq<Seq<u32>>,
    score: spec_fn(u32, i64) -> bool,
    starts: Seq<u32>,
    ef: nat,
    found: Seq<Cand>,
    waiting: Seq<Waiting>,
    seen: Set<int>,
    expanded: Set<int>,
    claimed: Set<int>,
    x: Cand,
    pos: int,
    wpos: int,
)
    requires
        beam_state(g, score, starts, ef, found, waiting, seen, expanded, claimed),
        0 <= pos <= found.len(),
        0 <= wpos <= waiting.len(),
        in_order(found.insert(pos, x)),
        in_order(waiting.insert(wpos, Waiting { sim: x.sim, id: x.id })),
        x.id < g.len(),
        score(x.id, x.sim),
        reaches(g, starts, x.id),
        !seen.contains(x.id as int),
        found.len() == 0 || x.sim > found.last().sim || found.len() < ef,
    ensures
        beam_state(
            g,
            score,
            starts,
            ef,
            admitted(found, pos, x, ef),
            waiting.insert(wpos, Waiting { sim: x.sim, id: x.id }),
            seen.insert(x.id as int),
            expanded,
            claimed,
        ),
        found.len() <= admitted(found, pos, x, ef).len(),
{
    let w = Waiting { sim: x.sim, id: x.id };
    let next = admitted(found, pos, x, ef);
    let grown = found.insert(pos, x);
    let queue = waiting.insert(wpos, w);
    let now = seen.insert(x.id as int);
    lemma_admit(score, found, pos, x, ef);
    lemma_inserted(found, pos, x);
    lemma_inserted(waiting, wpos, w);
    lemma_waits_grow(waiting, wpos, w);
    assert(!holds(found, x.id));
    lemma_insert_distinct(found, pos, x);
    assert forall|i: int| 0 <= i < next.len() implies {
        &&& (#[trigger] next[i]).id < g.len()
        &&& score(next[i].id, next[i].sim)
        &&& reaches(g, starts, next[i].id)
        &&& now.contains(next[i].id as int)
        &&& claimed.contains(next[i].id as int) || waits(queue, next[i])
    } by {
        assert(next[i] == grown[i]);
    }
    assert(in_order(next));
    assert(distinct_ids(next));
    assert forall|v: int| #[trigger] now.contains(v) implies 0 <= v < g.len() && settled(
        score,
        v as u32,
        ef,
        next,
    ) by {
        if v != x.id {
            assert(seen.contains(v));
        }
    }
}

/// Best-first search of width `ef` from `starts`: a beam, best entry first.
#[verifier::rlimit(60)]
pub fn beam_search<T: Topology, F: Fn(u32) -> i64>(
    g: &T,
    score: &F,
    starts: &Vec<u32>,
    ef: usize,
    vis: &mut Visited,
) -> (found: Vec<Cand>)
    requires
        old(vis).wf(),
        old(vis).size() == g.edges().len(),
        edges_inside(g.edges()),
        scores_all(g.edges().len(), *score),
        starts@.no_duplicates(),
        forall|k: int| 0 <= k < starts.len() ==> (#[trigger] starts@[k]) < g.edges().len(),
    ensures
        final(vis).wf(),
        final(vis).size() == g.edges().len(),
        is_walked(g.edges(), scored_by(*score), starts@, ef as nat, found@),
        in_order(found@),
        starts.len() > 0 ==> found.len() > 0,
{
    vis.clear();
    let mut waiting: Vec<Waiting> = Vec::new();
    let mut found: Vec<Cand> = Vec::new();
    let ghost mut seen: Set<int> = Set::empty();
    let mut k: usize = 0;
    while k < starts.len()
        invariant
            k <= starts.len(),
            vis.wf(),
            vis.size() == g.edges().len(),
            scores_all(g.edges().len(), *score),
            starts@.no_duplicates(),
            forall|i: int| 0 <= i < starts.len() ==> (#[trigger] starts@[i]) < g.edges().len(),
            forall|v: int| #[trigger] vis.seen(v) <==> seen.contains(v),
            seen.finite(),
            seen.len() == k,
            found.len() == k,
            waiting.len() == k,
            in_order(found@),
            in_order(waiting@),
            distinct_ids(found@),
            forall|i: int|
                0 <= i < found.len() ==> {
                    &&& starts@.contains((#[trigger] found@[i]).id)
                    &&& found@[i].id < g.edges().len()
                    &&& score.ensures((found@[i].id,), found@[i].sim)
                    &&& seen.contains(found@[i].id as int)
                    &&& waits(waiting@, found@[i])
                },
            forall|j: int|
                0 <= j < waiting.len() ==> starts@.contains((#[trigger] waiting@[j]).id)
                    && waiting@[j].id < g.edges().len(),
            forall|v: int| #[trigger]
                seen.contains(v) ==> {
                    &&& 0 <= v < g.edges().len()
                    &&& holds(found@, v as u32)
                    &&& exists|i: int| 0 <= i < k && #[trigger] starts@[i] == v
                },
            forall|i: int| 0 <= i < k ==> seen.contains(#[trigger] starts@[i] as int),
        decreases starts.len() - k,
    {
        let e: u32 = starts[k];
        let s: i64 = score(e);
        let _again: bool = vis.test_set(e as usize);
        let c: Cand = Cand { sim: s, id: e };
        let w: Waiting = Waiting { sim: s, id: e };
        let ghost found0 = found@;
        let ghost waiting0 = waiting@;
        let wpos: usize = place(&mut waiting, w);
        let pos: usize = place(&mut found, c);
        proof {
            let seen0 = seen;
            assert(!seen.contains(e as int));
            seen = seen.insert(e as int);
            assert(starts@.contains(e));
            lemma_waits_grow(waiting0, wpos as int, w);
            lemma_inserted(found0, pos as int, c);
            lemma_inserted(waiting0, wpos as int, w);
            lemma_insert_distinct(found0, pos as int, c);
            assert forall|v: int| #[trigger] seen.contains(v) implies {
                &&& 0 <= v < g.edges().len()
                &&& holds(found@, v as u32)
                &&& exists|i: int| 0 <= i < k + 1 && #[trigger] starts@[i] == v
            } by {
                if v == e {
                    assert(found@[pos as int].id == e);
                    assert(starts@[k as int] == v);
                } else {
                    assert(seen0.contains(v));
                    let i = choose|i: int|
                        0 <= i < found0.len() && (#[trigger] found0[i]).id == v as u32;
                    let j = if i < pos {
                        i
                    } else {
                        i + 1
                    };
                    assert(found@[j] == found0[i]);
                    let i = choose|i: int| 0 <= i < k && #[trigger] starts@[i] == v;
                    assert(starts@[i] == v);
                }
            }
        }
        k += 1;
    }
    let ghost mut expanded: Set<int> = Set::empty();
    let ghost n = g.edges().len() as int;
    let ghost rel = scored_by(*score);
    let ghost mut trace: Seq<Moment> = seq![Moment { found: found@, waiting: waiting@, seen }];
    proof {
        assert forall|i: int| 0 <= i < found@.len() implies reaches(
            g.edges(),
            starts@,
            (#[trigger] found@[i]).id,
        ) by {
            lemma_reach_start(g.edges(), starts@, found@[i].id);
        }
        assert forall|j: int| 0 <= j < waiting@.len() implies reaches(
            g.edges(),
            starts@,
            (#[trigger] waiting@[j]).id,
        ) by {
            lemma_reach_start(g.edges(), starts@, waiting@[j].id);
        }
        lemma_seen_bound(seen, n);
        assert forall|v: int| #[trigger] seen.contains(v) <==> exists|i: int|
            0 <= i < starts@.len() && #[trigger] starts@[i] == v by {
            if exists|i: int| 0 <= i < starts@.len() && #[trigger] starts@[i] == v {
                let i = choose|i: int| 0 <= i < starts@.len() && #[trigger] starts@[i] == v;
                assert(seen.contains(starts@[i] as int));
            }
        }
        assert(opens(rel, starts@, trace[0]));
        assert(is_trace(g.edges(), rel, starts@, ef as nat, trace));
    }
    loop
        invariant_except_break
            trace.last() == (Moment { found: found@, waiting: waiting@, seen }),
        invariant
            rel == scored_by(*score),
            is_trace(g.edges(), rel, starts@, ef as nat, trace),
            vis.wf(),
            vis.size() == g.edges().len(),
            n == g.edges().len(),
            edges_inside(g.edges()),
            scores_all(g.edges().len(), *score),
            forall|v: int| #[trigger] vis.seen(v) <==> seen.contains(v),
            seen.finite(),
            seen.len() <= n,
            forall|i: int| 0 <= i < starts.len() ==> seen.contains(#[trigger] starts@[i] as int),
            beam_state(g.edges(), scored_by(*score), starts@, ef as nat, found@, waiting@, seen, expanded, expanded),
            starts.len() > 0 ==> found.len() > 0,
        ensures
            vis.wf(),
            vis.size() == g.edges().len(),
            is_walked(g.edges(), scored_by(*score), starts@, ef as nat, found@),
            in_order(found@),
            starts.len() > 0 ==> found.len() > 0,
        decreases n - seen.len() + waiting.len(),
    {
        let ghost waiting0 = waiting@;
        let ghost seen0 = seen;
        if waiting.len() == 0 {
            proof {
                lemma_beam_done(g.edges(), scored_by(*score), starts@, ef as nat, found@, waiting0, seen, expanded);
            }
            break;
        }
        let c: Waiting = waiting.pop().unwrap();
        let full: bool = found.len() > 0 && found.len() >= ef;
        if full && c.sim < found[found.len() - 1].sim {
            proof {
                assert forall|i: int| 0 <= i < found@.len() implies expanded.contains(
                    (#[trigger] found@[i]).id as int,
                ) by {
                    if !expanded.contains(found@[i].id as int) {
                        let j = choose|j: int|
                            0 <= j < waiting0.len() && #[trigger] waiting0[j] == (Waiting {
                                sim: found@[i].sim,
                                id: found@[i].id,
                            });
                        if j < waiting0.len() - 1 {
                            assert(waiting0[j].leq(waiting0[waiting0.len() - 1]));
                        }
                        if i < found@.len() - 1 {
                            assert(found@[i].leq(found@[found@.len() - 1]));
                        }
                        assert(false);
                    }
                }
                lemma_beam_done(g.edges(), scored_by(*score), starts@, ef as nat, found@, waiting0, seen, expanded);
            }
            break;
        }
        let ghost claimed = expanded.insert(c.id as int);
        proof {
            lemma_pop_claims(g.edges(), scored_by(*score), starts@, ef as nat, found@, waiting0, seen, expanded);
            assert(waiting0.drop_last() == waiting@);
        }
        let deg: usize = g.degree(c.id);
        let mut i: usize = 0;
        let ghost nodes = g.edges()[c.id as int];
        let ghost first = Moment { found: found@, waiting: waiting@, seen };
        let ghost mut mid: Seq<Moment> = seq![first];
        assert(nodes.take(0) =~= Seq::empty());
        while i < deg
            invariant
                rel == scored_by(*score),
                nodes == g.edges()[c.id as int],
                is_expansion(nodes.take(i as int), rel, ef as nat, mid),
                mid[0] == first,
                mid.last() == (Moment { found: found@, waiting: waiting@, seen }),
                i <= deg == g.edges()[c.id as int].len(),
                c.id < g.edges().len(),
                reaches(g.edges(), starts@, c.id),
                vis.wf(),
                vis.size() == g.edges().len(),
                n == g.edges().len(),
                edges_inside(g.edges()),
                scores_all(g.edges().len(), *score),
                forall|v: int| #[trigger] vis.seen(v) <==> seen.contains(v),
                seen.finite(),
                seen.len() <= n,
                forall|v: int| #[trigger] seen0.contains(v) ==> seen.contains(v),
                n - seen.len() + waiting.len() < n - seen0.len() + waiting0.len(),
                claimed == expanded.insert(c.id as int),
                beam_state(g.edges(), scored_by(*score), starts@, ef as nat, found@, waiting@, seen, expanded, claimed),
                forall|q: int|
                    0 <= q < i ==> seen.contains(#[trigger] g.edges()[c.id as int][q] as int),
                starts.len() > 0 ==> found.len() > 0,
            decreases deg - i,
        {
            let nb: u32 = g.neighbor(c.id, i);
            let ghost was = mid.last();
            if !vis.test_set(nb as usize) {
                let s: i64 = score(nb);
                assert(rel(nb, s));
                let enters: bool = found.len() == 0 || s > found[found.len() - 1].sim
                    || found.len() < ef;
                let x: Cand = Cand { sim: s, id: nb };
                let w: Waiting = Waiting { sim: s, id: nb };
                proof {
                    assert(g.edges()[c.id as int].contains(nb));
                    lemma_reach_step(g.edges(), starts@, c.id, nb);
                }
                let ghost found1 = found@;
                let ghost waiting1 = waiting@;
                let ghost seen1 = seen;
                proof {
                    seen = seen.insert(nb as int);
                    lemma_seen_bound(seen, n);
                }
                if enters {
                    let wpos: usize = place(&mut waiting, w);
                    let pos: usize = place(&mut found, x);
                    if found.len() > ef {
                        let _worst: Option<Cand> = found.pop();
                    }
                    proof {
                        assert(found@ == admitted(found1, pos as int, x, ef as nat));
                        assert(joins(found1, x, found1.insert(pos as int, x)));
                        assert(joins(waiting1, w, waiting@));
                        lemma_state_admit(
                            g.edges(),
                            scored_by(*score),
                            starts@,
                            ef as nat,
                            found1,
                            waiting1,
                            seen1,
                            expanded,
                            claimed,
                            x,
                            pos as int,
                            wpos as int,
                        );
                    }
                } else {
                    proof {
                        assert(dominated(scored_by(*score), nb, ef as nat, found@)) by {
                            assert(scored_by(*score)(nb, s));
                            assert forall|j: int| 0 <= j < found@.len() implies s <= (
                            #[trigger] found@[j]).sim by {
                                if j < found@.len() - 1 {
                                    assert(found@[j].leq(found@[found@.len() - 1]));
                                }
                            }
                        }
                        assert forall|v: int| #[trigger] seen.contains(v) implies 0 <= v
                            < g.edges().len() && settled(scored_by(*score), v as u32, ef as nat, found@) by {
                            if v != nb {
                                assert(seen1.contains(v));
                            }
                        }
                    }
                }
                assert(meets(
                    ef as nat,
                    was,
                    nb,
                    s,
                    Moment { found: found@, waiting: waiting@, seen },
                ));
            }
            proof {
                let next = Moment { found: found@, waiting: waiting@, seen };
                assert(visits(rel, ef as nat, was, nb, next));
                lemma_expansion_push(nodes.take(i as int), rel, ef as nat, mid, nb, next);
                assert(nodes.take(i as int).push(nb) =~= nodes.take(i + 1));
                mid = mid.push(next);
            }
            i += 1;
        }
        proof {
            expanded = claimed;
            assert(nodes.take(i as int) =~= nodes);
            assert(is_expansion(nodes, rel, ef as nat, mid));
            let next = Moment { found: found@, waiting: waiting@, seen };
            lemma_trace_push(g.edges(), rel, starts@, ef as nat, trace, next);
            trace = trace.push(next);
        }
    }
    found
}

// ---- One outcome ----

/// Every node has at most one score.
pub open spec fn is_single(score: spec_fn(u32, i64) -> bool) -> bool {
    forall|v: u32, s: i64, t: i64| #[trigger] score(v, s) && #[trigger] score(v, t) ==> s == t
}

/// Items that come no later than each other are the same.
pub open spec fn is_strict<T: Ranked>() -> bool {
    forall|x: T, y: T| #[trigger] x.leq(y) && #[trigger] y.leq(x) ==> x == y
}

proof fn lemma_joins_once<T: Ranked>(before: Seq<T>, x: T, a: Seq<T>, b: Seq<T>)
    requires
        is_strict::<T>(),
        joins(before, x, a),
        joins(before, x, b),
    ensures
        a == b,
{
    let p = choose|p: int| 0 <= p <= before.len() && a == #[trigger] before.insert(p, x);
    let q = choose|q: int| 0 <= q <= before.len() && b == #[trigger] before.insert(q, x);
    if p < q {
        lemma_between(before, x, p, q);
    } else if q < p {
        lemma_between(before, x, q, p);
    }
}

/// Two places for the same item differ only by copies of it.
proof fn lemma_between<T: Ranked>(before: Seq<T>, x: T, p: int, q: int)
    requires
        is_strict::<T>(),
        0 <= p < q <= before.len(),
        in_order(before.insert(p, x)),
        in_order(before.insert(q, x)),
    ensures
        before.insert(p, x) == before.insert(q, x),
{
    let a = before.insert(p, x);
    let b = before.insert(q, x);
    assert forall|k: int| p <= k < q implies before[k] == x by {
        assert(a[p] == x && a[k + 1] == before[k]);
        assert(a[p].leq(a[k + 1]));
        assert(b[k] == before[k] && b[q] == x);
        assert(b[k].leq(b[q]));
        assert(x.leq(before[k]) && before[k].leq(x));
    }
    assert(a =~= b);
}

proof fn lemma_visits_once(
    score: spec_fn(u32, i64) -> bool,
    ef: nat,
    a: Moment,
    v: u32,
    b: Moment,
    c: Moment,
)
    requires
        is_single(score),
        visits(score, ef, a, v, b),
        visits(score, ef, a, v, c),
    ensures
        b == c,
{
    if !a.seen.contains(v as int) {
        let s = choose|s: i64| #[trigger] score(v, s) && meets(ef, a, v, s, b);
        let t = choose|t: i64| #[trigger] score(v, t) && meets(ef, a, v, t, c);
        assert(s == t);
        let x = Cand { sim: s, id: v };
        let w = Waiting { sim: s, id: v };
        if has_room(a.found, s, ef) {
            assert(is_strict::<Waiting>());
            lemma_joins_once(a.waiting, w, b.waiting, c.waiting);
            let g1 = choose|grown: Seq<Cand>| #[trigger]
                joins(a.found, x, grown) && b.found == kept(grown, ef);
            let g2 = choose|grown: Seq<Cand>| #[trigger]
                joins(a.found, x, grown) && c.found == kept(grown, ef);
            assert(is_strict::<Cand>());
            lemma_joins_once(a.found, x, g1, g2);
        }
    }
}

proof fn lemma_expansion_once(
    nodes: Seq<u32>,
    score: spec_fn(u32, i64) -> bool,
    ef: nat,
    x: Seq<Moment>,
    y: Seq<Moment>,
    k: int,
)
    requires
        is_single(score),
        is_expansion(nodes, score, ef, x),
        is_expansion(nodes, score, ef, y),
        x[0] == y[0],
        0 <= k <= nodes.len(),
    ensures
        x[k] == y[k],
    decreases k,
{
    if k > 0 {
        lemma_expansion_once(nodes, score, ef, x, y, k - 1);
        assert(visits_at(nodes, score, ef, x, k - 1));
        assert(visits_at(nodes, score, ef, y, k - 1));
        lemma_visits_once(score, ef, x[k - 1], nodes[k - 1], x[k], y[k]);
    }
}

proof fn lemma_trace_once(
    g: Seq<Seq<u32>>,
    score: spec_fn(u32, i64) -> bool,
    starts: Seq<u32>,
    ef: nat,
    x: Seq<Moment>,
    y: Seq<Moment>,
    i: int,
)
    requires
        is_single(score),
        starts.no_duplicates(),
        is_trace(g, score, starts, ef, x),
        is_trace(g, score, starts, ef, y),
        0 <= i < x.len(),
        i < y.len(),
    ensures
        x[i] == y[i],
    decreases i,
{
    if i == 0 {
        lemma_opens_once(score, starts, x[0], y[0]);
    } else {
        lemma_trace_once(g, score, starts, ef, x, y, i - 1);
        assert(advances(g, score, ef, x, i - 1));
        assert(advances(g, score, ef, y, i - 1));
        let a = x[i - 1];
        let nodes = g[a.waiting.last().id as int];
        let from = Moment { waiting: a.waiting.drop_last(), ..a };
        let p = choose|mid: Seq<Moment>| #[trigger]
            is_expansion(nodes, score, ef, mid) && mid[0] == from && mid.last() == x[i];
        let q = choose|mid: Seq<Moment>| #[trigger]
            is_expansion(nodes, score, ef, mid) && mid[0] == from && mid.last() == y[i];
        lemma_expansion_once(nodes, score, ef, p, q, nodes.len() as int);
    }
}

/// Where every node has one score, a best-first search has one outcome.
pub proof fn a_search_has_one_outcome(
    g: Seq<Seq<u32>>,
    score: spec_fn(u32, i64) -> bool,
    starts: Seq<u32>,
    ef: nat,
    a: Seq<Cand>,
    b: Seq<Cand>,
)
    requires
        is_single(score),
        starts.no_duplicates(),
        is_best_first(g, score, starts, ef, a),
        is_best_first(g, score, starts, ef, b),
    ensures
        a == b,
{
    let x = choose|trace: Seq<Moment>| #[trigger]
        is_trace(g, score, starts, ef, trace) && is_over(trace.last(), ef) && trace.last().found
            == a;
    let y = choose|trace: Seq<Moment>| #[trigger]
        is_trace(g, score, starts, ef, trace) && is_over(trace.last(), ef) && trace.last().found
            == b;
    if x.len() < y.len() {
        lemma_trace_once(g, score, starts, ef, x, y, x.len() - 1);
        assert(advances(g, score, ef, y, x.len() - 1));
    } else if y.len() < x.len() {
        lemma_trace_once(g, score, starts, ef, x, y, y.len() - 1);
        assert(advances(g, score, ef, x, y.len() - 1));
    } else {
        lemma_trace_once(g, score, starts, ef, x, y, x.len() - 1);
    }
}

/// The nodes of a list of candidates.
spec fn node_list(found: Seq<Cand>) -> Seq<u32> {
    Seq::new(found.len(), |i: int| found[i].id)
}

/// As many different nodes out of `starts` as it holds are all of them.
proof fn lemma_all_starts(starts: Seq<u32>, found: Seq<Cand>)
    requires
        starts.no_duplicates(),
        found.len() == starts.len(),
        distinct_ids(found),
        forall|i: int| 0 <= i < found.len() ==> starts.contains((#[trigger] found[i]).id),
    ensures
        forall|k: int| 0 <= k < starts.len() ==> holds(found, #[trigger] starts[k]),
{
    let ids = node_list(found);
    assert(ids.no_duplicates());
    ids.unique_seq_to_set();
    starts.unique_seq_to_set();
    assert(ids.to_set().subset_of(starts.to_set())) by {
        assert forall|v: u32| #[trigger] ids.to_set().contains(v) implies starts.to_set().contains(
            v,
        ) by {
            let i = choose|i: int| 0 <= i < ids.len() && ids[i] == v;
            assert(found[i].id == v);
        }
    }
    vstd::set_lib::lemma_subset_equality(ids.to_set(), starts.to_set());
    assert forall|k: int| 0 <= k < starts.len() implies holds(found, #[trigger] starts[k]) by {
        assert(starts.to_set().contains(starts[k]));
        assert(ids.contains(starts[k]));
        let i = choose|i: int| 0 <= i < ids.len() && ids[i] == starts[k];
        assert(found[i].id == starts[k]);
    }
}

/// Ordered lists of the same different items are the same.
proof fn lemma_sorted_once<T: Ranked>(a: Seq<T>, b: Seq<T>)
    requires
        is_strict::<T>(),
        in_order(a),
        in_order(b),
        a.no_duplicates(),
        b.no_duplicates(),
        a.len() == b.len(),
        forall|i: int| 0 <= i < a.len() ==> b.contains(#[trigger] a[i]),
    ensures
        a == b,
    decreases a.len(),
{
    if a.len() > 0 {
        a.unique_seq_to_set();
        b.unique_seq_to_set();
        assert(a.to_set().subset_of(b.to_set())) by {
            assert forall|x: T| #[trigger] a.to_set().contains(x) implies b.to_set().contains(x) by {
                let i = choose|i: int| 0 <= i < a.len() && a[i] == x;
                assert(b.contains(a[i]));
            }
        }
        vstd::set_lib::lemma_subset_equality(a.to_set(), b.to_set());
        let n = a.len() - 1;
        assert(b.contains(a[n]));
        let j = choose|j: int| 0 <= j < b.len() && b[j] == a[n];
        assert(b.to_set().contains(b[n]));
        assert(a.to_set().contains(b[n]));
        let i = choose|i: int| 0 <= i < a.len() && a[i] == b[n];
        if j != n {
            assert(b[j].leq(b[n]));
            assert(i != n);
            assert(a[i].leq(a[n]));
            assert(a[n].leq(b[n]) && b[n].leq(a[n]));
            assert(false);
        }
        let a0 = a.drop_last();
        let b0 = b.drop_last();
        assert forall|k: int| 0 <= k < a0.len() implies b0.contains(#[trigger] a0[k]) by {
            assert(b.contains(a[k]));
            let q = choose|q: int| 0 <= q < b.len() && b[q] == a[k];
            assert(a[k] != a[n]);
            assert(b0[q] == a[k]);
        }
        lemma_sorted_once(a0, b0);
        assert(a =~= a0.push(a[n]));
        assert(b =~= b0.push(b[n]));
    } else {
        assert(a =~= b);
    }
}

/// The candidates that wait, in the order of the found ones.
spec fn waiting_list(found: Seq<Cand>) -> Seq<Waiting> {
    Seq::new(found.len(), |i: int| Waiting { sim: found[i].sim, id: found[i].id })
}

/// What waits at the opening is what was found.
proof fn lemma_opening_waits(a: Moment)
    requires
        a.found.len() == a.waiting.len(),
        distinct_ids(a.found),
        forall|i: int| 0 <= i < a.found.len() ==> waits(a.waiting, #[trigger] a.found[i]),
    ensures
        a.waiting.no_duplicates(),
        a.waiting.to_set() == waiting_list(a.found).to_set(),
{
    let w = waiting_list(a.found);
    assert(w.no_duplicates()) by {
        assert forall|i: int, j: int| 0 <= i < j < w.len() implies w[i] != w[j] by {
            assert(a.found[i].id != a.found[j].id);
        }
    }
    w.unique_seq_to_set();
    assert(w.to_set().subset_of(a.waiting.to_set())) by {
        assert forall|x: Waiting| #[trigger] w.to_set().contains(x) implies a.waiting.to_set().contains(
            x,
        ) by {
            let i = choose|i: int| 0 <= i < w.len() && w[i] == x;
            assert(waits(a.waiting, a.found[i]));
        }
    }
    a.waiting.lemma_cardinality_of_set();
    vstd::set_lib::lemma_len_subset(w.to_set(), a.waiting.to_set());
    vstd::set_lib::lemma_subset_equality(w.to_set(), a.waiting.to_set());
    a.waiting.lemma_no_dup_set_cardinality();
}

proof fn lemma_opens_once(
    score: spec_fn(u32, i64) -> bool,
    starts: Seq<u32>,
    a: Moment,
    b: Moment,
)
    requires
        is_single(score),
        starts.no_duplicates(),
        opens(score, starts, a),
        opens(score, starts, b),
    ensures
        a == b,
{
    lemma_all_starts(starts, b.found);
    assert forall|i: int| 0 <= i < a.found.len() implies b.found.contains(#[trigger] a.found[i]) by {
        let v = a.found[i].id;
        assert(starts.contains(v));
        let k = choose|k: int| 0 <= k < starts.len() && starts[k] == v;
        assert(holds(b.found, starts[k]));
        let j = choose|j: int| 0 <= j < b.found.len() && (#[trigger] b.found[j]).id == v;
        assert(score(a.found[i].id, a.found[i].sim) && score(b.found[j].id, b.found[j].sim));
        assert(b.found[j] == a.found[i]);
    }
    assert(is_strict::<Cand>());
    assert(a.found.no_duplicates());
    assert(b.found.no_duplicates());
    lemma_sorted_once(a.found, b.found);
    lemma_opening_waits(a);
    lemma_opening_waits(b);
    assert forall|i: int| 0 <= i < a.waiting.len() implies b.waiting.contains(
        #[trigger] a.waiting[i],
    ) by {
        assert(a.waiting.to_set().contains(a.waiting[i]));
    }
    assert(is_strict::<Waiting>());
    lemma_sorted_once(a.waiting, b.waiting);
    assert(a.seen =~= b.seen);
}

/// A search from somewhere finds something.
pub proof fn lemma_walk_finds(
    g: Seq<Seq<u32>>,
    score: spec_fn(u32, i64) -> bool,
    starts: Seq<u32>,
    ef: nat,
    found: Seq<Cand>,
)
    requires
        is_walked(g, score, starts, ef, found),
        starts.len() > 0,
    ensures
        found.len() > 0,
{
    let trace = choose|trace: Seq<Moment>| #[trigger]
        is_trace(g, score, starts, ef, trace) && is_over(trace.last(), ef)
            && trace.last().found == found;
    lemma_trace_finds(g, score, starts, ef, trace, trace.len() - 1);
}

proof fn lemma_trace_finds(
    g: Seq<Seq<u32>>,
    score: spec_fn(u32, i64) -> bool,
    starts: Seq<u32>,
    ef: nat,
    trace: Seq<Moment>,
    i: int,
)
    requires
        is_trace(g, score, starts, ef, trace),
        starts.len() > 0,
        0 <= i < trace.len(),
    ensures
        trace[i].found.len() > 0,
    decreases i,
{
    if i > 0 {
        lemma_trace_finds(g, score, starts, ef, trace, i - 1);
        assert(advances(g, score, ef, trace, i - 1));
        let a = trace[i - 1];
        let best = a.waiting.last();
        let nodes = g[best.id as int];
        let from = Moment { waiting: a.waiting.drop_last(), ..a };
        let mid = choose|mid: Seq<Moment>| #[trigger]
            is_expansion(nodes, score, ef, mid) && mid[0] == from && mid.last() == trace[i];
        lemma_expansion_finds(nodes, score, ef, mid, nodes.len() as int);
    }
}

proof fn lemma_expansion_finds(
    nodes: Seq<u32>,
    score: spec_fn(u32, i64) -> bool,
    ef: nat,
    mid: Seq<Moment>,
    k: int,
)
    requires
        is_expansion(nodes, score, ef, mid),
        mid[0].found.len() > 0,
        0 <= k <= nodes.len(),
    ensures
        mid[k].found.len() > 0,
    decreases k,
{
    if k > 0 {
        lemma_expansion_finds(nodes, score, ef, mid, k - 1);
        assert(visits_at(nodes, score, ef, mid, k - 1));
        let a = mid[k - 1];
        let v = nodes[k - 1];
        if !a.seen.contains(v as int) {
            let s = choose|s: i64| #[trigger] score(v, s) && meets(ef, a, v, s, mid[k]);
            if has_room(a.found, s, ef) {
                let grown = choose|grown: Seq<Cand>| #[trigger]
                    joins(a.found, Cand { sim: s, id: v }, grown) && mid[k].found == kept(grown, ef);
                assert(grown.len() == a.found.len() + 1);
            }
        }
    }
}

/// A beam that is not full holds every node that can be reached from its starts.
pub proof fn a_beam_with_room_holds_all_that_is_reachable(
    g: Seq<Seq<u32>>,
    score: spec_fn(u32, i64) -> bool,
    starts: Seq<u32>,
    ef: nat,
    found: Seq<Cand>,
    path: Seq<u32>,
)
    requires
        is_beam(g, score, starts, ef, found),
        found.len() < ef,
        path.len() > 0,
        starts.contains(path[0]),
        forall|i: int| 0 < i < path.len() ==> g[path[i - 1] as int].contains(#[trigger] path[i]),
    ensures
        exists|i: int| 0 <= i < found.len() && (#[trigger] found[i]).id == path.last(),
{
    let k = choose|k: int| 0 <= k < starts.len() && starts[k] == path[0];
    assert(settled(score, starts[k], ef, found));
    lemma_room_follows(g, score, starts, ef, found, path);
}

/// In a beam that is not full, what can be reached from a node that it holds is held too.
pub proof fn lemma_room_follows(
    g: Seq<Seq<u32>>,
    score: spec_fn(u32, i64) -> bool,
    starts: Seq<u32>,
    ef: nat,
    found: Seq<Cand>,
    path: Seq<u32>,
)
    requires
        is_beam(g, score, starts, ef, found),
        found.len() < ef,
        path.len() > 0,
        holds(found, path[0]),
        forall|i: int| 0 < i < path.len() ==> g[path[i - 1] as int].contains(#[trigger] path[i]),
    ensures
        holds(found, path.last()),
    decreases path.len(),
{
    let n = path.len() - 1;
    if n > 0 {
        let front = path.drop_last();
        assert forall|i: int| 0 < i < front.len() implies g[front[i - 1] as int].contains(
            #[trigger] front[i],
        ) by {
            assert(front[i] == path[i]);
        }
        lemma_room_follows(g, score, starts, ef, found, front);
        let i = choose|i: int| 0 <= i < found.len() && (#[trigger] found[i]).id == front.last();
        assert(g[path[n - 1] as int].contains(path[n]));
        let k = choose|k: int|
            0 <= k < g[found[i].id as int].len() && g[found[i].id as int][k] == path[n];
        assert(settled(score, g[found[i].id as int][k], ef, found));
    }
}

/// A beam holds no more than the nodes of the graph.
pub proof fn lemma_beam_bound(
    g: Seq<Seq<u32>>,
    score: spec_fn(u32, i64) -> bool,
    starts: Seq<u32>,
    ef: nat,
    found: Seq<Cand>,
)
    requires
        is_beam(g, score, starts, ef, found),
    ensures
        found.len() <= g.len(),
{
    let ids = Seq::new(found.len(), |i: int| found[i].id as int);
    assert(ids.no_duplicates());
    ids.unique_seq_to_set();
    assert forall|v: int| ids.to_set().contains(v) implies 0 <= v < g.len() by {
        let i = choose|i: int| 0 <= i < ids.len() && ids[i] == v;
        assert(found[i].id < g.len());
    }
    lemma_seen_bound(ids.to_set(), g.len() as int);
}

/// A search of width one stays at its start if none of the neighbours there scores higher: what
/// scores as high does not take the place of what was found before.
pub proof fn a_narrow_search_stays_at_a_peak(
    g: Seq<Seq<u32>>,
    score: spec_fn(u32, i64) -> bool,
    start: u32,
    top: i64,
    found: Seq<Cand>,
)
    requires
        is_single(score),
        is_best_first(g, score, seq![start], 1, found),
        score(start, top),
        forall|k: int, s: i64|
            0 <= k < g[start as int].len() && #[trigger] score(g[start as int][k], s) ==> s <= top,
    ensures
        found == seq![Cand { sim: top, id: start }],
{
    let trace = choose|trace: Seq<Moment>| #[trigger]
        is_trace(g, score, seq![start], 1, trace) && is_over(trace.last(), 1)
            && trace.last().found == found;
    let a = trace[0];
    let c = Cand { sim: top, id: start };
    assert(seq![start].contains(a.found[0].id));
    assert(a.found =~= seq![c]);
    assert(waits(a.waiting, a.found[0]));
    if trace.len() > 1 {
        assert(advances(g, score, 1, trace, 0));
        let nodes = g[a.waiting.last().id as int];
        let from = Moment { waiting: a.waiting.drop_last(), ..a };
        let mid = choose|mid: Seq<Moment>| #[trigger]
            is_expansion(nodes, score, 1, mid) && mid[0] == from && mid.last() == trace[1];
        lemma_nothing_enters(nodes, score, c, mid, nodes.len() as int);
        if trace.len() > 2 {
            assert(advances(g, score, 1, trace, 1));
            assert(is_over(trace[1], 1));
        }
    }
}

proof fn lemma_nothing_enters(
    nodes: Seq<u32>,
    score: spec_fn(u32, i64) -> bool,
    c: Cand,
    mid: Seq<Moment>,
    k: int,
)
    requires
        is_expansion(nodes, score, 1, mid),
        mid[0].found == seq![c],
        mid[0].waiting.len() == 0,
        forall|k: int, s: i64|
            0 <= k < nodes.len() && #[trigger] score(nodes[k], s) ==> s <= c.sim,
        0 <= k <= nodes.len(),
    ensures
        mid[k].found == seq![c],
        mid[k].waiting.len() == 0,
    decreases k,
{
    if k > 0 {
        lemma_nothing_enters(nodes, score, c, mid, k - 1);
        assert(visits_at(nodes, score, 1, mid, k - 1));
    }
}

} // verus!
