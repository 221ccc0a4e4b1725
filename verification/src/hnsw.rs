//! Hierarchical navigable small-world graph. The graph ranks nodes through a similarity that
//! the caller supplies as integer order keys, so the same topology serves any codec.

use vstd::layout::size_of;
use vstd::prelude::*;

use crate::beam::{
    a_search_has_one_outcome, beam_search, distinct_ids, edges_inside, holds, is_single, is_walked,
    lemma_beam_bound, lemma_reach_start, lemma_reach_step, lemma_reach_within, lemma_room_follows,
    lemma_walk_finds, lemma_walked_weaken, reaches, scored_by, scores_all, settled, Cand, Topology,
};
use crate::ivf::{per_vector, share};
use crate::links::{
    best_ids_are_unique, is_related_once, is_relinked, lemma_top_ids_full, rated, related_by,
    relates_all, relink, relinking_is_deterministic, seen_from, select_neighbors,
    the_most_similar_candidates_are_kept, top_ids,
};
use crate::memory::{capacity_of, saturated, saturating_product, saturating_sum, MemoryBreakdown};
use crate::order::{in_order, is_sort_of, Ranked};
use crate::sums::{total, total_of_nothing, total_of_push};

pub use crate::beam::Visited;

verus! {

/// One layer of a hierarchical graph.
pub struct LayerView<'a> {
    links: &'a Vec<Vec<Vec<u32>>>,
    layer: usize,
}

/// The neighbours of node `u` at `layer`: none where the node does not reach that high.
pub open spec fn nbrs(links: Seq<Vec<Vec<u32>>>, u: int, layer: int) -> Seq<u32> {
    if 0 <= u < links.len() && 0 <= layer < links[u]@.len() {
        links[u]@[layer]@
    } else {
        Seq::empty()
    }
}

/// One layer of the links, as a graph.
pub open spec fn layer_edges(links: Seq<Vec<Vec<u32>>>, layer: int) -> Seq<Seq<u32>> {
    Seq::new(links.len(), |u: int| nbrs(links, u, layer))
}

impl<'a> Topology for LayerView<'a> {
    closed spec fn edges(&self) -> Seq<Seq<u32>> {
        layer_edges(self.links@, self.layer as int)
    }

    fn degree(&self, u: u32) -> (d: usize) {
        let lists: &Vec<Vec<u32>> = &self.links[u as usize];
        if self.layer < lists.len() {
            lists[self.layer].len()
        } else {
            0
        }
    }

    fn neighbor(&self, u: u32, i: usize) -> (v: u32) {
        self.links[u as usize][self.layer][i]
    }
}

/// `sims` are scores of `nodes`, one by one.
pub open spec fn are_scores(
    score: spec_fn(u32, i64) -> bool,
    nodes: Seq<u32>,
    sims: Seq<i64>,
) -> bool {
    &&& sims.len() == nodes.len()
    &&& forall|k: int| 0 <= k < sims.len() ==> score(nodes[k], #[trigger] sims[k])
}

/// The `j`-th score is the first of the highest.
pub open spec fn is_first_best(sims: Seq<i64>, j: int) -> bool {
    &&& 0 <= j < sims.len()
    &&& forall|k: int|
        0 <= k < sims.len() ==> (#[trigger] sims[k]) <= sims[j] && (k < j ==> sims[k] < sims[j])
}

/// A step of the greedy climb from a node with the neighbours `nodes`: to the first of those
/// that score highest, which scores higher than the node itself.
pub open spec fn is_climb_step(
    score: spec_fn(u32, i64) -> bool,
    nodes: Seq<u32>,
    from: (u32, i64),
    to: (u32, i64),
    sims: Seq<i64>,
    j: int,
) -> bool {
    &&& are_scores(score, nodes, sims)
    &&& is_first_best(sims, j)
    &&& to == (nodes[j], sims[j])
    &&& to.1 > from.1
}

/// The `i`-th step of a climb.
pub open spec fn climbs_at(
    g: Seq<Seq<u32>>,
    score: spec_fn(u32, i64) -> bool,
    path: Seq<(u32, i64)>,
    i: int,
) -> bool {
    exists|sims: Seq<i64>, j: int| #[trigger]
        is_climb_step(score, g[path[i - 1].0 as int], path[i - 1], path[i], sims, j)
}

/// None of `nodes` scores higher than `s`.
pub open spec fn is_peak(score: spec_fn(u32, i64) -> bool, nodes: Seq<u32>, s: i64) -> bool {
    exists|sims: Seq<i64>| #[trigger]
        are_scores(score, nodes, sims) && forall|k: int|
            0 <= k < sims.len() ==> (#[trigger] sims[k]) <= s
}

/// The greedy climb from `ep`, node by node with its scores, to the first node that no neighbour
/// exceeds.
pub open spec fn is_climb(
    g: Seq<Seq<u32>>,
    score: spec_fn(u32, i64) -> bool,
    ep: u32,
    path: Seq<(u32, i64)>,
) -> bool {
    &&& path.len() > 0
    &&& path[0].0 == ep
    &&& score(ep, path[0].1)
    &&& forall|i: int| 0 < i < path.len() ==> #[trigger] climbs_at(g, score, path, i)
}

/// Greedy descent from `ep`: the end of the greedy climb, a node reached from `ep` that scores no
/// worse than `ep` and at least as high as each of its neighbours.
pub open spec fn is_descent(
    g: Seq<Seq<u32>>,
    score: spec_fn(u32, i64) -> bool,
    ep: u32,
    v: u32,
) -> bool {
    &&& v < g.len()
    &&& exists|path: Seq<(u32, i64)>| #[trigger]
        is_climb(g, score, ep, path) && path.last().0 == v && is_peak(
            score,
            g[v as int],
            path.last().1,
        )
    &&& reaches(g, seq![ep], v)
    &&& exists|top: i64, s0: i64|
        {
            &&& #[trigger] score(v, top)
            &&& #[trigger] score(ep, s0)
            &&& s0 <= top
            &&& forall|k: int|
                0 <= k < g[v as int].len() ==> scores_at_most(
                    score,
                    #[trigger] g[v as int][k],
                    top,
                )
        }
}

/// `v` has a score of at most `top`.
pub open spec fn scores_at_most(score: spec_fn(u32, i64) -> bool, v: u32, top: i64) -> bool {
    exists|s: i64| #[trigger] score(v, s) && s <= top
}

/// Greedy descent through one layer: moves to the best neighbour until none improves.
#[verifier::rlimit(60)]
fn greedy_descend<T: Topology, F: Fn(u32) -> i64>(g: &T, score: &F, ep: u32) -> (best: u32)
    requires
        ep < g.edges().len(),
        edges_inside(g.edges()),
        scores_all(g.edges().len(), *score),
    ensures
        is_descent(g.edges(), scored_by(*score), ep, best),
{
    let mut cur: u32 = ep;
    let mut cur_sim: i64 = score(cur);
    let ghost rel = scored_by(*score);
    let ghost s0 = cur_sim;
    let ghost mut path: Seq<(u32, i64)> = seq![(ep, s0)];
    proof {
        assert(rel(ep, s0));
        assert(is_climb(g.edges(), rel, ep, path));
        assert(seq![ep][0] == ep);
        lemma_reach_start(g.edges(), seq![ep], ep);
    }
    loop
        invariant
            cur < g.edges().len(),
            ep < g.edges().len(),
            edges_inside(g.edges()),
            scores_all(g.edges().len(), *score),
            rel == scored_by(*score),
            rel(ep, s0),
            rel(cur, cur_sim),
            s0 <= cur_sim,
            reaches(g.edges(), seq![ep], cur),
            is_climb(g.edges(), rel, ep, path),
            path.last() == (cur, cur_sim),
        decreases i64::MAX - cur_sim,
    {
        let from: u32 = cur;
        let from_sim: i64 = cur_sim;
        let deg: usize = g.degree(from);
        let mut improved: bool = false;
        let mut i: usize = 0;
        let ghost nodes = g.edges()[from as int];
        let ghost mut sims: Seq<i64> = Seq::empty();
        let ghost mut best: int = 0;
        while i < deg
            invariant
                nodes == g.edges()[from as int],
                sims.len() == i,
                forall|k: int| 0 <= k < i ==> rel(nodes[k], #[trigger] sims[k]),
                forall|k: int| 0 <= k < i ==> (#[trigger] sims[k]) <= cur_sim,
                improved ==> {
                    &&& 0 <= best < i
                    &&& cur == nodes[best]
                    &&& cur_sim == sims[best]
                    &&& forall|k: int| 0 <= k < best ==> (#[trigger] sims[k]) < cur_sim
                },
                i <= deg == g.edges()[from as int].len(),
                from < g.edges().len(),
                cur < g.edges().len(),
                edges_inside(g.edges()),
                scores_all(g.edges().len(), *score),
                rel == scored_by(*score),
                rel(cur, cur_sim),
                from_sim <= cur_sim,
                improved ==> from_sim < cur_sim,
                !improved ==> cur == from && cur_sim == from_sim,
                reaches(g.edges(), seq![ep], from),
                reaches(g.edges(), seq![ep], cur),
                forall|k: int|
                    0 <= k < i ==> scores_at_most(
                        rel,
                        #[trigger] g.edges()[from as int][k],
                        cur_sim,
                    ),
            decreases deg - i,
        {
            let nb: u32 = g.neighbor(from, i);
            let s: i64 = score(nb);
            let ghost before = cur_sim;
            proof {
                assert(rel(nb, s));
                assert(g.edges()[from as int].contains(nb));
                lemma_reach_step(g.edges(), seq![ep], from, nb);
            }
            if s > cur_sim {
                cur_sim = s;
                cur = nb;
                improved = true;
                proof {
                    best = i as int;
                }
            }
            proof {
                sims = sims.push(s);
                assert forall|k: int| 0 <= k < i + 1 implies scores_at_most(
                    rel,
                    #[trigger] g.edges()[from as int][k],
                    cur_sim,
                ) by {
                    if k < i {
                        assert(scores_at_most(rel, g.edges()[from as int][k], before));
                        let t = choose|t: i64| #[trigger]
                            rel(g.edges()[from as int][k], t) && t <= before;
                        assert(rel(g.edges()[from as int][k], t) && t <= cur_sim);
                    }
                }
            }
            i += 1;
        }
        proof {
            assert(are_scores(rel, nodes, sims));
        }
        if !improved {
            assert(is_peak(rel, nodes, cur_sim));
            return cur;
        }
        proof {
            let longer = path.push((cur, cur_sim));
            assert(is_climb_step(rel, nodes, path.last(), (cur, cur_sim), sims, best));
            assert forall|q: int| 0 < q < longer.len() implies #[trigger] climbs_at(
                g.edges(),
                rel,
                longer,
                q,
            ) by {
                assert(longer[q - 1] == path[q - 1]);
                let around = g.edges()[path[q - 1].0 as int];
                if q < path.len() {
                    assert(longer[q] == path[q]);
                    assert(climbs_at(g.edges(), rel, path, q));
                    let (t, j) = choose|t: Seq<i64>, j: int| #[trigger]
                        is_climb_step(rel, around, path[q - 1], path[q], t, j);
                    assert(is_climb_step(rel, around, longer[q - 1], longer[q], t, j));
                } else {
                    assert(path[q - 1] == path.last());
                    assert(longer[q] == (cur, cur_sim));
                    assert(is_climb_step(rel, around, longer[q - 1], longer[q], sims, best));
                }
            }
            assert(longer[0] == path[0]);
            path = longer;
        }
    }
}

/// How many neighbours a node keeps at a layer: twice as many at the base.
pub open spec fn cap(m: nat, layer: int) -> nat {
    if layer == 0 {
        2 * m
    } else {
        m
    }
}

/// A neighbour list of `u` at `layer` over the first `k` nodes: at most `most` distinct nodes
/// other than `u`, each of which reaches up to that layer.
pub open spec fn list_ok(
    list: Seq<u32>,
    levels: Seq<u8>,
    u: int,
    layer: int,
    k: int,
    most: nat,
) -> bool {
    &&& list.len() <= most
    &&& list.no_duplicates()
    &&& forall|i: int|
        0 <= i < list.len() ==> (#[trigger] list[i]) < k && list[i] != u && levels[list[i] as int]
            >= layer
}

/// All neighbour lists of a layer are well formed, and those of nodes from `k` on are empty.
pub open spec fn lists_ok(
    links: Seq<Vec<Vec<u32>>>,
    levels: Seq<u8>,
    layer: int,
    k: int,
    most: nat,
) -> bool {
    forall|u: int|
        0 <= u < links.len() ==> {
            &&& list_ok(#[trigger] nbrs(links, u, layer), levels, u, layer, k, most)
            &&& u >= k ==> nbrs(links, u, layer).len() == 0
        }
}

/// Every node has a list for each layer up to its level.
pub open spec fn shaped(links: Seq<Vec<Vec<u32>>>, levels: Seq<u8>) -> bool {
    &&& links.len() == levels.len()
    &&& forall|u: int|
        0 <= u < links.len() ==> (#[trigger] links[u])@.len() == levels[u] as int + 1
}

/// The graph over the first `k` nodes is well formed: shapes, lists and degree caps hold at
/// every layer, and the entry node is one of the highest.
pub open spec fn graph_ok(
    links: Seq<Vec<Vec<u32>>>,
    levels: Seq<u8>,
    entry: u32,
    top: nat,
    m: nat,
    k: int,
) -> bool {
    &&& shaped(links, levels)
    &&& 0 <= k <= links.len() <= u32::MAX
    &&& forall|layer: int|
        0 <= layer ==> #[trigger] lists_ok(links, levels, layer, k, cap(m, layer))
    &&& k > 0 ==> {
        &&& entry < k
        &&& levels[entry as int] == top
        &&& forall|u: int| 0 <= u < k ==> (#[trigger] levels[u]) <= top
    }
}

/// The nodes of a beam.
pub open spec fn ids(found: Seq<Cand>) -> Seq<u32> {
    Seq::new(found.len(), |i: int| found[i].id)
}

/// One layer after `node` was linked into it: `node` lists the `m` best of `found`; each of
/// these has `node` appended to its own list, cut back to the cap; no other list changed.
pub open spec fn is_linked(
    sim: spec_fn(u32, u32, i64) -> bool,
    before: Seq<Vec<Vec<u32>>>,
    after: Seq<Vec<Vec<u32>>>,
    node: u32,
    layer: int,
    found: Seq<Cand>,
    m: nat,
) -> bool {
    &&& top_ids(found, m, nbrs(after, node as int, layer))
    &&& forall|u: int|
        0 <= u < before.len() && u != node ==> if nbrs(after, node as int, layer).contains(
            u as u32,
        ) {
            is_relinked(
                sim,
                nbrs(before, u, layer),
                u as u32,
                node,
                cap(m, layer),
                #[trigger] nbrs(after, u, layer),
            )
        } else {
            nbrs(after, u, layer) == nbrs(before, u, layer)
        }
}

/// Where the beam of a layer starts: at the end of the descent for the highest layer that is
/// linked, else at the nodes found one layer above.
pub open spec fn starts_at(
    trail: Seq<u32>,
    founds: Seq<Seq<Cand>>,
    layer: int,
    start: int,
) -> Seq<u32> {
    if layer == start {
        seq![trail.last()]
    } else {
        ids(founds[layer + 1])
    }
}

/// A greedy descent through the layers from `top` down to just above `low`.
pub open spec fn is_trail(
    links: Seq<Vec<Vec<u32>>>,
    score: spec_fn(u32, i64) -> bool,
    entry: u32,
    top: int,
    low: int,
    trail: Seq<u32>,
) -> bool {
    &&& trail.len() == if top > low {
        top - low + 1
    } else {
        1
    }
    &&& trail[0] == entry
    &&& forall|i: int| 0 < i < trail.len() ==> #[trigger] descends_at(links, score, top, trail, i)
}

/// The `i`-th step of a trail is a descent through its layer.
pub open spec fn descends_at(
    links: Seq<Vec<Vec<u32>>>,
    score: spec_fn(u32, i64) -> bool,
    top: int,
    trail: Seq<u32>,
    i: int,
) -> bool {
    is_descent(layer_edges(links, top - i + 1), score, trail[i - 1], trail[i])
}

/// The links after `node` of level `lv` was linked into a graph of height `top`.
#[verifier::opaque]
pub open spec fn is_placed(
    sim: spec_fn(u32, u32, i64) -> bool,
    before: Seq<Vec<Vec<u32>>>,
    after: Seq<Vec<Vec<u32>>>,
    entry: u32,
    top: int,
    node: u32,
    lv: int,
    m: nat,
    ef: nat,
    trail: Seq<u32>,
    founds: Seq<Seq<Cand>>,
) -> bool {
    let start = if lv < top {
        lv
    } else {
        top
    };
    &&& after.len() == before.len()
    &&& is_trail(before, seen_from(sim, node), entry, top, lv, trail)
    &&& founds.len() == start + 1
    &&& forall|layer: int|
        0 <= layer <= start ==> {
            &&& is_walked(
                layer_edges(before, layer),
                seen_from(sim, node),
                starts_at(trail, founds, layer, start),
                ef,
                #[trigger] founds[layer],
            )
            &&& is_linked(sim, before, after, node, layer, founds[layer], m)
        }
    &&& forall|u: int, layer: int|
        layer > start ==> #[trigger] nbrs(after, u, layer) == nbrs(before, u, layer)
}

/// Edges of a well-formed layer stay inside the graph.
proof fn lemma_layer_inside(links: Seq<Vec<Vec<u32>>>, levels: Seq<u8>, layer: int, k: int, most: nat)
    requires
        lists_ok(links, levels, layer, k, most),
        k <= links.len(),
    ensures
        edges_inside(layer_edges(links, layer)),
{
    let g = layer_edges(links, layer);
    assert forall|u: int, i: int| 0 <= u < g.len() && 0 <= i < g[u].len() implies (
    #[trigger] g[u][i]) < g.len() by {
        assert(g[u] == nbrs(links, u, layer));
    }
}

/// What linked nodes of a layer reach are linked nodes of that layer.
proof fn lemma_layer_reach(
    links: Seq<Vec<Vec<u32>>>,
    levels: Seq<u8>,
    layer: int,
    k: int,
    most: nat,
    starts: Seq<u32>,
    v: u32,
)
    requires
        lists_ok(links, levels, layer, k, most),
        k <= links.len(),
        forall|i: int|
            0 <= i < starts.len() ==> (#[trigger] starts[i]) < k && levels[starts[i] as int]
                >= layer,
        reaches(layer_edges(links, layer), starts, v),
    ensures
        v < k,
        levels[v as int] >= layer,
{
    let g = layer_edges(links, layer);
    let inside = |x: u32| x < k && levels[x as int] >= layer;
    assert forall|u: u32, i: int| inside(u) && 0 <= i < g[u as int].len() implies inside(
        #[trigger] g[u as int][i],
    ) by {
        assert(g[u as int] == nbrs(links, u as int, layer));
    }
    lemma_reach_within(g, starts, inside, v);
}

/// A descent stays one when more scores are admitted for a node.
proof fn lemma_descent_weaken(
    g: Seq<Seq<u32>>,
    a: spec_fn(u32, i64) -> bool,
    b: spec_fn(u32, i64) -> bool,
    ep: u32,
    v: u32,
)
    requires
        is_descent(g, a, ep, v),
        forall|x: u32, s: i64| #[trigger] a(x, s) ==> b(x, s),
    ensures
        is_descent(g, b, ep, v),
{
    let path = choose|path: Seq<(u32, i64)>| #[trigger]
        is_climb(g, a, ep, path) && path.last().0 == v && is_peak(a, g[v as int], path.last().1);
    assert forall|i: int| 0 < i < path.len() implies #[trigger] climbs_at(g, b, path, i) by {
        assert(climbs_at(g, a, path, i));
        let nodes = g[path[i - 1].0 as int];
        let (sims, q) = choose|sims: Seq<i64>, q: int| #[trigger]
            is_climb_step(a, nodes, path[i - 1], path[i], sims, q);
        assert(are_scores(b, nodes, sims)) by {
            assert forall|k: int| 0 <= k < sims.len() implies b(nodes[k], #[trigger] sims[k]) by {
                assert(a(nodes[k], sims[k]));
            }
        }
        assert(is_climb_step(b, nodes, path[i - 1], path[i], sims, q));
    }
    assert(a(ep, path[0].1));
    assert(is_climb(g, b, ep, path));
    let nodes = g[v as int];
    let sims = choose|sims: Seq<i64>| #[trigger]
        are_scores(a, nodes, sims) && forall|k: int|
            0 <= k < sims.len() ==> (#[trigger] sims[k]) <= path.last().1;
    assert forall|k: int| 0 <= k < sims.len() implies b(nodes[k], #[trigger] sims[k]) by {
        assert(a(nodes[k], sims[k]));
    }
    assert(are_scores(b, nodes, sims));
    assert(is_peak(b, nodes, path.last().1));
    let (top, s0) = choose|top: i64, s0: i64|
        {
            &&& #[trigger] a(v, top)
            &&& #[trigger] a(ep, s0)
            &&& s0 <= top
            &&& forall|k: int|
                0 <= k < g[v as int].len() ==> scores_at_most(a, #[trigger] g[v as int][k], top)
        };
    assert(b(v, top) && b(ep, s0));
    assert forall|k: int| 0 <= k < g[v as int].len() implies scores_at_most(
        b,
        #[trigger] g[v as int][k],
        top,
    ) by {
        assert(scores_at_most(a, g[v as int][k], top));
        let s = choose|s: i64| #[trigger] a(g[v as int][k], s) && s <= top;
        assert(b(g[v as int][k], s));
    }
}

/// A trail stays one when more scores are admitted for a node.
proof fn lemma_trail_weaken(
    links: Seq<Vec<Vec<u32>>>,
    a: spec_fn(u32, i64) -> bool,
    b: spec_fn(u32, i64) -> bool,
    entry: u32,
    top: int,
    low: int,
    trail: Seq<u32>,
)
    requires
        is_trail(links, a, entry, top, low, trail),
        forall|x: u32, s: i64| #[trigger] a(x, s) ==> b(x, s),
    ensures
        is_trail(links, b, entry, top, low, trail),
{
    assert forall|i: int| 0 < i < trail.len() implies #[trigger] descends_at(
        links,
        b,
        top,
        trail,
        i,
    ) by {
        assert(descends_at(links, a, top, trail, i));
        lemma_descent_weaken(layer_edges(links, top - i + 1), a, b, trail[i - 1], trail[i]);
    }
}

/// Linking concerns one layer only.
proof fn lemma_linked_frame(
    sim: spec_fn(u32, u32, i64) -> bool,
    before: Seq<Vec<Vec<u32>>>,
    a: Seq<Vec<Vec<u32>>>,
    b: Seq<Vec<Vec<u32>>>,
    node: u32,
    layer: int,
    found: Seq<Cand>,
    m: nat,
)
    requires
        is_linked(sim, before, a, node, layer, found, m),
        forall|u: int| #[trigger] nbrs(b, u, layer) == nbrs(a, u, layer),
    ensures
        is_linked(sim, before, b, node, layer, found, m),
{
    assert forall|u: int| 0 <= u < before.len() && u != node implies if nbrs(
        b,
        node as int,
        layer,
    ).contains(u as u32) {
        is_relinked(
            sim,
            nbrs(before, u, layer),
            u as u32,
            node,
            cap(m, layer),
            #[trigger] nbrs(b, u, layer),
        )
    } else {
        nbrs(b, u, layer) == nbrs(before, u, layer)
    } by {
        assert(nbrs(b, u, layer) == nbrs(a, u, layer));
    }
}

proof fn lemma_lists_frame(
    a: Seq<Vec<Vec<u32>>>,
    b: Seq<Vec<Vec<u32>>>,
    levels: Seq<u8>,
    layer: int,
    k: int,
    most: nat,
)
    requires
        a.len() == b.len(),
        lists_ok(a, levels, layer, k, most),
        forall|u: int| #[trigger] nbrs(b, u, layer) == nbrs(a, u, layer),
    ensures
        lists_ok(b, levels, layer, k, most),
{
    assert forall|u: int| 0 <= u < b.len() implies {
        &&& list_ok(#[trigger] nbrs(b, u, layer), levels, u, layer, k, most)
        &&& u >= k ==> nbrs(b, u, layer).len() == 0
    } by {
        assert(nbrs(b, u, layer) == nbrs(a, u, layer));
        assert(list_ok(nbrs(a, u, layer), levels, u, layer, k, most));
    }
}

proof fn lemma_edges_frame(a: Seq<Vec<Vec<u32>>>, b: Seq<Vec<Vec<u32>>>, layer: int)
    requires
        a.len() == b.len(),
        forall|u: int| #[trigger] nbrs(b, u, layer) == nbrs(a, u, layer),
    ensures
        layer_edges(b, layer) == layer_edges(a, layer),
{
    let x = layer_edges(a, layer);
    let y = layer_edges(b, layer);
    assert forall|u: int| 0 <= u < x.len() implies #[trigger] x[u] == y[u] by {
        assert(nbrs(b, u, layer) == nbrs(a, u, layer));
    }
    assert(x =~= y);
}

/// An insertion that has linked the layers from `start` down to `layer`.
spec fn linked_down_to(
    sim: spec_fn(u32, u32, i64) -> bool,
    before: Seq<Vec<Vec<u32>>>,
    now: Seq<Vec<Vec<u32>>>,
    levels: Seq<u8>,
    node: u32,
    layer: int,
    start: int,
    m: nat,
    ef: nat,
    trail: Seq<u32>,
    founds: Seq<Seq<Cand>>,
) -> bool {
    &&& founds.len() == start + 1
    &&& now.len() == before.len()
    &&& forall|u: int, l: int|
        l < layer || l > start ==> #[trigger] nbrs(now, u, l) == nbrs(before, u, l)
    &&& forall|l: int|
        layer <= l <= start ==> #[trigger] lists_ok(now, levels, l, node + 1, cap(m, l))
    &&& forall|l: int|
        layer <= l <= start ==> {
            &&& is_walked(
                layer_edges(before, l),
                seen_from(sim, node),
                starts_at(trail, founds, l, start),
                ef,
                #[trigger] founds[l],
            )
            &&& is_linked(sim, before, now, node, l, founds[l], m)
        }
}

/// Linking one more layer.
proof fn lemma_link_step(
    sim: spec_fn(u32, u32, i64) -> bool,
    before: Seq<Vec<Vec<u32>>>,
    mid: Seq<Vec<Vec<u32>>>,
    now: Seq<Vec<Vec<u32>>>,
    levels: Seq<u8>,
    node: u32,
    layer: int,
    start: int,
    m: nat,
    ef: nat,
    trail: Seq<u32>,
    founds: Seq<Seq<Cand>>,
    found: Seq<Cand>,
)
    requires
        0 <= layer <= start,
        linked_down_to(sim, before, mid, levels, node, layer + 1, start, m, ef, trail, founds),
        now.len() == mid.len(),
        forall|u: int, l: int| l != layer ==> #[trigger] nbrs(now, u, l) == nbrs(mid, u, l),
        lists_ok(now, levels, layer, node + 1, cap(m, layer)),
        is_walked(
            layer_edges(mid, layer),
            seen_from(sim, node),
            starts_at(trail, founds, layer, start),
            ef,
            found,
        ),
        is_linked(sim, mid, now, node, layer, found, m),
    ensures
        linked_down_to(
            sim,
            before,
            now,
            levels,
            node,
            layer,
            start,
            m,
            ef,
            trail,
            founds.update(layer, found),
        ),
{
    let next = founds.update(layer, found);
    assert forall|u: int, l: int| l < layer || l > start implies #[trigger] nbrs(now, u, l) == nbrs(
        before,
        u,
        l,
    ) by {
        assert(nbrs(now, u, l) == nbrs(mid, u, l));
    }
    lemma_edges_frame(before, mid, layer);
    assert(is_linked(sim, before, now, node, layer, found, m)) by {
        assert forall|u: int| 0 <= u < before.len() && u != node implies if nbrs(
            now,
            node as int,
            layer,
        ).contains(u as u32) {
            is_relinked(
                sim,
                nbrs(before, u, layer),
                u as u32,
                node,
                cap(m, layer),
                #[trigger] nbrs(now, u, layer),
            )
        } else {
            nbrs(now, u, layer) == nbrs(before, u, layer)
        } by {
            assert(nbrs(mid, u, layer) == nbrs(before, u, layer));
        }
    }
    assert forall|l: int| layer <= l <= start implies #[trigger] lists_ok(
        now,
        levels,
        l,
        node + 1,
        cap(m, l),
    ) by {
        if l > layer {
            assert(lists_ok(mid, levels, l, node + 1, cap(m, l)));
            lemma_lists_frame(mid, now, levels, l, node + 1, cap(m, l));
        }
    }
    assert forall|l: int| layer <= l <= start implies {
        &&& is_walked(
            layer_edges(before, l),
            seen_from(sim, node),
            starts_at(trail, next, l, start),
            ef,
            #[trigger] next[l],
        )
        &&& is_linked(sim, before, now, node, l, next[l], m)
    } by {
        assert(starts_at(trail, next, l, start) == starts_at(trail, founds, l, start));
        if l > layer {
            assert(next[l] == founds[l]);
            lemma_linked_frame(sim, before, mid, now, node, l, founds[l], m);
        }
    }
}

/// Once every layer up to `start` is linked, all lists are well formed over one more node.
proof fn lemma_all_linked(
    sim: spec_fn(u32, u32, i64) -> bool,
    before: Seq<Vec<Vec<u32>>>,
    now: Seq<Vec<Vec<u32>>>,
    levels: Seq<u8>,
    node: u32,
    start: int,
    m: nat,
    ef: nat,
    trail: Seq<u32>,
    founds: Seq<Seq<Cand>>,
)
    requires
        linked_down_to(sim, before, now, levels, node, 0, start, m, ef, trail, founds),
        forall|l: int| 0 <= l ==> #[trigger] lists_ok(before, levels, l, node as int, cap(m, l)),
    ensures
        forall|l: int| 0 <= l ==> #[trigger] lists_ok(now, levels, l, node + 1, cap(m, l)),
{
    assert forall|l: int| 0 <= l implies #[trigger] lists_ok(
        now,
        levels,
        l,
        node + 1,
        cap(m, l),
    ) by {
        if l > start {
            assert(lists_ok(before, levels, l, node as int, cap(m, l)));
            lemma_lists_frame(before, now, levels, l, node as int, cap(m, l));
            assert forall|u: int| 0 <= u < now.len() implies list_ok(
                #[trigger] nbrs(now, u, l),
                levels,
                u,
                l,
                node + 1,
                cap(m, l),
            ) && (u >= node + 1 ==> nbrs(now, u, l).len() == 0) by {
                assert(list_ok(nbrs(now, u, l), levels, u, l, node as int, cap(m, l)));
            }
        }
    }
}

/// The nodes of `found`.
fn ids_of(found: &Vec<Cand>) -> (out: Vec<u32>)
    ensures
        out@ == ids(found@),
{
    let mut out: Vec<u32> = Vec::with_capacity(found.len());
    let mut i: usize = 0;
    while i < found.len()
        invariant
            i <= found.len(),
            out@ == ids(found@.take(i as int)),
        decreases found.len() - i,
    {
        out.push(found[i].id);
        i += 1;
        assert(out@ =~= ids(found@.take(i as int)));
    }
    assert(found@.take(i as int) =~= found@);
    out
}

/// Replaces one neighbour list.
fn set_list(links: &mut Vec<Vec<Vec<u32>>>, u: usize, layer: usize, list: Vec<u32>)
    requires
        u < old(links)@.len(),
        layer < old(links)@[u as int]@.len(),
    ensures
        final(links)@.len() == old(links)@.len(),
        forall|v: int|
            0 <= v < old(links)@.len() ==> (#[trigger] final(links)@[v])@.len()
                == old(links)@[v]@.len(),
        nbrs(final(links)@, u as int, layer as int) == list@,
        forall|v: int, l: int|
            !(v == u && l == layer) ==> #[trigger] nbrs(final(links)@, v, l) == nbrs(
                old(links)@,
                v,
                l,
            ),
{
    links[u][layer] = list;
}

/// A hierarchical navigable small-world graph over the nodes `0..len()`.
pub struct Hnsw {
    links: Vec<Vec<Vec<u32>>>,
    levels: Vec<u8>,
    entry: u32,
    max_level: usize,
    m: usize,
    m0: usize,
    ef_construction: usize,
    bytes_per_vec: usize,
    codes_are_recon: bool,
}

/// The entry node once `k` nodes are linked: the first of the highest.
pub open spec fn leader(levels: Seq<u8>, k: nat) -> u32
    decreases k,
{
    if k <= 1 {
        0
    } else {
        let l = leader(levels, (k - 1) as nat);
        if levels[k - 1] > levels[l as int] {
            (k - 1) as u32
        } else {
            l
        }
    }
}

/// The height of the graph once `k` nodes are linked.
pub open spec fn height(levels: Seq<u8>, k: nat) -> nat {
    if k == 0 {
        0
    } else {
        levels[leader(levels, k) as int] as nat
    }
}

/// The `k`-th state of `trace` results from the one before it by linking node `k`.
pub open spec fn is_step(
    sim: spec_fn(u32, u32, i64) -> bool,
    levels: Seq<u8>,
    m: nat,
    ef: nat,
    trace: Seq<Seq<Vec<Vec<u32>>>>,
    k: int,
) -> bool {
    exists|trail: Seq<u32>, founds: Seq<Seq<Cand>>| #[trigger]
        is_placed(
            sim,
            trace[k - 1],
            trace[k],
            leader(levels, k as nat),
            height(levels, k as nat) as int,
            k as u32,
            levels[k] as int,
            m,
            ef,
            trail,
            founds,
        )
}

/// `trace` lists the links from the empty graph on, one step for each node from the second to
/// the `n`-th.
pub open spec fn is_build(
    sim: spec_fn(u32, u32, i64) -> bool,
    levels: Seq<u8>,
    m: nat,
    ef: nat,
    n: nat,
    trace: Seq<Seq<Vec<Vec<u32>>>>,
) -> bool {
    &&& trace.len() == if n == 0 {
        1
    } else {
        n
    }
    &&& shaped(trace[0], levels)
    &&& forall|u: int, l: int| (#[trigger] nbrs(trace[0], u, l)).len() == 0
    &&& forall|k: int| 1 <= k < n ==> #[trigger] is_step(sim, levels, m, ef, trace, k)
}

proof fn lemma_build_push(
    sim: spec_fn(u32, u32, i64) -> bool,
    levels: Seq<u8>,
    m: nat,
    ef: nat,
    k: nat,
    trace: Seq<Seq<Vec<Vec<u32>>>>,
    after: Seq<Vec<Vec<u32>>>,
)
    requires
        1 <= k,
        is_build(sim, levels, m, ef, k, trace),
        exists|trail: Seq<u32>, founds: Seq<Seq<Cand>>| #[trigger]
            is_placed(
                sim,
                trace.last(),
                after,
                leader(levels, k),
                height(levels, k) as int,
                k as u32,
                levels[k as int] as int,
                m,
                ef,
                trail,
                founds,
            ),
    ensures
        is_build(sim, levels, m, ef, k + 1, trace.push(after)),
{
    let next = trace.push(after);
    assert forall|j: int| 1 <= j < k + 1 implies #[trigger] is_step(
        sim,
        levels,
        m,
        ef,
        next,
        j,
    ) by {
        if j < k {
            assert(is_step(sim, levels, m, ef, trace, j));
            assert(next[j] == trace[j]);
            assert(next[j - 1] == trace[j - 1]);
        } else {
            let (trail, founds) = choose|trail: Seq<u32>, founds: Seq<Seq<Cand>>| #[trigger]
                is_placed(
                    sim,
                    trace.last(),
                    after,
                    leader(levels, k),
                    height(levels, k) as int,
                    k as u32,
                    levels[k as int] as int,
                    m,
                    ef,
                    trail,
                    founds,
                );
            assert(next[j - 1] == trace.last());
            assert(next[j] == after);
            assert(j as nat == k);
            assert(is_placed(
                sim,
                next[j - 1],
                next[j],
                leader(levels, j as nat),
                height(levels, j as nat) as int,
                j as u32,
                levels[j] as int,
                m,
                ef,
                trail,
                founds,
            ));
        }
    }
}

/// The first `k` entries of `found`, as pairs of id and similarity.
pub open spec fn best_pairs(found: Seq<Cand>, k: nat) -> Seq<(i64, i64)> {
    Seq::new(
        if k < found.len() {
            k
        } else {
            found.len()
        },
        |i: int| (found[i].id as i64, found[i].sim),
    )
}

/// The beam of a search for `k` nodes is never narrower than `k`.
pub open spec fn search_width(ef: nat, k: nat) -> nat {
    if ef < k {
        k
    } else {
        ef
    }
}

/// What a search returns: nothing from an empty graph or for `k` zero; else the best `k` of a
/// beam at the base that starts where a descent from the entry node ends.
pub open spec fn is_search(
    h: Hnsw,
    score: spec_fn(u32, i64) -> bool,
    k: nat,
    ef: nat,
    hits: Seq<(i64, i64)>,
) -> bool {
    if h.links().len() == 0 || k == 0 {
        hits.len() == 0
    } else {
        exists|trail: Seq<u32>, found: Seq<Cand>|
            {
                &&& #[trigger] is_trail(h.links(), score, h.entry(), h.top() as int, 0, trail)
                &&& #[trigger] is_walked(
                    layer_edges(h.links(), 0),
                    score,
                    seq![trail.last()],
                    search_width(ef, k),
                    found,
                )
                &&& in_order(found)
                &&& hits == best_pairs(found, k)
            }
    }
}

/// What the lists of one node hold, in bytes: a header for each list and four bytes for each of
/// the neighbours in the first `k` lists.
pub open spec fn lists_bytes(lists: Seq<Vec<u32>>, k: int) -> nat
    decreases k,
{
    if k <= 0 {
        lists.len() * size_of::<Vec<u32>>()
    } else {
        lists_bytes(lists, k - 1) + 4 * lists[k - 1]@.len()
    }
}

/// What the lists of the first `k` nodes hold, in bytes.
pub open spec fn graph_bytes(links: Seq<Vec<Vec<u32>>>, k: int) -> nat
    decreases k,
{
    if k <= 0 {
        0
    } else {
        graph_bytes(links, k - 1) + lists_bytes(links[k - 1]@, links[k - 1]@.len() as int)
    }
}

/// What one node's lists take when `room.0` lists have room and list `l` has room for
/// `room.1[l]` neighbours, over the first `k` lists.
pub open spec fn room_bytes(room: (usize, Vec<usize>), k: int) -> nat
    decreases k,
{
    if k <= 0 {
        room.0 as nat * size_of::<Vec<u32>>()
    } else {
        room_bytes(room, k - 1) + 4 * room.1@[k - 1] as nat
    }
}

/// What the lists of the first `k` nodes take.
pub open spec fn rooms_upto(rooms: Seq<(usize, Vec<usize>)>, k: int) -> nat
    decreases k,
{
    if k <= 0 {
        0
    } else {
        rooms_upto(rooms, k - 1) + room_bytes(rooms[k - 1], rooms[k - 1].1@.len() as int)
    }
}

/// What the lists of every node take.
pub open spec fn rooms_bytes(rooms: Seq<(usize, Vec<usize>)>) -> nat {
    rooms_upto(rooms, rooms.len() as int)
}

/// What an index takes: a header for each node there is room for, the lists of the nodes, and a
/// byte for each level there is room for.
pub open spec fn index_cost(
    links_room: usize,
    levels_room: usize,
    rooms: Seq<(usize, Vec<usize>)>,
) -> nat {
    links_room as nat * size_of::<Vec<Vec<u32>>>() + rooms_bytes(rooms) + levels_room as nat
}

/// There is room for every list of a node and for every neighbour in it.
pub open spec fn room_holds(lists: Seq<Vec<u32>>, room: (usize, Vec<usize>)) -> bool {
    &&& room.0 >= lists.len()
    &&& room.1@.len() == lists.len()
    &&& forall|l: int| 0 <= l < lists.len() ==> #[trigger] room.1@[l] >= lists[l]@.len()
}

/// There is room for every list of every node.
pub open spec fn rooms_hold(links: Seq<Vec<Vec<u32>>>, rooms: Seq<(usize, Vec<usize>)>) -> bool {
    &&& rooms.len() == links.len()
    &&& forall|u: int| 0 <= u < links.len() ==> #[trigger] room_holds(links[u]@, rooms[u])
}

/// The bytes of an index whose vectors have the given room, saturating.
pub fn index_bytes_of(
    links_room: usize,
    levels_room: usize,
    rooms: &Vec<(usize, Vec<usize>)>,
) -> (r: usize)
    ensures
        r == saturated(index_cost(links_room, levels_room, rooms@) as int),
{
    let mut bytes: usize = saturating_sum(
        saturating_product(links_room, std::mem::size_of::<Vec<Vec<u32>>>()),
        levels_room,
    );
    let ghost base = (links_room as nat * size_of::<Vec<Vec<u32>>>() + levels_room as nat) as int;
    let mut u: usize = 0;
    while u < rooms.len()
        invariant
            u <= rooms.len(),
            base >= 0,
            bytes == saturated(base + rooms_upto(rooms@, u as int)),
        decreases rooms.len() - u,
    {
        let mut held: usize = saturating_product(rooms[u].0, std::mem::size_of::<Vec<u32>>());
        let mut l: usize = 0;
        while l < rooms[u].1.len()
            invariant
                u < rooms.len(),
                l <= rooms@[u as int].1@.len(),
                held == saturated(room_bytes(rooms@[u as int], l as int) as int),
            decreases rooms@[u as int].1@.len() - l,
        {
            held = saturating_sum(held, saturating_product(rooms[u].1[l], 4));
            l += 1;
        }
        bytes = saturating_sum(bytes, held);
        u += 1;
    }
    bytes
}

/// The room that every list has.
fn rooms_of(links: &Vec<Vec<Vec<u32>>>) -> (rooms: Vec<(usize, Vec<usize>)>)
    ensures
        rooms_hold(links@, rooms@),
{
    let mut rooms: Vec<(usize, Vec<usize>)> = Vec::with_capacity(links.len());
    let mut u: usize = 0;
    while u < links.len()
        invariant
            u == rooms.len(),
            u <= links.len(),
            forall|v: int| 0 <= v < u ==> #[trigger] room_holds(links@[v]@, rooms@[v]),
        decreases links.len() - u,
    {
        let mut inner: Vec<usize> = Vec::with_capacity(links[u].len());
        let mut l: usize = 0;
        while l < links[u].len()
            invariant
                u < links.len(),
                l == inner.len(),
                l <= links@[u as int]@.len(),
                forall|i: int| 0 <= i < l ==> #[trigger] inner@[i] >= links@[u as int]@[i]@.len(),
            decreases links@[u as int]@.len() - l,
        {
            inner.push(capacity_of(&links[u][l]));
            l += 1;
        }
        rooms.push((capacity_of(&links[u]), inner));
        u += 1;
    }
    rooms
}

proof fn lemma_room_bytes(lists: Seq<Vec<u32>>, room: (usize, Vec<usize>), k: int)
    requires
        room_holds(lists, room),
        0 <= k <= lists.len(),
    ensures
        room_bytes(room, k) >= lists_bytes(lists, k),
    decreases k,
{
    if k == 0 {
        let size = size_of::<Vec<u32>>();
        assert(room.0 as nat * size >= lists.len() * size) by (nonlinear_arith)
            requires
                room.0 >= lists.len(),
                size >= 0,
        ;
    } else {
        lemma_room_bytes(lists, room, k - 1);
        assert(room.1@[k - 1] >= lists[k - 1]@.len());
    }
}

proof fn lemma_rooms_upto(links: Seq<Vec<Vec<u32>>>, rooms: Seq<(usize, Vec<usize>)>, k: int)
    requires
        rooms_hold(links, rooms),
        0 <= k <= links.len(),
    ensures
        rooms_upto(rooms, k) >= graph_bytes(links, k),
    decreases k,
{
    if k > 0 {
        lemma_rooms_upto(links, rooms, k - 1);
        assert(room_holds(links[k - 1]@, rooms[k - 1]));
        lemma_room_bytes(links[k - 1]@, rooms[k - 1], links[k - 1]@.len() as int);
    }
}

/// An index takes at least what its lists hold.
pub proof fn an_index_costs_at_least_what_it_holds(
    links: Seq<Vec<Vec<u32>>>,
    levels: Seq<u8>,
    links_room: usize,
    levels_room: usize,
    rooms: Seq<(usize, Vec<usize>)>,
)
    requires
        links_room >= links.len(),
        levels_room >= levels.len(),
        rooms_hold(links, rooms),
    ensures
        index_cost(links_room, levels_room, rooms) >= links.len() * size_of::<Vec<Vec<u32>>>()
            + graph_bytes(links, links.len() as int) + levels.len(),
{
    lemma_rooms_upto(links, rooms, links.len() as int);
    let size = size_of::<Vec<Vec<u32>>>();
    assert(links_room as nat * size >= links.len() * size) by (nonlinear_arith)
        requires
            links_room >= links.len(),
            size >= 0,
    ;
}

impl Hnsw {
    pub closed spec fn links(&self) -> Seq<Vec<Vec<u32>>> {
        self.links@
    }

    pub closed spec fn levels(&self) -> Seq<u8> {
        self.levels@
    }

    pub closed spec fn entry(&self) -> u32 {
        self.entry
    }

    pub closed spec fn top(&self) -> nat {
        self.max_level as nat
    }

    pub closed spec fn m(&self) -> nat {
        self.m as nat
    }

    pub closed spec fn ef_construction(&self) -> nat {
        self.ef_construction as nat
    }

    pub closed spec fn code_size(&self) -> nat {
        self.bytes_per_vec as nat
    }

    pub closed spec fn shares_codes(&self) -> bool {
        self.codes_are_recon
    }

    pub closed spec fn params_ok(&self) -> bool {
        2 <= self.m && self.m0 == 2 * self.m
    }

    /// The first `k` nodes are linked.
    pub open spec fn wf_upto(&self, k: int) -> bool {
        &&& self.params_ok()
        &&& graph_ok(self.links(), self.levels(), self.entry(), self.top(), self.m(), k)
    }

    /// Every node is linked.
    pub open spec fn wf(&self) -> bool {
        self.wf_upto(self.links().len() as int)
    }

    /// Greedy descent from the entry node through the layers above `low`.
    fn descend<F: Fn(u32) -> i64>(&self, score: &F, low: usize, Ghost(k): Ghost<int>) -> (ep: u32)
        requires
            self.wf_upto(k),
            k > 0,
            scores_all(self.links().len(), *score),
        ensures
            ep < k,
            exists|trail: Seq<u32>| #[trigger]
                is_trail(
                    self.links(),
                    scored_by(*score),
                    self.entry(),
                    self.top() as int,
                    low as int,
                    trail,
                ) && trail.last() == ep,
            self.levels()[ep as int] >= low || self.levels()[ep as int] >= self.top(),
    {
        let top: usize = self.max_level;
        let mut ep: u32 = self.entry;
        let ghost mut trail: Seq<u32> = seq![ep];
        let ghost rel = scored_by(*score);
        let mut l: usize = top;
        while l > low
            invariant
                self.wf_upto(k),
                k > 0,
                l <= top == self.max_level,
                top > low ==> l >= low,
                top <= low ==> l == top,
                ep < k,
                self.levels@[ep as int] >= l,
                rel == scored_by(*score),
                scores_all(self.links@.len(), *score),
                trail.len() == top - l + 1,
                trail[0] == self.entry,
                trail.last() == ep,
                forall|i: int|
                    0 < i < trail.len() ==> #[trigger] descends_at(
                        self.links@,
                        rel,
                        top as int,
                        trail,
                        i,
                    ),
            decreases l,
        {
            let view: LayerView = LayerView { links: &self.links, layer: l };
            let ghost most = cap(self.m as nat, l as int);
            proof {
                assert(lists_ok(self.links@, self.levels@, l as int, k, most));
                lemma_layer_inside(self.links@, self.levels@, l as int, k, most);
            }
            let next: u32 = greedy_descend(&view, score, ep);
            proof {
                assert(seq![ep][0] == ep);
                lemma_layer_reach(
                    self.links@,
                    self.levels@,
                    l as int,
                    k,
                    most,
                    seq![ep],
                    next,
                );
                let longer = trail.push(next);
                assert forall|i: int| 0 < i < longer.len() implies #[trigger] descends_at(
                    self.links@,
                    rel,
                    top as int,
                    longer,
                    i,
                ) by {
                    if i < trail.len() {
                        assert(descends_at(self.links@, rel, top as int, trail, i));
                    }
                }
                trail = longer;
            }
            ep = next;
            l -= 1;
        }
        proof {
            assert(is_trail(self.links@, rel, self.entry, top as int, low as int, trail));
        }
        ep
    }

    /// Links `node` into one layer: finds a beam from `starts`, links `node` to its best
    /// nodes, and links each of these back.
    #[verifier::rlimit(60)]
    fn link_layer<F: Fn(u32, u32) -> i64>(
        &mut self,
        sim: &F,
        node: u32,
        layer: usize,
        starts: &Vec<u32>,
        vis: &mut Visited,
    ) -> (found: Vec<Cand>)
        requires
            old(self).params_ok(),
            shaped(old(self).links(), old(self).levels()),
            node < old(self).links().len() <= u32::MAX,
            layer <= old(self).levels()[node as int],
            lists_ok(
                old(self).links(),
                old(self).levels(),
                layer as int,
                node as int,
                cap(old(self).m(), layer as int),
            ),
            starts.len() > 0,
            starts@.no_duplicates(),
            forall|i: int|
                0 <= i < starts.len() ==> (#[trigger] starts@[i]) < node
                    && old(self).levels()[starts@[i] as int] >= layer,
            old(vis).wf(),
            old(vis).size() == old(self).links().len(),
            relates_all(old(self).links().len(), *sim),
        ensures
            final(self).params_ok(),
            final(self).levels() == old(self).levels(),
            final(self).entry() == old(self).entry(),
            final(self).top() == old(self).top(),
            final(self).m() == old(self).m(),
            final(self).ef_construction() == old(self).ef_construction(),
            final(self).bytes_per_vec == old(self).bytes_per_vec,
            final(self).codes_are_recon == old(self).codes_are_recon,
            final(vis).wf(),
            final(vis).size() == old(vis).size(),
            shaped(final(self).links(), final(self).levels()),
            forall|u: int, l: int|
                l != layer ==> #[trigger] nbrs(final(self).links(), u, l) == nbrs(
                    old(self).links(),
                    u,
                    l,
                ),
            is_walked(
                layer_edges(old(self).links(), layer as int),
                seen_from(related_by(*sim), node),
                starts@,
                old(self).ef_construction(),
                found@,
            ),
            is_linked(
                related_by(*sim),
                old(self).links(),
                final(self).links(),
                node,
                layer as int,
                found@,
                old(self).m(),
            ),
            lists_ok(
                final(self).links(),
                final(self).levels(),
                layer as int,
                node + 1,
                cap(old(self).m(), layer as int),
            ),
            found.len() > 0,
            forall|i: int|
                0 <= i < found.len() ==> (#[trigger] found@[i]).id < node
                    && old(self).levels()[found@[i].id as int] >= layer,
    {
        let ghost pre = self.links@;
        let ghost levels = self.levels@;
        let ghost n = pre.len();
        let ghost rel = related_by(*sim);
        let ghost g = layer_edges(pre, layer as int);
        let ghost most = cap(self.m as nat, layer as int);
        let score = |i: u32| -> (r: i64)
            requires
                sim.requires((node, i)),
            ensures
                sim.ensures((node, i), r),
            { sim(node, i) };
        proof {
            lemma_layer_inside(pre, levels, layer as int, node as int, most);
        }
        let view: LayerView = LayerView { links: &self.links, layer };
        let found: Vec<Cand> = beam_search(&view, &score, starts, self.ef_construction, vis);
        proof {
            lemma_walked_weaken(
                g,
                scored_by(score),
                seen_from(rel, node),
                starts@,
                self.ef_construction as nat,
                found@,
            );
            assert forall|i: int| 0 <= i < found@.len() implies (#[trigger] found@[i]).id < node
                && levels[found@[i].id as int] >= layer by {
                lemma_layer_reach(
                    pre,
                    levels,
                    layer as int,
                    node as int,
                    most,
                    starts@,
                    found@[i].id,
                );
            }
        }
        let limit: usize = if layer == 0 {
            self.m0
        } else {
            self.m
        };
        let chosen: Vec<u32> = select_neighbors(&found, self.m);
        let mut own: Vec<u32> = Vec::with_capacity(chosen.len());
        let mut c: usize = 0;
        while c < chosen.len()
            invariant
                c <= chosen.len(),
                own@ == chosen@.take(c as int),
            decreases chosen.len() - c,
        {
            own.push(chosen[c]);
            c += 1;
            assert(own@ =~= chosen@.take(c as int));
        }
        assert(own@ =~= chosen@);
        proof {
            assert forall|i: int| 0 <= i < chosen@.len() implies (#[trigger] chosen@[i]) < node
                && levels[chosen@[i] as int] >= layer by {
                assert(holds(found@, chosen@[i]));
                let q = choose|q: int|
                    0 <= q < found@.len() && (#[trigger] found@[q]).id == chosen@[i];
                assert(found@[q].id == chosen@[i]);
            }
            assert(self.links@[node as int]@.len() == levels[node as int] + 1);
        }
        set_list(&mut self.links, node as usize, layer, own);
        let mut i: usize = 0;
        while i < chosen.len()
            invariant
                i <= chosen.len(),
                n == pre.len() == levels.len(),
                node < n <= u32::MAX,
                self.levels@ == levels,
                self.entry == old(self).entry,
                self.max_level == old(self).max_level,
                self.m == old(self).m,
                self.m0 == old(self).m0,
                self.ef_construction == old(self).ef_construction,
                self.bytes_per_vec == old(self).bytes_per_vec,
                self.codes_are_recon == old(self).codes_are_recon,
                most == cap(self.m as nat, layer as int),
                limit == most,
                rel == related_by(*sim),
                relates_all(n, *sim),
                shaped(pre, levels),
                shaped(self.links@, levels),
                lists_ok(pre, levels, layer as int, node as int, most),
                chosen@.no_duplicates(),
                forall|j: int|
                    0 <= j < chosen.len() ==> (#[trigger] chosen@[j]) < node
                        && levels[chosen@[j] as int] >= layer,
                forall|u: int, l: int|
                    l != layer ==> #[trigger] nbrs(self.links@, u, l) == nbrs(pre, u, l),
                nbrs(self.links@, node as int, layer as int) == chosen@,
                forall|j: int|
                    0 <= j < i ==> is_relinked(
                        rel,
                        nbrs(pre, #[trigger] chosen@[j] as int, layer as int),
                        chosen@[j],
                        node,
                        most,
                        nbrs(self.links@, chosen@[j] as int, layer as int),
                    ) && list_ok(
                        nbrs(self.links@, chosen@[j] as int, layer as int),
                        levels,
                        chosen@[j] as int,
                        layer as int,
                        node + 1,
                        most,
                    ),
                forall|u: int|
                    0 <= u < n && u != node && !chosen@.take(i as int).contains(u as u32)
                        ==> #[trigger] nbrs(self.links@, u, layer as int) == nbrs(
                        pre,
                        u,
                        layer as int,
                    ),
            decreases chosen.len() - i,
        {
            let nb: u32 = chosen[i];
            let ghost mid = self.links@;
            proof {
                assert(!chosen@.take(i as int).contains(nb)) by {
                    if chosen@.take(i as int).contains(nb) {
                        let q = choose|q: int|
                            0 <= q < i && chosen@.take(i as int)[q] == nb;
                        assert(chosen@[q] == chosen@[i as int]);
                    }
                }
                assert(nbrs(mid, nb as int, layer as int) == nbrs(pre, nb as int, layer as int));
                assert(list_ok(
                    nbrs(pre, nb as int, layer as int),
                    levels,
                    nb as int,
                    layer as int,
                    node as int,
                    most,
                ));
                assert(mid[nb as int]@.len() == levels[nb as int] + 1);
            }
            let list: Vec<u32> = relink(
                sim,
                &self.links[nb as usize][layer],
                nb,
                node,
                limit,
            );
            let ghost before = nbrs(pre, nb as int, layer as int);
            let ghost after = list@;
            proof {
                assert(list_ok(after, levels, nb as int, layer as int, node + 1, most)) by {
                    assert forall|q: int| 0 <= q < after.len() implies (#[trigger] after[q]) < node
                        + 1 && after[q] != nb && levels[after[q] as int] >= layer by {
                        if after[q] != node {
                            let t = choose|t: int| 0 <= t < before.len() && before[t] == after[q];
                            assert(before[t] == after[q]);
                        }
                    }
                }
            }
            set_list(&mut self.links, nb as usize, layer, list);
            proof {
                let now = self.links@;
                assert forall|j: int| 0 <= j < i + 1 implies is_relinked(
                    rel,
                    nbrs(pre, #[trigger] chosen@[j] as int, layer as int),
                    chosen@[j],
                    node,
                    most,
                    nbrs(now, chosen@[j] as int, layer as int),
                ) && list_ok(
                    nbrs(now, chosen@[j] as int, layer as int),
                    levels,
                    chosen@[j] as int,
                    layer as int,
                    node + 1,
                    most,
                ) by {
                    if j < i {
                        assert(chosen@[j] != chosen@[i as int]);
                        assert(nbrs(now, chosen@[j] as int, layer as int) == nbrs(
                            mid,
                            chosen@[j] as int,
                            layer as int,
                        ));
                    }
                }
                let done = chosen@.take(i + 1);
                assert(done[i as int] == nb);
                assert forall|u: int|
                    0 <= u < n && u != node && !done.contains(u as u32) implies #[trigger] nbrs(
                    now,
                    u,
                    layer as int,
                ) == nbrs(pre, u, layer as int) by {
                    assert(u != nb) by {
                        if u == nb {
                            assert(done.contains(nb));
                        }
                    }
                    if chosen@.take(i as int).contains(u as u32) {
                        let q = choose|q: int|
                            0 <= q < i && chosen@.take(i as int)[q] == u as u32;
                        assert(done[q] == u as u32);
                    }
                }
            }
            i += 1;
        }
        proof {
            let post = self.links@;
            assert(chosen@.take(i as int) =~= chosen@);
            assert forall|u: int| 0 <= u < n && u != node implies if nbrs(
                post,
                node as int,
                layer as int,
            ).contains(u as u32) {
                is_relinked(
                    rel,
                    nbrs(pre, u, layer as int),
                    u as u32,
                    node,
                    most,
                    #[trigger] nbrs(post, u, layer as int),
                )
            } else {
                nbrs(post, u, layer as int) == nbrs(pre, u, layer as int)
            } by {
                if chosen@.contains(u as u32) {
                    let q = choose|q: int| 0 <= q < chosen@.len() && chosen@[q] == u as u32;
                    assert(chosen@[q] as int == u);
                }
            }
            assert forall|u: int| 0 <= u < post.len() implies {
                &&& list_ok(
                    #[trigger] nbrs(post, u, layer as int),
                    levels,
                    u,
                    layer as int,
                    node + 1,
                    most,
                )
                &&& u >= node + 1 ==> nbrs(post, u, layer as int).len() == 0
            } by {
                assert(list_ok(
                    nbrs(pre, u, layer as int),
                    levels,
                    u,
                    layer as int,
                    node as int,
                    most,
                ));
                if u != node && chosen@.contains(u as u32) {
                    let q = choose|q: int| 0 <= q < chosen@.len() && chosen@[q] == u as u32;
                    assert(chosen@[q] as int == u);
                }
            }
        }
        found
    }

    /// Links the next node: descends to its level, then at each layer down to the base finds
    /// a beam of candidates, links to the best and back from each of them.
    #[verifier::rlimit(60)]
    fn insert<F: Fn(u32, u32) -> i64>(&mut self, sim: &F, node: u32, vis: &mut Visited)
        requires
            0 < node < old(self).links().len(),
            old(self).wf_upto(node as int),
            old(vis).wf(),
            old(vis).size() == old(self).links().len(),
            relates_all(old(self).links().len(), *sim),
        ensures
            final(self).wf_upto(node + 1),
            final(self).levels() == old(self).levels(),
            final(self).m() == old(self).m(),
            final(self).ef_construction() == old(self).ef_construction(),
            final(self).bytes_per_vec == old(self).bytes_per_vec,
            final(self).codes_are_recon == old(self).codes_are_recon,
            final(vis).wf(),
            final(vis).size() == old(vis).size(),
            exists|trail: Seq<u32>, founds: Seq<Seq<Cand>>| #[trigger]
                is_placed(
                    related_by(*sim),
                    old(self).links(),
                    final(self).links(),
                    old(self).entry(),
                    old(self).top() as int,
                    node,
                    old(self).levels()[node as int] as int,
                    old(self).m(),
                    old(self).ef_construction(),
                    trail,
                    founds,
                ),
            if old(self).levels()[node as int] > old(self).top() {
                final(self).entry() == node && final(self).top() == old(self).levels()[node as int]
            } else {
                final(self).entry() == old(self).entry() && final(self).top() == old(self).top()
            },
    {
        let ghost pre = self.links@;
        let ghost n = pre.len();
        let ghost rel = related_by(*sim);
        let ghost levels = self.levels@;
        let ghost m = self.m as nat;
        let ghost entry0 = self.entry;
        let score = |i: u32| -> (r: i64)
            requires
                sim.requires((node, i)),
            ensures
                sim.ensures((node, i), r),
            { sim(node, i) };
        let lv: usize = self.levels[node as usize] as usize;
        let top: usize = self.max_level;
        let ep: u32 = self.descend(&score, lv, Ghost(node as int));
        let ghost trail = choose|trail: Seq<u32>| #[trigger]
            is_trail(pre, scored_by(score), entry0, top as int, lv as int, trail) && trail.last()
                == ep;
        proof {
            lemma_trail_weaken(
                pre,
                scored_by(score),
                seen_from(rel, node),
                entry0,
                top as int,
                lv as int,
                trail,
            );
        }
        let start: usize = if lv < top {
            lv
        } else {
            top
        };
        let ghost mut founds: Seq<Seq<Cand>> = Seq::new(
            (start + 1) as nat,
            |i: int| Seq::<Cand>::empty(),
        );
        let mut starts: Vec<u32> = Vec::with_capacity(1);
        starts.push(ep);
        let mut layer: usize = start + 1;
        proof {
            assert(starts@ =~= seq![trail.last()]);
        }
        while layer > 0
            invariant
                layer <= start + 1,
                start <= lv,
                start <= top,
                lv == levels[node as int],
                self.params_ok(),
                self.levels@ == levels,
                self.entry == entry0,
                self.max_level == top,
                self.m == m,
                self.ef_construction == old(self).ef_construction,
                self.bytes_per_vec == old(self).bytes_per_vec,
                self.codes_are_recon == old(self).codes_are_recon,
                n == pre.len(),
                0 < node < n <= u32::MAX,
                shaped(self.links@, levels),
                vis.wf(),
                vis.size() == n,
                rel == related_by(*sim),
                relates_all(n, *sim),
                forall|l: int|
                    0 <= l ==> #[trigger] lists_ok(pre, levels, l, node as int, cap(m, l)),
                linked_down_to(
                    rel,
                    pre,
                    self.links@,
                    levels,
                    node,
                    layer as int,
                    start as int,
                    m,
                    self.ef_construction as nat,
                    trail,
                    founds,
                ),
                starts.len() > 0,
                starts@.no_duplicates(),
                starts@ == starts_at(trail, founds, layer - 1, start as int),
                forall|i: int|
                    0 <= i < starts.len() ==> (#[trigger] starts@[i]) < node
                        && levels[starts@[i] as int] >= layer - 1,
            decreases layer,
        {
            layer -= 1;
            let ghost mid = self.links@;
            proof {
                let l = layer as int;
                assert(lists_ok(pre, levels, l, node as int, cap(m, l)));
                lemma_lists_frame(pre, mid, levels, l, node as int, cap(m, l));
                lemma_edges_frame(pre, mid, l);
            }
            let found: Vec<Cand> = self.link_layer(sim, node, layer, &starts, vis);
            let next: Vec<u32> = ids_of(&found);
            proof {
                lemma_link_step(
                    rel,
                    pre,
                    mid,
                    self.links@,
                    levels,
                    node,
                    layer as int,
                    start as int,
                    m,
                    self.ef_construction as nat,
                    trail,
                    founds,
                    found@,
                );
                founds = founds.update(layer as int, found@);
            }
            starts = next;
        }
        proof {
            lemma_all_linked(
                rel,
                pre,
                self.links@,
                levels,
                node,
                start as int,
                m,
                self.ef_construction as nat,
                trail,
                founds,
            );
        }
        if lv > top {
            self.max_level = lv;
            self.entry = node;
        }
        proof {
            reveal(is_placed);
            assert(is_placed(
                rel,
                old(self).links(),
                self.links(),
                old(self).entry(),
                old(self).top() as int,
                node,
                old(self).levels()[node as int] as int,
                old(self).m(),
                old(self).ef_construction(),
                trail,
                founds,
            ));
        }
    }

    /// Builds the graph by linking the nodes in order.
    ///
    /// `levels` gives the level of each node and `sim` the similarity of any two nodes, a
    /// larger value for a closer pair. A node keeps at most `m` neighbours at an upper layer
    /// and `2 * m` at the base.
    #[verifier::rlimit(60)]
    pub fn build<F: Fn(u32, u32) -> i64>(
        levels: Vec<u8>,
        sim: &F,
        bytes_per_vec: usize,
        codes_are_recon: bool,
        m: usize,
        ef_construction: usize,
    ) -> (h: Self)
        requires
            levels.len() <= u32::MAX,
            2 <= m <= usize::MAX / 2,
            relates_all(levels@.len(), *sim),
        ensures
            h.wf(),
            h.levels() == levels@,
            h.m() == m,
            h.ef_construction() == ef_construction,
            h.code_size() == bytes_per_vec,
            h.shares_codes() == codes_are_recon,
            h.entry() == leader(levels@, levels@.len()),
            h.top() == height(levels@, levels@.len()),
            exists|trace: Seq<Seq<Vec<Vec<u32>>>>| #[trigger]
                is_build(
                    related_by(*sim),
                    levels@,
                    m as nat,
                    ef_construction as nat,
                    levels@.len(),
                    trace,
                ) && trace.last() == h.links(),
    {
        let n: usize = levels.len();
        let mut links: Vec<Vec<Vec<u32>>> = Vec::with_capacity(n);
        let mut u: usize = 0;
        while u < n
            invariant
                u <= n == levels.len(),
                links.len() == u,
                forall|v: int|
                    0 <= v < u ==> (#[trigger] links@[v])@.len() == levels@[v] as int + 1,
                forall|v: int, l: int| (#[trigger] nbrs(links@, v, l)).len() == 0,
            decreases n - u,
        {
            let layers: usize = levels[u] as usize + 1;
            let mut lists: Vec<Vec<u32>> = Vec::with_capacity(layers);
            let mut l: usize = 0;
            while l < layers
                invariant
                    l <= layers,
                    lists.len() == l,
                    forall|q: int| 0 <= q < l ==> (#[trigger] lists@[q])@.len() == 0,
                decreases layers - l,
            {
                lists.push(Vec::new());
                l += 1;
            }
            let ghost links0 = links@;
            links.push(lists);
            proof {
                assert forall|v: int, q: int| (#[trigger] nbrs(links@, v, q)).len() == 0 by {
                    if 0 <= v < links0.len() {
                        assert(links@[v] == links0[v]);
                        assert(nbrs(links0, v, q).len() == 0);
                    }
                }
            }
            u += 1;
        }
        let mut h: Hnsw = Hnsw {
            links,
            levels,
            entry: 0,
            max_level: 0,
            m,
            m0: 2 * m,
            ef_construction,
            bytes_per_vec,
            codes_are_recon,
        };
        let ghost sims = related_by(*sim);
        let ghost lv = h.levels@;
        let ghost mut trace: Seq<Seq<Vec<Vec<u32>>>> = seq![h.links@];
        if n == 0 {
            proof {
                assert(is_build(sims, lv, m as nat, ef_construction as nat, 0, trace));
            }
            return h;
        }
        h.max_level = h.levels[0] as usize;
        let mut vis: Visited = Visited::new(n);
        let mut node: usize = 1;
        proof {
            assert(is_build(sims, lv, m as nat, ef_construction as nat, 1, trace));
        }
        while node < n
            invariant
                1 <= node <= n == lv.len(),
                n <= u32::MAX,
                h.wf_upto(node as int),
                h.levels@ == lv,
                h.m == m,
                h.ef_construction == ef_construction,
                h.bytes_per_vec == bytes_per_vec,
                h.codes_are_recon == codes_are_recon,
                h.entry == leader(lv, node as nat),
                h.max_level == height(lv, node as nat),
                vis.wf(),
                vis.size() == n,
                relates_all(n as nat, *sim),
                sims == related_by(*sim),
                is_build(sims, lv, m as nat, ef_construction as nat, node as nat, trace),
                trace.last() == h.links@,
            decreases n - node,
        {
            h.insert(sim, node as u32, &mut vis);
            proof {
                lemma_build_push(
                    sims,
                    lv,
                    m as nat,
                    ef_construction as nat,
                    node as nat,
                    trace,
                    h.links@,
                );
                trace = trace.push(h.links@);
            }
            node += 1;
        }
        h
    }

    /// How many nodes the graph has.
    pub fn len(&self) -> (n: usize)
        ensures
            n == self.links().len(),
    {
        self.links.len()
    }

    /// The best `k` nodes of a search of width `max(ef, k)`: greedy descent through the upper
    /// layers, then a beam at the base. `vis` is reusable scratch space.
    pub fn search_with<F: Fn(u32) -> i64>(
        &self,
        score: &F,
        k: usize,
        ef: usize,
        vis: &mut Visited,
    ) -> (hits: Vec<(i64, i64)>)
        requires
            self.wf(),
            old(vis).wf(),
            self.links().len() > 0 && k > 0 ==> {
                &&& old(vis).size() == self.links().len()
                &&& scores_all(self.links().len(), *score)
            },
        ensures
            final(vis).wf(),
            final(vis).size() == old(vis).size(),
            is_search(*self, scored_by(*score), k as nat, ef as nat, hits@),
            forall|i: int|
                0 <= i < hits.len() ==> 0 <= (#[trigger] hits@[i]).0 < self.links().len()
                    && score.ensures((hits@[i].0 as u32,), hits@[i].1),
    {
        if self.links.len() == 0 || k == 0 {
            return Vec::new();
        }
        let ep: u32 = self.descend(score, 0, Ghost(self.links@.len() as int));
        let width: usize = if ef < k {
            k
        } else {
            ef
        };
        let mut starts: Vec<u32> = Vec::with_capacity(1);
        starts.push(ep);
        proof {
            assert(lists_ok(
                self.links@,
                self.levels@,
                0,
                self.links@.len() as int,
                cap(self.m as nat, 0),
            ));
            lemma_layer_inside(
                self.links@,
                self.levels@,
                0,
                self.links@.len() as int,
                cap(self.m as nat, 0),
            );
            assert(starts@ =~= seq![ep]);
        }
        let view: LayerView = LayerView { links: &self.links, layer: 0 };
        let found: Vec<Cand> = beam_search(&view, score, &starts, width, vis);
        let keep: usize = if k < found.len() {
            k
        } else {
            found.len()
        };
        let mut hits: Vec<(i64, i64)> = Vec::with_capacity(keep);
        let mut i: usize = 0;
        while i < keep
            invariant
                i <= keep <= found.len(),
                hits@ == best_pairs(found@, i as nat),
            decreases keep - i,
        {
            hits.push((found[i].id as i64, found[i].sim));
            i += 1;
            assert(hits@ =~= best_pairs(found@, i as nat));
        }
        proof {
            let rel = scored_by(*score);
            let trail = choose|trail: Seq<u32>| #[trigger]
                is_trail(self.links@, rel, self.entry, self.max_level as int, 0, trail)
                    && trail.last() == ep;
            assert(is_walked(
                layer_edges(self.links@, 0),
                rel,
                seq![trail.last()],
                search_width(ef as nat, k as nat),
                found@,
            ));
            assert(best_pairs(found@, k as nat) =~= hits@);
            every_hit_has_its_own_score(*self, rel, k as nat, ef as nat, hits@);
            assert forall|i: int| 0 <= i < hits.len() implies 0 <= (#[trigger] hits@[i]).0
                < self.links().len() && score.ensures((hits@[i].0 as u32,), hits@[i].1) by {
                assert(rel(hits@[i].0 as u32, hits@[i].1));
            }
        }
        hits
    }

    /// The best `k` nodes of a search of width `max(ef, k)`.
    pub fn search<F: Fn(u32) -> i64>(&self, score: &F, k: usize, ef: usize) -> (hits: Vec<
        (i64, i64),
    >)
        requires
            self.wf(),
            scores_all(self.links().len(), *score),
        ensures
            is_search(*self, scored_by(*score), k as nat, ef as nat, hits@),
            forall|i: int|
                0 <= i < hits.len() ==> 0 <= (#[trigger] hits@[i]).0 < self.links().len()
                    && score.ensures((hits@[i].0 as u32,), hits@[i].1),
    {
        let mut vis: Visited = Visited::new(self.links.len());
        self.search_with(score, k, ef, &mut vis)
    }

    /// The compressed footprint per vector that the graph reports.
    pub fn bytes_per_vec(&self) -> (b: usize)
        ensures
            b == self.code_size(),
    {
        self.bytes_per_vec
    }


    /// The memory ledger of the graph. The caller says what the scorer's shared state and the
    /// resident reconstruction take; the codes are charged unless they are that very
    /// reconstruction. The index column charges exactly the room that the lists have, which is
    /// at least what they hold; how much more it is, the allocator decides.
    pub fn memory_breakdown(&self, model_bytes: usize, cache_bytes: usize) -> (r: MemoryBreakdown)
        ensures
            r.code_bytes == if self.shares_codes() {
                0
            } else {
                saturated((self.code_size() * self.links().len()) as int)
            },
            r.model_bytes == model_bytes,
            r.cache_bytes == cache_bytes,
            exists|links_room: usize, levels_room: usize, rooms: Seq<(usize, Vec<usize>)>|
                {
                    &&& links_room >= self.links().len()
                    &&& levels_room >= self.levels().len()
                    &&& rooms_hold(self.links(), rooms)
                    &&& r.index_bytes == saturated(
                        #[trigger] index_cost(links_room, levels_room, rooms) as int,
                    )
                },
            r.index_bytes >= saturated(
                (self.links().len() * size_of::<Vec<Vec<u32>>>() + graph_bytes(
                    self.links(),
                    self.links().len() as int,
                ) + self.levels().len()) as int,
            ),
    {
        let links_room: usize = capacity_of(&self.links);
        let levels_room: usize = capacity_of(&self.levels);
        let rooms: Vec<(usize, Vec<usize>)> = rooms_of(&self.links);
        let index_bytes: usize = index_bytes_of(links_room, levels_room, &rooms);
        proof {
            an_index_costs_at_least_what_it_holds(
                self.links@,
                self.levels@,
                links_room,
                levels_room,
                rooms@,
            );
        }
        let code_bytes: usize = if self.codes_are_recon {
            0
        } else {
            saturating_product(self.bytes_per_vec, self.links.len())
        };
        MemoryBreakdown { code_bytes, model_bytes, index_bytes, cache_bytes }
    }
}

/// The codecs whose reconstructions a graph is built and searched on.
#[derive(Clone, Copy, Debug, PartialEq, Eq, Structural)]
pub enum HnswCodec {
    /// Exact directions: the loss-free upper bound of navigation.
    Fp32,
    /// The scalar reference codec.
    Baseline,
    /// Residual code.
    Rabitq,
    /// Trellis code, navigating on reconstructions.
    Trellis,
    /// Trellis code, navigating on its codes: the reconstruction is dropped before search.
    TrellisCodesOnly,
}

/// How many vectors the footprint of a codec is measured on, at most.
pub const SAMPLE: usize = 4096;

/// How many of `n` vectors the footprint of a codec is measured on.
pub fn sample_size(n: usize) -> (r: usize)
    ensures
        r == if n < SAMPLE {
            n
        } else {
            SAMPLE
        },
{
    if n < SAMPLE {
        n
    } else {
        SAMPLE
    }
}

impl HnswCodec {
    /// The bytes that the codec stores for a vector: four for each coordinate of an exact
    /// direction, else the share of one vector in a sample of `n` that takes `sample_bytes`.
    pub fn bytes_per_vec(self, dim: usize, sample_bytes: usize, n: usize) -> (r: usize)
        requires
            self == HnswCodec::Fp32 ==> 4 * dim <= usize::MAX,
        ensures
            r == if self == HnswCodec::Fp32 {
                4 * dim as nat
            } else {
                share(sample_bytes as nat, n as nat)
            },
    {
        match self {
            HnswCodec::Fp32 => 4 * dim,
            _ => per_vector(sample_bytes, n),
        }
    }

    /// Whether the stored record is the resident reconstruction itself.
    pub fn codes_are_recon(self) -> (r: bool)
        ensures
            r == (self == HnswCodec::Fp32),
    {
        matches!(self, HnswCodec::Fp32)
    }

    /// The name of each codec.
    pub open spec fn name(self) -> Seq<char> {
        match self {
            HnswCodec::Fp32 => "fp32"@,
            HnswCodec::Baseline => "turboquant_baseline"@,
            HnswCodec::Rabitq => "rabitq"@,
            HnswCodec::Trellis => "trellis"@,
            HnswCodec::TrellisCodesOnly => "trellis_codes_only"@,
        }
    }

    pub fn label(self) -> (r: &'static str)
        ensures
            r@ == self.name(),
    {
        match self {
            HnswCodec::Fp32 => "fp32",
            HnswCodec::Baseline => "turboquant_baseline",
            HnswCodec::Rabitq => "rabitq",
            HnswCodec::Trellis => "trellis",
            HnswCodec::TrellisCodesOnly => "trellis_codes_only",
        }
    }
}

// ---- One outcome ----

proof fn lemma_scores_once(
    score: spec_fn(u32, i64) -> bool,
    nodes: Seq<u32>,
    a: Seq<i64>,
    b: Seq<i64>,
)
    requires
        is_single(score),
        are_scores(score, nodes, a),
        are_scores(score, nodes, b),
    ensures
        a == b,
{
    assert forall|k: int| 0 <= k < a.len() implies a[k] == b[k] by {
        assert(score(nodes[k], a[k]) && score(nodes[k], b[k]));
    }
    assert(a =~= b);
}

proof fn lemma_climb_once(
    g: Seq<Seq<u32>>,
    score: spec_fn(u32, i64) -> bool,
    ep: u32,
    x: Seq<(u32, i64)>,
    y: Seq<(u32, i64)>,
    i: int,
)
    requires
        is_single(score),
        is_climb(g, score, ep, x),
        is_climb(g, score, ep, y),
        0 <= i < x.len(),
        i < y.len(),
    ensures
        x[i] == y[i],
    decreases i,
{
    if i == 0 {
        assert(score(ep, x[0].1) && score(ep, y[0].1));
    } else {
        lemma_climb_once(g, score, ep, x, y, i - 1);
        assert(climbs_at(g, score, x, i) && climbs_at(g, score, y, i));
        let nodes = g[x[i - 1].0 as int];
        let (s, j) = choose|s: Seq<i64>, j: int| #[trigger]
            is_climb_step(score, nodes, x[i - 1], x[i], s, j);
        let (t, k) = choose|t: Seq<i64>, k: int| #[trigger]
            is_climb_step(score, nodes, y[i - 1], y[i], t, k);
        lemma_scores_once(score, nodes, s, t);
        if j < k {
            assert(t[j] < t[k] && s[k] <= s[j]);
        } else if k < j {
            assert(s[k] < s[j] && t[j] <= t[k]);
        }
    }
}

/// A climb does not go on past a peak.
proof fn lemma_peak_ends(
    g: Seq<Seq<u32>>,
    score: spec_fn(u32, i64) -> bool,
    ep: u32,
    x: Seq<(u32, i64)>,
    y: Seq<(u32, i64)>,
)
    requires
        is_single(score),
        is_climb(g, score, ep, x),
        is_climb(g, score, ep, y),
        is_peak(score, g[x.last().0 as int], x.last().1),
    ensures
        y.len() <= x.len(),
{
    if x.len() < y.len() {
        let i = x.len() as int;
        lemma_climb_once(g, score, ep, x, y, i - 1);
        assert(climbs_at(g, score, y, i));
        let nodes = g[y[i - 1].0 as int];
        let (s, j) = choose|s: Seq<i64>, j: int| #[trigger]
            is_climb_step(score, nodes, y[i - 1], y[i], s, j);
        let t = choose|t: Seq<i64>| #[trigger]
            are_scores(score, nodes, t) && forall|k: int|
                0 <= k < t.len() ==> (#[trigger] t[k]) <= x.last().1;
        lemma_scores_once(score, nodes, s, t);
        assert(t[j] <= x.last().1);
    }
}

proof fn lemma_descent_once(
    g: Seq<Seq<u32>>,
    score: spec_fn(u32, i64) -> bool,
    ep: u32,
    v: u32,
    w: u32,
)
    requires
        is_single(score),
        is_descent(g, score, ep, v),
        is_descent(g, score, ep, w),
    ensures
        v == w,
{
    let x = choose|path: Seq<(u32, i64)>| #[trigger]
        is_climb(g, score, ep, path) && path.last().0 == v && is_peak(
            score,
            g[v as int],
            path.last().1,
        );
    let y = choose|path: Seq<(u32, i64)>| #[trigger]
        is_climb(g, score, ep, path) && path.last().0 == w && is_peak(
            score,
            g[w as int],
            path.last().1,
        );
    lemma_peak_ends(g, score, ep, x, y);
    lemma_peak_ends(g, score, ep, y, x);
    lemma_climb_once(g, score, ep, x, y, x.len() - 1);
}

/// Two states of the links that hold the same lists.
pub open spec fn same_lists(a: Seq<Vec<Vec<u32>>>, b: Seq<Vec<Vec<u32>>>) -> bool {
    &&& a.len() == b.len()
    &&& forall|u: int, l: int| #[trigger] nbrs(a, u, l) == nbrs(b, u, l)
}

proof fn lemma_same_edges(a: Seq<Vec<Vec<u32>>>, b: Seq<Vec<Vec<u32>>>, layer: int)
    requires
        same_lists(a, b),
    ensures
        layer_edges(a, layer) == layer_edges(b, layer),
{
    let x = layer_edges(a, layer);
    let y = layer_edges(b, layer);
    assert forall|u: int| 0 <= u < x.len() implies x[u] == y[u] by {
        assert(nbrs(a, u, layer) == nbrs(b, u, layer));
    }
    assert(x =~= y);
}

proof fn lemma_trail_once(
    a: Seq<Vec<Vec<u32>>>,
    b: Seq<Vec<Vec<u32>>>,
    score: spec_fn(u32, i64) -> bool,
    entry: u32,
    top: int,
    low: int,
    x: Seq<u32>,
    y: Seq<u32>,
    i: int,
)
    requires
        is_single(score),
        same_lists(a, b),
        is_trail(a, score, entry, top, low, x),
        is_trail(b, score, entry, top, low, y),
        0 <= i < x.len(),
    ensures
        x[i] == y[i],
    decreases i,
{
    if i > 0 {
        lemma_trail_once(a, b, score, entry, top, low, x, y, i - 1);
        assert(descends_at(a, score, top, x, i) && descends_at(b, score, top, y, i));
        lemma_same_edges(a, b, top - i + 1);
        lemma_descent_once(layer_edges(a, top - i + 1), score, x[i - 1], x[i], y[i]);
    }
}

/// Where every node has one score, a query has one answer.
pub proof fn a_query_has_one_answer(
    h: Hnsw,
    score: spec_fn(u32, i64) -> bool,
    k: nat,
    ef: nat,
    a: Seq<(i64, i64)>,
    b: Seq<(i64, i64)>,
)
    requires
        is_single(score),
        is_search(h, score, k, ef, a),
        is_search(h, score, k, ef, b),
    ensures
        a == b,
{
    if h.links().len() == 0 || k == 0 {
        assert(a =~= b);
    } else {
        let g = layer_edges(h.links(), 0);
        let w = search_width(ef, k);
        let top = h.top() as int;
        let (s, x) = choose|trail: Seq<u32>, found: Seq<Cand>|
            {
                &&& #[trigger] is_trail(h.links(), score, h.entry(), top, 0, trail)
                &&& #[trigger] is_walked(g, score, seq![trail.last()], w, found)
                &&& in_order(found)
                &&& a == best_pairs(found, k)
            };
        let (t, y) = choose|trail: Seq<u32>, found: Seq<Cand>|
            {
                &&& #[trigger] is_trail(h.links(), score, h.entry(), top, 0, trail)
                &&& #[trigger] is_walked(g, score, seq![trail.last()], w, found)
                &&& in_order(found)
                &&& b == best_pairs(found, k)
            };
        lemma_trail_once(h.links(), h.links(), score, h.entry(), top, 0, s, t, s.len() - 1);
        a_search_has_one_outcome(g, score, seq![s.last()], w, x, y);
    }
}

/// Where every node has one score, scratch space leaves no trace in an answer: whatever the two
/// buffers held, two searches agree. They return at most `k` nodes, best first, each once.
pub proof fn scratch_space_leaves_no_trace<F: Fn(u32) -> i64>(
    h: Hnsw,
    score: F,
    k: usize,
    ef: usize,
    hits: Vec<(i64, i64)>,
    again: Vec<(i64, i64)>,
)
    requires
        h.wf(),
        is_single(scored_by(score)),
        is_search(h, scored_by(score), k as nat, ef as nat, hits@),
        is_search(h, scored_by(score), k as nat, ef as nat, again@),
    ensures
        hits@ == again@,
        hits.len() <= k,
        h.links().len() == 0 || k == 0 ==> hits.len() == 0,
        forall|i: int| 0 <= i < hits.len() ==> 0 <= (#[trigger] hits@[i]).0 < h.links().len(),
        forall|i: int, j: int|
            0 <= i < j < hits.len() ==> (#[trigger] hits@[i]).1 >= (#[trigger] hits@[j]).1
                && hits@[i].0 != hits@[j].0,
{
    a_query_has_one_answer(h, scored_by(score), k as nat, ef as nat, hits@, again@);
}

/// The beams of a placement are determined from the top layer down.
proof fn lemma_founds_once(
    score: spec_fn(u32, i64) -> bool,
    a: Seq<Vec<Vec<u32>>>,
    b: Seq<Vec<Vec<u32>>>,
    ef: nat,
    s: Seq<u32>,
    t: Seq<u32>,
    x: Seq<Seq<Cand>>,
    y: Seq<Seq<Cand>>,
    start: int,
    layer: int,
)
    requires
        is_single(score),
        same_lists(a, b),
        s == t,
        s.len() > 0,
        x.len() == start + 1,
        y.len() == start + 1,
        0 <= layer <= start,
        forall|l: int|
            0 <= l <= start ==> is_walked(
                layer_edges(a, l),
                score,
                starts_at(s, x, l, start),
                ef,
                #[trigger] x[l],
            ),
        forall|l: int|
            0 <= l <= start ==> is_walked(
                layer_edges(b, l),
                score,
                starts_at(t, y, l, start),
                ef,
                #[trigger] y[l],
            ),
    ensures
        x[layer] == y[layer],
    decreases start - layer,
{
    lemma_same_edges(a, b, layer);
    let from = starts_at(s, x, layer, start);
    if layer < start {
        lemma_founds_once(score, a, b, ef, s, t, x, y, start, layer + 1);
        assert(is_walked(
            layer_edges(a, layer + 1),
            score,
            starts_at(s, x, layer + 1, start),
            ef,
            x[layer + 1],
        ));
        assert(distinct_ids(x[layer + 1]));
        assert(from.no_duplicates());
    }
    assert(is_walked(layer_edges(a, layer), score, from, ef, x[layer]));
    assert(is_walked(layer_edges(b, layer), score, starts_at(t, y, layer, start), ef, y[layer]));
    a_search_has_one_outcome(layer_edges(a, layer), score, from, ef, x[layer], y[layer]);
}

/// Linking a node into the same lists gives the same lists.
proof fn lemma_placed_once(
    sim: spec_fn(u32, u32, i64) -> bool,
    a: Seq<Vec<Vec<u32>>>,
    a1: Seq<Vec<Vec<u32>>>,
    b: Seq<Vec<Vec<u32>>>,
    b1: Seq<Vec<Vec<u32>>>,
    entry: u32,
    top: int,
    node: u32,
    lv: int,
    m: nat,
    ef: nat,
    s: Seq<u32>,
    x: Seq<Seq<Cand>>,
    t: Seq<u32>,
    y: Seq<Seq<Cand>>,
)
    requires
        is_related_once(sim),
        same_lists(a, b),
        a.len() <= u32::MAX,
        0 <= lv,
        0 <= top,
        node < a.len(),
        is_placed(sim, a, a1, entry, top, node, lv, m, ef, s, x),
        is_placed(sim, b, b1, entry, top, node, lv, m, ef, t, y),
    ensures
        same_lists(a1, b1),
{
    reveal(is_placed);
    let score = seen_from(sim, node);
    let start = if lv < top {
        lv
    } else {
        top
    };
    assert(is_single(score)) by {
        assert forall|v: u32, p: i64, q: i64| #[trigger] score(v, p) && #[trigger] score(
            v,
            q,
        ) implies p == q by {
            assert(sim(node, v, p) && sim(node, v, q));
        }
    }
    assert forall|i: int| 0 <= i < s.len() implies s[i] == t[i] by {
        lemma_trail_once(a, b, score, entry, top, lv, s, t, i);
    }
    assert(s =~= t);
    assert forall|u: int, l: int| #[trigger] nbrs(a1, u, l) == nbrs(b1, u, l) by {
        if l > start {
            assert(nbrs(a1, u, l) == nbrs(a, u, l));
            assert(nbrs(b1, u, l) == nbrs(b, u, l));
            assert(nbrs(a, u, l) == nbrs(b, u, l));
        } else if 0 <= l && 0 <= u < a.len() {
            lemma_founds_once(score, a, b, ef, s, t, x, y, start, l);
            assert(is_linked(sim, a, a1, node, l, x[l], m));
            assert(is_linked(sim, b, b1, node, l, y[l], m));
            best_ids_are_unique(x[l], m, nbrs(a1, node as int, l), nbrs(b1, node as int, l));
            if u != node {
                assert(nbrs(a, u, l) == nbrs(b, u, l));
                if nbrs(a1, node as int, l).contains(u as u32) {
                    relinking_is_deterministic(
                        sim,
                        nbrs(a, u, l),
                        u as u32,
                        node,
                        cap(m, l),
                        nbrs(a1, u, l),
                        nbrs(b1, u, l),
                    );
                }
            }
        } else {
            assert(nbrs(a1, u, l) =~= nbrs(b1, u, l));
        }
    }
}

/// Where every pair has one similarity, the same levels build the same graph.
pub proof fn a_build_has_one_result(
    sim: spec_fn(u32, u32, i64) -> bool,
    levels: Seq<u8>,
    m: nat,
    ef: nat,
    x: Seq<Seq<Vec<Vec<u32>>>>,
    y: Seq<Seq<Vec<Vec<u32>>>>,
)
    requires
        is_related_once(sim),
        levels.len() <= u32::MAX,
        is_build(sim, levels, m, ef, levels.len(), x),
        is_build(sim, levels, m, ef, levels.len(), y),
    ensures
        same_lists(x.last(), y.last()),
{
    lemma_build_once(sim, levels, m, ef, x, y, x.len() - 1);
}

proof fn lemma_build_once(
    sim: spec_fn(u32, u32, i64) -> bool,
    levels: Seq<u8>,
    m: nat,
    ef: nat,
    x: Seq<Seq<Vec<Vec<u32>>>>,
    y: Seq<Seq<Vec<Vec<u32>>>>,
    k: int,
)
    requires
        is_related_once(sim),
        levels.len() <= u32::MAX,
        is_build(sim, levels, m, ef, levels.len(), x),
        is_build(sim, levels, m, ef, levels.len(), y),
        0 <= k < x.len(),
    ensures
        same_lists(x[k], y[k]),
        x[k].len() == levels.len(),
    decreases k,
{
    if k == 0 {
        assert forall|u: int, l: int| #[trigger] nbrs(x[0], u, l) == nbrs(y[0], u, l) by {
            assert(nbrs(x[0], u, l).len() == 0);
            assert(nbrs(y[0], u, l).len() == 0);
            assert(nbrs(x[0], u, l) =~= nbrs(y[0], u, l));
        }
    } else {
        lemma_build_once(sim, levels, m, ef, x, y, k - 1);
        assert(is_step(sim, levels, m, ef, x, k) && is_step(sim, levels, m, ef, y, k));
        let entry = leader(levels, k as nat);
        let top = height(levels, k as nat) as int;
        let lv = levels[k] as int;
        let (s, p) = choose|trail: Seq<u32>, founds: Seq<Seq<Cand>>| #[trigger]
            is_placed(sim, x[k - 1], x[k], entry, top, k as u32, lv, m, ef, trail, founds);
        let (t, q) = choose|trail: Seq<u32>, founds: Seq<Seq<Cand>>| #[trigger]
            is_placed(sim, y[k - 1], y[k], entry, top, k as u32, lv, m, ef, trail, founds);
        lemma_placed_once(
            sim,
            x[k - 1],
            x[k],
            y[k - 1],
            y[k],
            entry,
            top,
            k as u32,
            lv,
            m,
            ef,
            s,
            p,
            t,
            q,
        );
        reveal(is_placed);
    }
}

// ---- What a search promises ----

/// A hit is a node of the graph with a score of that very node. Hits come in order of their
/// scores, of equal ones the later node first, no node comes twice, and there are never more than
/// `k`.
pub proof fn every_hit_has_its_own_score(
    h: Hnsw,
    score: spec_fn(u32, i64) -> bool,
    k: nat,
    ef: nat,
    hits: Seq<(i64, i64)>,
)
    requires
        h.wf(),
        is_search(h, score, k, ef, hits),
    ensures
        hits.len() <= k,
        forall|i: int|
            0 <= i < hits.len() ==> 0 <= (#[trigger] hits[i]).0 < h.links().len() && score(
                hits[i].0 as u32,
                hits[i].1,
            ),
        forall|i: int, j: int|
            0 <= i < j < hits.len() ==> (#[trigger] hits[i]).1 >= (#[trigger] hits[j]).1
                && hits[i].0 != hits[j].0 && (hits[i].1 == hits[j].1 ==> hits[i].0 > hits[j].0),
        h.links().len() > 0 && k > 0 ==> hits.len() > 0,
{
    if h.links().len() > 0 && k > 0 {
        let g = layer_edges(h.links(), 0);
        let w = search_width(ef, k);
        let (trail, found) = choose|trail: Seq<u32>, found: Seq<Cand>|
            {
                &&& #[trigger] is_trail(h.links(), score, h.entry(), h.top() as int, 0, trail)
                &&& #[trigger] is_walked(g, score, seq![trail.last()], w, found)
                &&& in_order(found)
                &&& hits == best_pairs(found, k)
            };
        assert forall|i: int| 0 <= i < hits.len() implies 0 <= (#[trigger] hits[i]).0
            < h.links().len() && score(hits[i].0 as u32, hits[i].1) by {
            assert(found[i].id < g.len());
        }
        assert(settled(score, seq![trail.last()][0], w, found));
        if found.len() == 0 {
            assert(!holds(found, trail.last()));
        }
    }
}

/// No neighbour of a hit was passed over: at the base, every neighbour of a hit is a hit itself,
/// or `k` hits were found and none of them scores lower than that neighbour.
pub proof fn no_neighbour_of_a_hit_is_passed_over(
    h: Hnsw,
    score: spec_fn(u32, i64) -> bool,
    k: nat,
    ef: nat,
    hits: Seq<(i64, i64)>,
    i: int,
    j: int,
)
    requires
        h.wf(),
        is_search(h, score, k, ef, hits),
        0 <= i < hits.len(),
        0 <= j < h.links()[hits[i].0 as int]@[0]@.len(),
    ensures
        ({
            let v = h.links()[hits[i].0 as int]@[0]@[j];
            ||| exists|q: int| 0 <= q < hits.len() && (#[trigger] hits[q]).0 == v
            ||| hits.len() == k && exists|s: i64| #[trigger]
                score(v, s) && forall|q: int| 0 <= q < hits.len() ==> s <= (#[trigger] hits[q]).1
        }),
{
    let g = layer_edges(h.links(), 0);
    let w = search_width(ef, k);
    let (trail, found) = choose|trail: Seq<u32>, found: Seq<Cand>|
        {
            &&& #[trigger] is_trail(h.links(), score, h.entry(), h.top() as int, 0, trail)
            &&& #[trigger] is_walked(g, score, seq![trail.last()], w, found)
            &&& in_order(found)
            &&& hits == best_pairs(found, k)
        };
    let u = found[i].id as int;
    assert(found[i].id < g.len());
    assert(h.links()[u]@.len() > 0);
    let v = g[u][j];
    assert(v == h.links()[u]@[0]@[j]);
    assert(settled(score, g[found[i].id as int][j], w, found));
    if holds(found, v) {
        let q = choose|q: int| 0 <= q < found.len() && (#[trigger] found[q]).id == v;
        if q < hits.len() {
            assert(hits[q].0 == v);
        } else {
            assert(score(v, found[q].sim));
            assert forall|p: int| 0 <= p < hits.len() implies found[q].sim <= (
            #[trigger] hits[p]).1 by {
                assert(found[p].leq(found[q]));
            }
        }
    } else {
        let s = choose|s: i64| #[trigger]
            score(v, s) && forall|p: int| 0 <= p < found.len() ==> s <= (#[trigger] found[p]).sim;
        assert forall|p: int| 0 <= p < hits.len() implies s <= (#[trigger] hits[p]).1 by {
            assert(s <= found[p].sim);
        }
    }
}

proof fn lemma_climb_rises(
    g: Seq<Seq<u32>>,
    score: spec_fn(u32, i64) -> bool,
    ep: u32,
    path: Seq<(u32, i64)>,
    i: int,
)
    requires
        is_climb(g, score, ep, path),
        0 <= i < path.len(),
    ensures
        path[0].1 <= path[i].1,
        i > 0 ==> path[1].1 <= path[i].1,
    decreases i,
{
    if i > 0 {
        lemma_climb_rises(g, score, ep, path, i - 1);
        assert(climbs_at(g, score, path, i));
    }
}

/// A greedy descent ends no lower than it starts and no lower than any neighbour of its start.
proof fn lemma_descent_rises(
    g: Seq<Seq<u32>>,
    score: spec_fn(u32, i64) -> bool,
    ep: u32,
    v: u32,
    s: i64,
)
    requires
        is_single(score),
        is_descent(g, score, ep, v),
        score(v, s),
    ensures
        forall|t: i64| #[trigger] score(ep, t) ==> t <= s,
        forall|j: int, t: i64|
            0 <= j < g[ep as int].len() && #[trigger] score(g[ep as int][j], t) ==> t <= s,
{
    let path = choose|path: Seq<(u32, i64)>| #[trigger]
        is_climb(g, score, ep, path) && path.last().0 == v && is_peak(
            score,
            g[v as int],
            path.last().1,
        );
    let n = path.len() - 1;
    lemma_climb_rises(g, score, ep, path, n);
    if n > 0 {
        assert(climbs_at(g, score, path, n));
        assert(climbs_at(g, score, path, 1));
        let (sims, b) = choose|sims: Seq<i64>, b: int| #[trigger]
            is_climb_step(score, g[path[0].0 as int], path[0], path[1], sims, b);
        let (sims2, b2) = choose|sims: Seq<i64>, b: int| #[trigger]
            is_climb_step(score, g[path[n - 1].0 as int], path[n - 1], path[n], sims, b);
        assert(score(g[path[n - 1].0 as int][b2], sims2[b2]));
        assert(score(v, path[n].1));
        assert forall|j: int, t: i64|
            0 <= j < g[ep as int].len() && #[trigger] score(g[ep as int][j], t) implies t <= s by {
            assert(score(g[ep as int][j], sims[j]));
            assert(sims[j] <= sims[b]);
        }
    } else {
        assert(score(v, path[0].1));
        let sims = choose|sims: Seq<i64>| #[trigger]
            are_scores(score, g[v as int], sims) && forall|k: int|
                0 <= k < sims.len() ==> (#[trigger] sims[k]) <= path.last().1;
        assert forall|j: int, t: i64|
            0 <= j < g[ep as int].len() && #[trigger] score(g[ep as int][j], t) implies t <= s by {
            assert(score(g[ep as int][j], sims[j]));
        }
    }
}

proof fn lemma_trail_scored(
    links: Seq<Vec<Vec<u32>>>,
    score: spec_fn(u32, i64) -> bool,
    entry: u32,
    top: int,
    low: int,
    trail: Seq<u32>,
    i: int,
) -> (s: i64)
    requires
        is_trail(links, score, entry, top, low, trail),
        0 < i < trail.len(),
    ensures
        score(trail[i], s),
{
    assert(descends_at(links, score, top, trail, i));
    let (t, s0) = choose|t: i64, s0: i64|
        {
            &&& #[trigger] score(trail[i], t)
            &&& #[trigger] score(trail[i - 1], s0)
            &&& s0 <= t
            &&& forall|k: int|
                0 <= k < layer_edges(links, top - i + 1)[trail[i] as int].len() ==> scores_at_most(
                    score,
                    #[trigger] layer_edges(links, top - i + 1)[trail[i] as int][k],
                    t,
                )
        };
    t
}

proof fn lemma_trail_rises(
    links: Seq<Vec<Vec<u32>>>,
    score: spec_fn(u32, i64) -> bool,
    entry: u32,
    top: int,
    low: int,
    trail: Seq<u32>,
    i: int,
    s: i64,
)
    requires
        is_single(score),
        is_trail(links, score, entry, top, low, trail),
        0 <= i < trail.len(),
        score(trail[i], s),
    ensures
        forall|t: i64| #[trigger] score(entry, t) ==> t <= s,
        forall|j: int, t: i64|
            i > 0 && 0 <= j < layer_edges(links, top)[entry as int].len() && #[trigger] score(
                layer_edges(links, top)[entry as int][j],
                t,
            ) ==> t <= s,
    decreases i,
{
    if i > 0 {
        assert(descends_at(links, score, top, trail, i));
        lemma_descent_rises(layer_edges(links, top - i + 1), score, trail[i - 1], trail[i], s);
        if i > 1 {
            let r = lemma_trail_scored(links, score, entry, top, low, trail, i - 1);
            lemma_trail_rises(links, score, entry, top, low, trail, i - 1, r);
            assert(r <= s);
        }
    }
}

/// A search goes through the upper layers: its best hit scores no lower than the entry node, and,
/// where there is an upper layer, no lower than any neighbour of the entry node at the top one.
pub proof fn the_best_hit_is_no_worse_than_the_entrance(
    h: Hnsw,
    score: spec_fn(u32, i64) -> bool,
    k: nat,
    ef: nat,
    hits: Seq<(i64, i64)>,
)
    requires
        h.wf(),
        is_single(score),
        is_search(h, score, k, ef, hits),
        h.links().len() > 0,
        k > 0,
    ensures
        hits.len() > 0,
        forall|s: i64| #[trigger] score(h.entry(), s) ==> s <= hits[0].1,
        forall|j: int, s: i64|
            h.top() > 0 && 0 <= j < h.links()[h.entry() as int]@[h.top() as int]@.len()
                && #[trigger] score(h.links()[h.entry() as int]@[h.top() as int]@[j], s) ==> s
                <= hits[0].1,
{
    every_hit_has_its_own_score(h, score, k, ef, hits);
    let g = layer_edges(h.links(), 0);
    let w = search_width(ef, k);
    let top = h.top() as int;
    let (trail, found) = choose|trail: Seq<u32>, found: Seq<Cand>|
        {
            &&& #[trigger] is_trail(h.links(), score, h.entry(), top, 0, trail)
            &&& #[trigger] is_walked(g, score, seq![trail.last()], w, found)
            &&& in_order(found)
            &&& hits == best_pairs(found, k)
        };
    let e = h.entry() as int;
    assert(nbrs(h.links(), e, top) == h.links()[e]@[top]@);
    let v = trail.last();
    assert(settled(score, seq![v][0], w, found));
    assert(hits[0].1 == found[0].sim);
    let s = if holds(found, v) {
        let q = choose|q: int| 0 <= q < found.len() && (#[trigger] found[q]).id == v;
        if q > 0 {
            assert(found[0].leq(found[q]));
        }
        assert(score(v, found[q].sim));
        found[q].sim
    } else {
        let s = choose|s: i64| #[trigger]
            score(v, s) && forall|p: int| 0 <= p < found.len() ==> s <= (#[trigger] found[p]).sim;
        assert(s <= found[0].sim);
        s
    };
    assert(score(v, s) && s <= found[0].sim);
    lemma_trail_rises(h.links(), score, h.entry(), top, 0, trail, trail.len() - 1, s);
    if top > 0 {
        assert(layer_edges(h.links(), top)[e] == h.links()[e]@[top]@);
    }
}

// ---- What a graph promises ----

/// Every list holds different nodes of the graph, never its own, each of which reaches as high as
/// the list; at the base at most `2 m` of them, above it at most `m`.
pub proof fn degrees_are_capped(h: Hnsw, u: int, layer: int, i: int)
    requires
        h.wf(),
        0 <= u < h.links().len(),
        0 <= layer < h.links()[u]@.len(),
        0 <= i < h.links()[u]@[layer]@.len(),
    ensures
        h.links()[u]@[layer]@.no_duplicates(),
        h.links()[u]@[layer]@[i] < h.links().len(),
        h.links()[u]@[layer]@[i] != u,
        h.links()[h.links()[u]@[layer]@[i] as int]@.len() > layer,
        layer == 0 ==> h.links()[u]@[0]@.len() <= 2 * h.m(),
        layer > 0 ==> h.links()[u]@[layer]@.len() <= h.m(),
{
    let k = h.links().len() as int;
    assert(lists_ok(h.links(), h.levels(), layer, k, cap(h.m(), layer)));
    let list = nbrs(h.links(), u, layer);
    assert(list_ok(list, h.levels(), u, layer, k, cap(h.m(), layer)));
    assert(list[i] < k);
    assert(h.links()[list[i] as int]@.len() == h.levels()[list[i] as int] + 1);
}

/// A search enters a graph at the first of its highest nodes.
pub proof fn the_entry_is_the_first_of_the_highest(levels: Seq<u8>, k: nat, u: int)
    requires
        k <= levels.len(),
        k <= u32::MAX,
        0 <= u < k,
    ensures
        leader(levels, k) < k,
        levels[u] <= levels[leader(levels, k) as int],
        u < leader(levels, k) ==> levels[u] < levels[leader(levels, k) as int],
        height(levels, k) == levels[leader(levels, k) as int],
    decreases k,
{
    if k > 1 {
        if u < k - 1 {
            the_entry_is_the_first_of_the_highest(levels, (k - 1) as nat, u);
        } else {
            the_entry_is_the_first_of_the_highest(levels, (k - 1) as nat, 0);
        }
    }
}

/// A node that is linked into a graph gets neighbours at every layer that both reach: at least
/// one and at most `m`. Each of them lists it in turn unless its own list is full, and every
/// other list of that layer stays as it was.
pub proof fn a_new_node_is_linked_at_every_layer(
    sim: spec_fn(u32, u32, i64) -> bool,
    before: Seq<Vec<Vec<u32>>>,
    after: Seq<Vec<Vec<u32>>>,
    entry: u32,
    top: int,
    node: u32,
    lv: int,
    m: nat,
    ef: nat,
    trail: Seq<u32>,
    founds: Seq<Seq<Cand>>,
    layer: int,
    u: int,
)
    requires
        is_placed(sim, before, after, entry, top, node, lv, m, ef, trail, founds),
        m > 0,
        0 <= layer <= lv,
        layer <= top,
        0 <= u < before.len(),
        u != node,
        before.len() <= u32::MAX,
    ensures
        1 <= nbrs(after, node as int, layer).len() <= m,
        !nbrs(after, node as int, layer).contains(u as u32) ==> nbrs(after, u, layer) == nbrs(
            before,
            u,
            layer,
        ),
        nbrs(after, node as int, layer).contains(u as u32) ==> nbrs(after, u, layer).contains(node)
            || nbrs(after, u, layer).len() == if layer == 0 {
            2 * m
        } else {
            m
        },
{
    broadcast use vstd::seq_lib::group_to_multiset_ensures;

    reveal(is_placed);
    let start = if lv < top {
        lv
    } else {
        top
    };
    let found = founds[layer];
    assert(is_linked(sim, before, after, node, layer, found, m));
    lemma_founds_hold_something(sim, before, after, entry, top, node, lv, m, ef, trail, founds, layer);
    let list = nbrs(after, node as int, layer);
    let sorted = choose|sorted: Seq<Cand>| #[trigger]
        is_sort_of(found, sorted) && list == Seq::new(
            if m < sorted.len() {
                m
            } else {
                sorted.len()
            },
            |i: int| sorted[i].id,
        );
    assert(sorted.to_multiset().len() == found.to_multiset().len());
    if list.contains(u as u32) {
        let full = nbrs(before, u, layer).push(node);
        let mine = nbrs(after, u, layer);
        assert(is_relinked(sim, nbrs(before, u, layer), u as u32, node, cap(m, layer), mine));
        if full.len() <= cap(m, layer) {
            assert(full[full.len() - 1] == node);
        } else {
            let cands = choose|cands: Seq<Cand>| #[trigger]
                rated(sim, u as u32, full, cands) && top_ids(cands, cap(m, layer), mine);
            let ranked = choose|sorted: Seq<Cand>| #[trigger]
                is_sort_of(cands, sorted) && mine == Seq::new(
                    if cap(m, layer) < sorted.len() {
                        cap(m, layer)
                    } else {
                        sorted.len()
                    },
                    |i: int| sorted[i].id,
                );
            assert(ranked.to_multiset().len() == cands.to_multiset().len());
        }
    }
}

proof fn lemma_founds_hold_something(
    sim: spec_fn(u32, u32, i64) -> bool,
    before: Seq<Vec<Vec<u32>>>,
    after: Seq<Vec<Vec<u32>>>,
    entry: u32,
    top: int,
    node: u32,
    lv: int,
    m: nat,
    ef: nat,
    trail: Seq<u32>,
    founds: Seq<Seq<Cand>>,
    layer: int,
)
    requires
        is_placed(sim, before, after, entry, top, node, lv, m, ef, trail, founds),
        0 <= layer <= lv,
        layer <= top,
    ensures
        founds[layer].len() > 0,
    decreases top - layer,
{
    reveal(is_placed);
    let start = if lv < top {
        lv
    } else {
        top
    };
    let starts = starts_at(trail, founds, layer, start);
    if layer < start {
        lemma_founds_hold_something(
            sim,
            before,
            after,
            entry,
            top,
            node,
            lv,
            m,
            ef,
            trail,
            founds,
            layer + 1,
        );
    }
    assert(starts.len() > 0);
    let found = founds[layer];
    assert(is_walked(layer_edges(before, layer), seen_from(sim, node), starts, ef, found));
    lemma_walk_finds(layer_edges(before, layer), seen_from(sim, node), starts, ef, found);
}

/// An index is charged for a header for every node there is room for, for a header for every list
/// and four bytes for every neighbour there is room for, and for a byte for every level.
pub proof fn an_index_is_charged_for_every_room_once(
    links_room: usize,
    levels_room: usize,
    rooms: Seq<(usize, Vec<usize>)>,
)
    ensures
        index_cost(links_room, levels_room, rooms) == links_room * size_of::<Vec<Vec<u32>>>()
            + levels_room + total(
            Seq::new(
                rooms.len(),
                |u: int|
                    (rooms[u].0 * size_of::<Vec<u32>>() + 4 * total(
                        Seq::new(rooms[u].1@.len(), |l: int| rooms[u].1@[l] as int),
                    )) as int,
            ),
        ),
{
    lemma_rooms_total(rooms, rooms.len() as int);
}

proof fn lemma_room_total(room: (usize, Vec<usize>), k: int)
    requires
        0 <= k <= room.1@.len(),
    ensures
        room_bytes(room, k) == room.0 * size_of::<Vec<u32>>() + 4 * total(
            Seq::new(k as nat, |l: int| room.1@[l] as int),
        ),
    decreases k,
{
    let f = |l: int| room.1@[l] as int;
    if k > 0 {
        lemma_room_total(room, k - 1);
        assert(Seq::new(k as nat, f) =~= Seq::new((k - 1) as nat, f).push(f(k - 1)));
        total_of_push(Seq::new((k - 1) as nat, f), f(k - 1));
    } else {
        total_of_nothing(Seq::new(0, f));
    }
}

proof fn lemma_rooms_total(rooms: Seq<(usize, Vec<usize>)>, k: int)
    requires
        0 <= k <= rooms.len(),
    ensures
        rooms_upto(rooms, k) == total(
            Seq::new(
                k as nat,
                |u: int|
                    (rooms[u].0 * size_of::<Vec<u32>>() + 4 * total(
                        Seq::new(rooms[u].1@.len(), |l: int| rooms[u].1@[l] as int),
                    )) as int,
            ),
        ),
    decreases k,
{
    let f = |u: int|
        (rooms[u].0 * size_of::<Vec<u32>>() + 4 * total(
            Seq::new(rooms[u].1@.len(), |l: int| rooms[u].1@[l] as int),
        )) as int;
    if k > 0 {
        lemma_rooms_total(rooms, k - 1);
        lemma_room_total(rooms[k - 1], rooms[k - 1].1@.len() as int);
        assert(Seq::new(k as nat, f) =~= Seq::new((k - 1) as nat, f).push(f(k - 1)));
        total_of_push(Seq::new((k - 1) as nat, f), f(k - 1));
    } else {
        total_of_nothing(Seq::new(0, f));
    }
}

/// A search that returns fewer nodes than it was asked for returns every node that can be reached
/// at the base from any of those it returns.
pub proof fn a_search_with_room_returns_all_that_is_reachable(
    h: Hnsw,
    score: spec_fn(u32, i64) -> bool,
    k: nat,
    ef: nat,
    hits: Seq<(i64, i64)>,
    path: Seq<u32>,
)
    requires
        h.wf(),
        is_search(h, score, k, ef, hits),
        hits.len() < k,
        path.len() > 0,
        forall|i: int| 0 <= i < path.len() ==> (#[trigger] path[i]) < h.links().len(),
        exists|i: int| 0 <= i < hits.len() && (#[trigger] hits[i]).0 == path[0],
        forall|i: int|
            0 < i < path.len() ==> h.links()[path[i - 1] as int]@[0]@.contains(#[trigger] path[i]),
    ensures
        exists|i: int| 0 <= i < hits.len() && (#[trigger] hits[i]).0 == path.last(),
    decreases path.len(),
{
    let n = path.len() - 1;
    if n > 0 {
        let front = path.drop_last();
        assert forall|i: int| 0 <= i < front.len() implies (#[trigger] front[i])
            < h.links().len() by {
            assert(front[i] == path[i]);
        }
        assert forall|i: int| 0 < i < front.len() implies h.links()[front[i
            - 1] as int]@[0]@.contains(#[trigger] front[i]) by {
            assert(front[i] == path[i]);
        }
        a_search_with_room_returns_all_that_is_reachable(h, score, k, ef, hits, front);
        let i = choose|i: int| 0 <= i < hits.len() && (#[trigger] hits[i]).0 == front.last();
        assert(h.links()[path[n - 1] as int]@[0]@.contains(path[n]));
        let list = h.links()[path[n - 1] as int]@[0]@;
        let j = choose|j: int| 0 <= j < list.len() && list[j] == path[n];
        no_neighbour_of_a_hit_is_passed_over(h, score, k, ef, hits, i, j);
    }
}

/// A search that is wider than the graph is exact: whatever can be reached at the base from a hit
/// is a hit itself, or `k` hits were found and none of them scores lower.
pub proof fn a_search_wider_than_the_graph_is_exact(
    h: Hnsw,
    score: spec_fn(u32, i64) -> bool,
    k: nat,
    ef: nat,
    hits: Seq<(i64, i64)>,
    path: Seq<u32>,
)
    requires
        h.wf(),
        is_search(h, score, k, ef, hits),
        ef > h.links().len(),
        path.len() > 0,
        forall|i: int| 0 <= i < path.len() ==> (#[trigger] path[i]) < h.links().len(),
        exists|i: int| 0 <= i < hits.len() && (#[trigger] hits[i]).0 == path[0],
        forall|i: int|
            0 < i < path.len() ==> h.links()[path[i - 1] as int]@[0]@.contains(#[trigger] path[i]),
    ensures
        ({
            ||| exists|q: int| 0 <= q < hits.len() && (#[trigger] hits[q]).0 == path.last()
            ||| hits.len() == k && exists|s: i64| #[trigger]
                score(path.last(), s) && forall|q: int|
                    0 <= q < hits.len() ==> s <= (#[trigger] hits[q]).1
        }),
{
    let g = layer_edges(h.links(), 0);
    let w = search_width(ef, k);
    let (trail, found) = choose|trail: Seq<u32>, found: Seq<Cand>|
        {
            &&& #[trigger] is_trail(h.links(), score, h.entry(), h.top() as int, 0, trail)
            &&& #[trigger] is_walked(g, score, seq![trail.last()], w, found)
            &&& in_order(found)
            &&& hits == best_pairs(found, k)
        };
    lemma_beam_bound(g, score, seq![trail.last()], w, found);
    let i = choose|i: int| 0 <= i < hits.len() && (#[trigger] hits[i]).0 == path[0];
    assert(found[i].id == path[0]);
    assert forall|j: int| 0 < j < path.len() implies g[path[j - 1] as int].contains(
        #[trigger] path[j],
    ) by {
        let u = path[j - 1] as int;
        assert(h.links()[u]@.len() == h.levels()[u] + 1);
        assert(g[u] == h.links()[u]@[0]@);
    }
    lemma_room_follows(g, score, seq![trail.last()], w, found, path);
    let q = choose|q: int| 0 <= q < found.len() && (#[trigger] found[q]).id == path.last();
    if q < hits.len() {
        assert(hits[q].0 == path.last());
    } else {
        assert(score(path.last(), found[q].sim));
        assert forall|p: int| 0 <= p < hits.len() implies found[q].sim <= (#[trigger] hits[p]).1 by {
            assert(found[p].leq(found[q]));
        }
    }
}

proof fn lemma_build_length(
    sim: spec_fn(u32, u32, i64) -> bool,
    levels: Seq<u8>,
    m: nat,
    ef: nat,
    n: nat,
    trace: Seq<Seq<Vec<Vec<u32>>>>,
    k: int,
)
    requires
        is_build(sim, levels, m, ef, n, trace),
        0 <= k < n,
    ensures
        trace[k].len() == levels.len(),
    decreases k,
{
    if k > 0 {
        reveal(is_placed);
        lemma_build_length(sim, levels, m, ef, n, trace, k - 1);
        assert(is_step(sim, levels, m, ef, trace, k));
    }
}

/// A node that is added to a graph by a search that is wider than the graph gets the most similar
/// nodes of every layer that it reaches: what can be reached there from one of its neighbours is a
/// neighbour itself, or `m` neighbours were found and none of them is less similar.
pub proof fn a_build_wider_than_the_graph_links_the_most_similar(
    sim: spec_fn(u32, u32, i64) -> bool,
    levels: Seq<u8>,
    m: nat,
    ef: nat,
    trace: Seq<Seq<Vec<Vec<u32>>>>,
    k: int,
    layer: int,
    u: int,
    path: Seq<u32>,
)
    requires
        is_related_once(sim),
        is_build(sim, levels, m, ef, levels.len(), trace),
        levels.len() <= u32::MAX,
        m > 0,
        ef > levels.len(),
        0 <= u < k < levels.len(),
        0 <= layer <= levels[k],
        layer <= levels[u],
        path.len() > 0,
        nbrs(trace[k], k, layer).contains(path[0]),
        forall|i: int|
            0 < i < path.len() ==> nbrs(trace[k - 1], path[i - 1] as int, layer).contains(
                #[trigger] path[i],
            ),
    ensures
        ({
            let list = nbrs(trace[k], k, layer);
            ||| list.contains(path.last())
            ||| list.len() == m && exists|s: i64| #[trigger]
                sim(k as u32, path.last(), s) && forall|w: u32, t: i64|
                    list.contains(w) && #[trigger] sim(k as u32, w, t) ==> s <= t
        }),
{
    reveal(is_placed);
    assert(is_step(sim, levels, m, ef, trace, k));
    let (before, after) = (trace[k - 1], trace[k]);
    let node = k as u32;
    let entry = leader(levels, k as nat);
    let top = height(levels, k as nat) as int;
    let lv = levels[k] as int;
    let (trail, founds) = choose|trail: Seq<u32>, founds: Seq<Seq<Cand>>| #[trigger]
        is_placed(sim, before, after, entry, top, node, lv, m, ef, trail, founds);
    the_entry_is_the_first_of_the_highest(levels, k as nat, u);
    let start = if lv < top {
        lv
    } else {
        top
    };
    let g = layer_edges(before, layer);
    let score = seen_from(sim, node);
    let starts = starts_at(trail, founds, layer, start);
    let found = founds[layer];
    let list = nbrs(after, k, layer);
    assert(is_walked(g, score, starts, ef, founds[layer]));
    assert(is_linked(sim, before, after, node, layer, found, m));
    lemma_build_length(sim, levels, m, ef, levels.len(), trace, k - 1);
    lemma_beam_bound(g, score, starts, ef, found);
    lemma_founds_hold_something(sim, before, after, entry, top, node, lv, m, ef, trail, founds, layer);
    the_most_similar_candidates_are_kept(found, m, list, 0);
    let a = choose|a: int| 0 <= a < list.len() && list[a] == path[0];
    let b = choose|b: int| 0 <= b < found.len() && #[trigger] found[b].id == #[trigger] list[a];
    assert(holds(found, path[0]));
    assert forall|i: int| 0 < i < path.len() implies g[path[i - 1] as int].contains(
        #[trigger] path[i],
    ) by {
        assert(nbrs(before, path[i - 1] as int, layer).contains(path[i]));
    }
    lemma_room_follows(g, score, starts, ef, found, path);
    let i = choose|i: int| 0 <= i < found.len() && (#[trigger] found[i]).id == path.last();
    the_most_similar_candidates_are_kept(found, m, list, i);
    if !list.contains(path.last()) {
        let s = found[i].sim;
        assert(score(found[i].id, found[i].sim));
        assert forall|w: u32, t: i64| list.contains(w) && #[trigger] sim(node, w, t) implies s
            <= t by {
            let c = choose|c: int| 0 <= c < list.len() && list[c] == w;
            let d = choose|d: int|
                0 <= d < found.len() && #[trigger] found[d].id == #[trigger] list[c];
            assert(score(found[d].id, found[d].sim));
            assert(sim(node, w, found[d].sim));
            assert(list.contains(found[d].id));
        }
    }
}

proof fn lemma_founds_keep_up(
    sim: spec_fn(u32, u32, i64) -> bool,
    before: Seq<Vec<Vec<u32>>>,
    after: Seq<Vec<Vec<u32>>>,
    entry: u32,
    top: int,
    node: u32,
    lv: int,
    m: nat,
    ef: nat,
    trail: Seq<u32>,
    founds: Seq<Seq<Cand>>,
    layer: int,
) -> (i: int)
    requires
        is_related_once(sim),
        is_placed(sim, before, after, entry, top, node, lv, m, ef, trail, founds),
        0 <= layer <= lv,
        layer <= top,
    ensures
        0 <= i < founds[layer].len(),
        forall|s: i64| #[trigger] sim(node, entry, s) ==> s <= founds[layer][i].sim,
    decreases top - layer,
{
    reveal(is_placed);
    let start = if lv < top {
        lv
    } else {
        top
    };
    let score = seen_from(sim, node);
    assert(is_single(score));
    let found = founds[layer];
    let starts = starts_at(trail, founds, layer, start);
    assert(is_walked(layer_edges(before, layer), score, starts, ef, founds[layer]));
    lemma_founds_hold_something(sim, before, after, entry, top, node, lv, m, ef, trail, founds, layer);
    let e = if layer < start {
        let e = lemma_founds_keep_up(
            sim,
            before,
            after,
            entry,
            top,
            node,
            lv,
            m,
            ef,
            trail,
            founds,
            layer + 1,
        );
        assert(is_walked(
            layer_edges(before, layer + 1),
            score,
            starts_at(trail, founds, layer + 1, start),
            ef,
            founds[layer + 1],
        ));
        assert(score(founds[layer + 1][e].id, founds[layer + 1][e].sim));
        e
    } else {
        0
    };
    assert(settled(score, starts[e], ef, found));
    let i = if holds(found, starts[e]) {
        let q = choose|q: int| 0 <= q < found.len() && (#[trigger] found[q]).id == starts[e];
        assert(score(found[q].id, found[q].sim));
        if layer >= start {
            lemma_trail_rises(before, score, entry, top, lv, trail, trail.len() - 1, found[q].sim);
        }
        q
    } else {
        let t = choose|t: i64| #[trigger]
            score(starts[e], t) && forall|p: int| 0 <= p < found.len() ==> t <= (
            #[trigger] found[p]).sim;
        if layer >= start {
            lemma_trail_rises(before, score, entry, top, lv, trail, trail.len() - 1, t);
        }
        assert(t <= found[0].sim);
        0
    };
    assert forall|s: i64| #[trigger] sim(node, entry, s) implies s <= found[i].sim by {
        assert(score(entry, s));
    }
    i
}

/// The search for a new node's neighbours enters the graph at the first of its highest nodes and
/// never falls behind: at every layer that both reach, the node gets a neighbour that is at least
/// as similar as that entry.
pub proof fn a_new_node_gets_a_neighbour_as_similar_as_the_entry(
    sim: spec_fn(u32, u32, i64) -> bool,
    levels: Seq<u8>,
    m: nat,
    ef: nat,
    trace: Seq<Seq<Vec<Vec<u32>>>>,
    k: int,
    layer: int,
    u: int,
) -> (w: (u32, i64))
    requires
        is_related_once(sim),
        is_build(sim, levels, m, ef, levels.len(), trace),
        levels.len() <= u32::MAX,
        m > 0,
        0 <= u < k < levels.len(),
        forall|v: int|
            0 <= v < k ==> (#[trigger] levels[v]) <= levels[u] && (v < u ==> levels[v] < levels[u]),
        0 <= layer <= levels[k],
        layer <= levels[u],
    ensures
        nbrs(trace[k], k, layer).contains(w.0),
        sim(k as u32, w.0, w.1),
        forall|s: i64| #[trigger] sim(k as u32, u as u32, s) ==> s <= w.1,
{
    reveal(is_placed);
    assert(is_step(sim, levels, m, ef, trace, k));
    let (before, after) = (trace[k - 1], trace[k]);
    let node = k as u32;
    let entry = leader(levels, k as nat);
    let top = height(levels, k as nat) as int;
    let lv = levels[k] as int;
    let (trail, founds) = choose|trail: Seq<u32>, founds: Seq<Seq<Cand>>| #[trigger]
        is_placed(sim, before, after, entry, top, node, lv, m, ef, trail, founds);
    the_entry_is_the_first_of_the_highest(levels, k as nat, u);
    assert(levels[entry as int] <= levels[u]);
    assert(entry == u);
    let found = founds[layer];
    let list = nbrs(after, k, layer);
    assert(is_walked(
        layer_edges(before, layer),
        seen_from(sim, node),
        starts_at(
            trail,
            founds,
            layer,
            if lv < top {
                lv
            } else {
                top
            },
        ),
        ef,
        founds[layer],
    ));
    assert(is_linked(sim, before, after, node, layer, found, m));
    let i = lemma_founds_keep_up(
        sim,
        before,
        after,
        entry,
        top,
        node,
        lv,
        m,
        ef,
        trail,
        founds,
        layer,
    );
    the_most_similar_candidates_are_kept(found, m, list, i);
    let d = if list.contains(found[i].id) {
        i
    } else {
        let d = choose|d: int|
            0 <= d < found.len() && #[trigger] found[d].id == #[trigger] list[0];
        assert(list.contains(found[d].id));
        d
    };
    assert(seen_from(sim, node)(found[d].id, found[d].sim));
    (found[d].id, found[d].sim)
}

/// A greedy step goes to a neighbour that scores higher than where it comes from and no lower than
/// any other neighbour, the first of equals.
pub proof fn a_greedy_step_goes_to_the_best_neighbour(
    score: spec_fn(u32, i64) -> bool,
    nodes: Seq<u32>,
    from: (u32, i64),
    to: (u32, i64),
    sims: Seq<i64>,
    j: int,
    k: int,
)
    requires
        is_climb_step(score, nodes, from, to, sims, j),
        0 <= k < nodes.len(),
    ensures
        nodes.contains(to.0),
        score(to.0, to.1),
        from.1 < to.1,
        exists|s: i64| #[trigger] score(nodes[k], s) && s <= to.1 && (s == to.1 ==> j <= k),
{
    assert(score(nodes[k], sims[k]));
    assert(score(nodes[j], sims[j]));
}

/// What a new node finds at one layer is where it searches on from at the next: a neighbour that
/// it gets at a layer is its neighbour at the layer below too, unless as many were found there as
/// are kept or looked for, none of them less similar.
pub proof fn a_neighbour_above_is_a_neighbour_below(
    sim: spec_fn(u32, u32, i64) -> bool,
    levels: Seq<u8>,
    m: nat,
    ef: nat,
    trace: Seq<Seq<Vec<Vec<u32>>>>,
    k: int,
    layer: int,
    u: int,
    v: u32,
)
    requires
        is_related_once(sim),
        is_build(sim, levels, m, ef, levels.len(), trace),
        levels.len() <= u32::MAX,
        m > 0,
        0 <= u < k < levels.len(),
        0 <= layer < levels[k],
        layer < levels[u],
        nbrs(trace[k], k, layer + 1).contains(v),
    ensures
        ({
            let list = nbrs(trace[k], k, layer);
            ||| list.contains(v)
            ||| (list.len() == m || list.len() >= ef) && exists|s: i64| #[trigger]
                sim(k as u32, v, s) && forall|w: u32, t: i64|
                    list.contains(w) && #[trigger] sim(k as u32, w, t) ==> s <= t
        }),
{
    reveal(is_placed);
    assert(is_step(sim, levels, m, ef, trace, k));
    let (before, after) = (trace[k - 1], trace[k]);
    let node = k as u32;
    let entry = leader(levels, k as nat);
    let top = height(levels, k as nat) as int;
    let lv = levels[k] as int;
    let (trail, founds) = choose|trail: Seq<u32>, founds: Seq<Seq<Cand>>| #[trigger]
        is_placed(sim, before, after, entry, top, node, lv, m, ef, trail, founds);
    the_entry_is_the_first_of_the_highest(levels, k as nat, u);
    let start = if lv < top {
        lv
    } else {
        top
    };
    let score = seen_from(sim, node);
    let (above, found) = (founds[layer + 1], founds[layer]);
    let list = nbrs(after, k, layer);
    let upper = nbrs(after, k, layer + 1);
    assert(is_walked(
        layer_edges(before, layer + 1),
        score,
        starts_at(trail, founds, layer + 1, start),
        ef,
        founds[layer + 1],
    ));
    assert(is_walked(
        layer_edges(before, layer),
        score,
        starts_at(trail, founds, layer, start),
        ef,
        founds[layer],
    ));
    assert(is_linked(sim, before, after, node, layer + 1, above, m));
    assert(is_linked(sim, before, after, node, layer, found, m));
    lemma_founds_hold_something(
        sim,
        before,
        after,
        entry,
        top,
        node,
        lv,
        m,
        ef,
        trail,
        founds,
        layer + 1,
    );
    lemma_founds_hold_something(sim, before, after, entry, top, node, lv, m, ef, trail, founds, layer);
    the_most_similar_candidates_are_kept(above, m, upper, 0);
    let a = choose|a: int| 0 <= a < upper.len() && upper[a] == v;
    let b = choose|b: int| 0 <= b < above.len() && #[trigger] above[b].id == #[trigger] upper[a];
    let starts = starts_at(trail, founds, layer, start);
    assert(starts[b] == v);
    assert(settled(score, starts[b], ef, found));
    lemma_top_ids_full(found, m, list);
    let s = if holds(found, v) {
        let i = choose|i: int| 0 <= i < found.len() && (#[trigger] found[i]).id == v;
        the_most_similar_candidates_are_kept(found, m, list, i);
        assert(score(found[i].id, found[i].sim));
        found[i].sim
    } else {
        the_most_similar_candidates_are_kept(found, m, list, 0);
        choose|s: i64| #[trigger]
            score(v, s) && forall|p: int| 0 <= p < found.len() ==> s <= (#[trigger] found[p]).sim
    };
    if !list.contains(v) {
        assert(score(v, s));
        assert forall|w: u32, t: i64| list.contains(w) && #[trigger] sim(node, w, t) implies s
            <= t by {
            let c = choose|c: int| 0 <= c < list.len() && list[c] == w;
            let d = choose|d: int|
                0 <= d < found.len() && #[trigger] found[d].id == #[trigger] list[c];
            assert(score(found[d].id, found[d].sim));
            assert(sim(node, w, found[d].sim));
            assert(list.contains(found[d].id));
        }
    }
}

} // verus!
