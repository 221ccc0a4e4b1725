//! Neighbour lists of a proximity graph: the best of a set of candidates, and the list of a
//! node that another one links to.

use vstd::prelude::*;
use vstd::relations::{sorted_by, total_ordering};

use crate::beam::{distinct_ids, holds, Cand};
use crate::order::{is_sort_of, merge_sort, Ranked};

verus! {

/// `out` names the `m` best of `cands` (all of them if there are fewer), best first.
pub open spec fn top_ids(cands: Seq<Cand>, m: nat, out: Seq<u32>) -> bool {
    exists|sorted: Seq<Cand>| #[trigger]
        is_sort_of(cands, sorted) && out == Seq::new(
            if m < sorted.len() {
                m
            } else {
                sorted.len()
            },
            |i: int| sorted[i].id,
        )
}

/// The ids of the `m` best candidates, best first.
pub(crate) fn select_neighbors(cands: &Vec<Cand>, m: usize) -> (out: Vec<u32>)
    ensures
        top_ids(cands@, m as nat, out@),
        out.len() == if m < cands.len() {
            m
        } else {
            cands.len()
        },
        forall|k: int| 0 <= k < out.len() ==> holds(cands@, #[trigger] out@[k]),
        distinct_ids(cands@) ==> out@.no_duplicates(),
{
    let sorted: Vec<Cand> = merge_sort(cands);
    let keep: usize = if m < sorted.len() {
        m
    } else {
        sorted.len()
    };
    let mut out: Vec<u32> = Vec::with_capacity(keep);
    let mut i: usize = 0;
    while i < keep
        invariant
            i <= keep <= sorted.len(),
            out@ == Seq::new(i as nat, |j: int| sorted@[j].id),
        decreases keep - i,
    {
        out.push(sorted[i].id);
        assert(out@ =~= Seq::new((i + 1) as nat, |j: int| sorted@[j].id));
        i += 1;
    }
    proof {
        broadcast use vstd::seq_lib::group_to_multiset_ensures;
        assert forall|k: int| 0 <= k < out.len() implies holds(cands@, #[trigger] out@[k]) by {
            assert(sorted@.to_multiset().count(sorted@[k]) > 0);
            assert(cands@.contains(sorted@[k]));
        }
        if distinct_ids(cands@) {
            lemma_sort_distinct(cands@, sorted@);
        }
    }
    out
}

/// Sorting keeps ids distinct.
pub proof fn lemma_sort_distinct(cands: Seq<Cand>, sorted: Seq<Cand>)
    requires
        is_sort_of(cands, sorted),
        distinct_ids(cands),
    ensures
        distinct_ids(sorted),
{
    broadcast use vstd::seq_lib::group_to_multiset_ensures;

    assert(cands.no_duplicates());
    cands.lemma_multiset_has_no_duplicates();
    sorted.lemma_multiset_has_no_duplicates_conv();
    assert forall|i: int, j: int| 0 <= i < j < sorted.len() implies (#[trigger] sorted[i]).id != (
    #[trigger] sorted[j]).id by {
        assert(sorted.to_multiset().count(sorted[i]) > 0);
        assert(sorted.to_multiset().count(sorted[j]) > 0);
        assert(cands.contains(sorted[i]) && cands.contains(sorted[j]));
        let a = choose|a: int| 0 <= a < cands.len() && cands[a] == sorted[i];
        let b = choose|b: int| 0 <= b < cands.len() && cands[b] == sorted[j];
        if a < b {
            assert(cands[a].id != cands[b].id);
        } else if b < a {
            assert(cands[b].id != cands[a].id);
        }
    }
}

/// `cands` are the nodes of `ids`, each with a similarity to `owner`.
pub open spec fn rated(
    sim: spec_fn(u32, u32, i64) -> bool,
    owner: u32,
    ids: Seq<u32>,
    cands: Seq<Cand>,
) -> bool {
    &&& cands.len() == ids.len()
    &&& forall|i: int|
        0 <= i < ids.len() ==> (#[trigger] cands[i]).id == ids[i] && sim(
            owner,
            ids[i],
            cands[i].sim,
        )
}

/// What the neighbour list of `owner` becomes when `node` links to it: `node` is appended, and
/// if the list is then longer than `cap`, only the `cap` nodes closest to `owner` stay.
pub open spec fn is_relinked(
    sim: spec_fn(u32, u32, i64) -> bool,
    before: Seq<u32>,
    owner: u32,
    node: u32,
    cap: nat,
    after: Seq<u32>,
) -> bool {
    let full = before.push(node);
    if full.len() <= cap {
        after == full
    } else {
        exists|cands: Seq<Cand>| #[trigger]
            rated(sim, owner, full, cands) && top_ids(cands, cap, after)
    }
}

/// The similarities that `sim` may give.
pub open spec fn related_by<F: Fn(u32, u32) -> i64>(sim: F) -> spec_fn(u32, u32, i64) -> bool {
    |a: u32, b: u32, s: i64| sim.ensures((a, b), s)
}

/// Appends `node` to the list of `owner` and keeps the `cap` closest if there are too many.
pub(crate) fn relink<F: Fn(u32, u32) -> i64>(
    sim: &F,
    before: &Vec<u32>,
    owner: u32,
    node: u32,
    cap: usize,
) -> (after: Vec<u32>)
    requires
        forall|k: int|
            0 <= k < before.len() ==> sim.requires((owner, #[trigger] before@[k])),
        sim.requires((owner, node)),
    ensures
        is_relinked(related_by(*sim), before@, owner, node, cap as nat, after@),
        after.len() <= cap,
        forall|k: int|
            0 <= k < after.len() ==> #[trigger] after@[k] == node || before@.contains(after@[k]),
        before@.no_duplicates() && !before@.contains(node) ==> after@.no_duplicates(),
{
    let mut full: Vec<u32> = Vec::with_capacity(before.len());
    let mut i: usize = 0;
    while i < before.len()
        invariant
            i <= before.len(),
            full@ == before@.take(i as int),
        decreases before.len() - i,
    {
        full.push(before[i]);
        i += 1;
        assert(full@ =~= before@.take(i as int));
    }
    full.push(node);
    assert(full@ =~= before@.push(node));
    let ghost unique = before@.no_duplicates() && !before@.contains(node);
    proof {
        if unique {
            assert(full@.no_duplicates());
        }
    }
    if full.len() <= cap {
        return full;
    }
    let mut cands: Vec<Cand> = Vec::with_capacity(full.len());
    let mut j: usize = 0;
    while j < full.len()
        invariant
            j <= full.len(),
            full@ == before@.push(node),
            cands.len() == j,
            sim.requires((owner, node)),
            forall|k: int|
                0 <= k < before.len() ==> sim.requires((owner, #[trigger] before@[k])),
            forall|k: int|
                0 <= k < j ==> (#[trigger] cands@[k]).id == full@[k] && related_by(*sim)(
                    owner,
                    full@[k],
                    cands@[k].sim,
                ),
        decreases full.len() - j,
    {
        let x: u32 = full[j];
        assert(sim.requires((owner, x))) by {
            if j < before.len() {
                assert(x == before@[j as int]);
            }
        }
        let s: i64 = sim(owner, x);
        cands.push(Cand { sim: s, id: x });
        j += 1;
    }
    let after: Vec<u32> = select_neighbors(&cands, cap);
    proof {
        assert(rated(related_by(*sim), owner, full@, cands@));
        assert forall|k: int| 0 <= k < after.len() implies #[trigger] after@[k] == node
            || before@.contains(after@[k]) by {
            assert(holds(cands@, after@[k]));
            let q = choose|q: int|
                0 <= q < cands@.len() && (#[trigger] cands@[q]).id == after@[k];
            if q < before.len() {
                assert(before@[q] == after@[k]);
            }
        }
    }
    after
}

/// The similarities of `node` to other nodes.
pub open spec fn seen_from(
    sim: spec_fn(u32, u32, i64) -> bool,
    node: u32,
) -> spec_fn(u32, i64) -> bool {
    |v: u32, s: i64| sim(node, v, s)
}

/// The similarity accepts every pair of the first `n` nodes.
pub open spec fn relates_all<F: Fn(u32, u32) -> i64>(n: nat, sim: F) -> bool {
    forall|a: u32, b: u32| a < n && b < n ==> #[trigger] sim.requires((a, b))
}

spec fn cand_order() -> spec_fn(Cand, Cand) -> bool {
    |a: Cand, b: Cand| a.leq(b)
}

/// There is one way to sort candidates.
pub proof fn sorting_is_unique(cands: Seq<Cand>, x: Seq<Cand>, y: Seq<Cand>)
    requires
        is_sort_of(cands, x),
        is_sort_of(cands, y),
    ensures
        x == y,
{
    let order = cand_order();
    assert(sorted_by(x, order)) by {
        assert forall|i: int, j: int| 0 <= i < j < x.len() implies order(x[i], x[j]) by {
            assert(x[i].leq(x[j]));
        }
    }
    assert(sorted_by(y, order)) by {
        assert forall|i: int, j: int| 0 <= i < j < y.len() implies order(y[i], y[j]) by {
            assert(y[i].leq(y[j]));
        }
    }
    assert(total_ordering(order));
    vstd::seq_lib::lemma_sorted_unique(x, y, order);
}

/// There is one list of the `m` best.
pub proof fn best_ids_are_unique(cands: Seq<Cand>, m: nat, a: Seq<u32>, b: Seq<u32>)
    requires
        top_ids(cands, m, a),
        top_ids(cands, m, b),
    ensures
        a == b,
{
    let x = choose|sorted: Seq<Cand>| #[trigger]
        is_sort_of(cands, sorted) && a == Seq::new(
            if m < sorted.len() {
                m
            } else {
                sorted.len()
            },
            |i: int| sorted[i].id,
        );
    let y = choose|sorted: Seq<Cand>| #[trigger]
        is_sort_of(cands, sorted) && b == Seq::new(
            if m < sorted.len() {
                m
            } else {
                sorted.len()
            },
            |i: int| sorted[i].id,
        );
    sorting_is_unique(cands, x, y);
    assert(a =~= b);
}

/// Where every pair has one similarity, a list that another node links to becomes one list.
pub proof fn relinking_is_deterministic(
    sim: spec_fn(u32, u32, i64) -> bool,
    before: Seq<u32>,
    owner: u32,
    node: u32,
    cap: nat,
    a: Seq<u32>,
    b: Seq<u32>,
)
    requires
        is_related_once(sim),
        is_relinked(sim, before, owner, node, cap, a),
        is_relinked(sim, before, owner, node, cap, b),
    ensures
        a == b,
{
    let full = before.push(node);
    if full.len() > cap {
        let x = choose|cands: Seq<Cand>| #[trigger]
            rated(sim, owner, full, cands) && top_ids(cands, cap, a);
        let y = choose|cands: Seq<Cand>| #[trigger]
            rated(sim, owner, full, cands) && top_ids(cands, cap, b);
        assert forall|i: int| 0 <= i < full.len() implies x[i] == y[i] by {
            assert(x[i].id == full[i] && y[i].id == full[i]);
            assert(sim(owner, full[i], x[i].sim) && sim(owner, full[i], y[i].sim));
        }
        assert(x =~= y);
        best_ids_are_unique(x, cap, a, b);
    }
}

/// Every pair has at most one similarity.
pub open spec fn is_related_once(sim: spec_fn(u32, u32, i64) -> bool) -> bool {
    forall|a: u32, b: u32, s: i64, t: i64| #[trigger]
        sim(a, b, s) && #[trigger] sim(a, b, t) ==> s == t
}

// ---- What a neighbour list promises ----

/// Of candidates with different ids the `m` most similar are kept: a candidate that was left out
/// is no more similar than any that was kept, has a lower id where it is as similar, and then `m`
/// were kept.
pub proof fn the_most_similar_candidates_are_kept(
    cands: Seq<Cand>,
    m: nat,
    out: Seq<u32>,
    i: int,
)
    requires
        distinct_ids(cands),
        top_ids(cands, m, out),
        0 <= i < cands.len(),
    ensures
        out.len() <= m,
        out.len() <= cands.len(),
        out.no_duplicates(),
        forall|k: int|
            0 <= k < out.len() ==> exists|j: int|
                0 <= j < cands.len() && #[trigger] cands[j].id == #[trigger] out[k],
        out.contains(cands[i].id) || out.len() == m && forall|j: int|
            0 <= j < cands.len() && out.contains((#[trigger] cands[j]).id) ==> cands[j].sim
                >= cands[i].sim && (cands[j].sim == cands[i].sim ==> cands[j].id > cands[i].id),
{
    broadcast use vstd::seq_lib::group_to_multiset_ensures;

    let sorted = choose|sorted: Seq<Cand>| #[trigger]
        is_sort_of(cands, sorted) && out == Seq::new(
            if m < sorted.len() {
                m
            } else {
                sorted.len()
            },
            |i: int| sorted[i].id,
        );
    lemma_sort_distinct(cands, sorted);
    assert(sorted.to_multiset().len() == cands.to_multiset().len());
    assert forall|c: Cand| #[trigger] sorted.contains(c) <==> cands.contains(c) by {
        assert(sorted.to_multiset().count(c) == cands.to_multiset().count(c));
    }
    assert forall|k: int| 0 <= k < out.len() implies exists|j: int|
        0 <= j < cands.len() && #[trigger] cands[j].id == #[trigger] out[k] by {
        assert(sorted.contains(sorted[k]));
        let j = choose|j: int| 0 <= j < cands.len() && cands[j] == sorted[k];
        assert(cands[j].id == out[k]);
    }
    assert(cands.contains(cands[i]));
    assert(sorted.contains(cands[i]));
    let p = choose|p: int| 0 <= p < sorted.len() && sorted[p] == cands[i];
    if p < out.len() {
        assert(out[p] == cands[i].id);
    } else {
        assert forall|j: int|
            0 <= j < cands.len() && out.contains((#[trigger] cands[j]).id) implies cands[j].sim
            >= cands[i].sim && (cands[j].sim == cands[i].sim ==> cands[j].id > cands[i].id) by {
            let q = choose|q: int| 0 <= q < out.len() && out[q] == cands[j].id;
            assert(cands.contains(cands[j]));
            assert(sorted.contains(cands[j]));
            let r = choose|r: int| 0 <= r < sorted.len() && sorted[r] == cands[j];
            if r < q {
                assert(sorted[r].id != sorted[q].id);
            } else if q < r {
                assert(sorted[q].id != sorted[r].id);
            }
            assert(sorted[q].leq(sorted[p]));
            assert(sorted[q].id != sorted[p].id);
        }
    }
}

/// The kept candidates come most similar first, of equally similar ones the higher id first.
pub proof fn the_most_similar_candidate_comes_first(
    cands: Seq<Cand>,
    m: nat,
    out: Seq<u32>,
    a: int,
    b: int,
) -> (r: (int, int))
    requires
        distinct_ids(cands),
        top_ids(cands, m, out),
        0 <= a < b < out.len(),
    ensures
        0 <= r.0 < cands.len(),
        0 <= r.1 < cands.len(),
        cands[r.0].id == out[a],
        cands[r.1].id == out[b],
        cands[r.0].sim > cands[r.1].sim || (cands[r.0].sim == cands[r.1].sim && out[a] > out[b]),
{
    broadcast use vstd::seq_lib::group_to_multiset_ensures;

    let sorted = choose|sorted: Seq<Cand>| #[trigger]
        is_sort_of(cands, sorted) && out == Seq::new(
            if m < sorted.len() {
                m
            } else {
                sorted.len()
            },
            |i: int| sorted[i].id,
        );
    lemma_sort_distinct(cands, sorted);
    assert(sorted[a].leq(sorted[b]));
    assert(sorted[a].id != sorted[b].id);
    assert(sorted.to_multiset().count(sorted[a]) > 0 && sorted.to_multiset().count(sorted[b]) > 0);
    assert(cands.contains(sorted[a]) && cands.contains(sorted[b]));
    let c = choose|c: int| 0 <= c < cands.len() && cands[c] == sorted[a];
    let d = choose|d: int| 0 <= d < cands.len() && cands[d] == sorted[b];
    (c, d)
}

/// A link is answered: the node is listed in turn, unless the list is full. What leaves a list is
/// no more similar to its owner than what stays, and nothing else enters it.
pub proof fn a_link_is_answered(
    sim: spec_fn(u32, u32, i64) -> bool,
    before: Seq<u32>,
    owner: u32,
    node: u32,
    cap: nat,
    after: Seq<u32>,
    v: u32,
    w: u32,
    s: i64,
    t: i64,
)
    requires
        is_related_once(sim),
        before.push(node).no_duplicates(),
        is_relinked(sim, before, owner, node, cap, after),
        before.len() <= cap,
    ensures
        after.no_duplicates(),
        after.len() <= cap,
        after.contains(v) ==> before.contains(v) || v == node,
        before.len() < cap ==> after == before.push(node),
        (before.contains(v) || v == node) && !after.contains(v) ==> after.len() == cap,
        (before.contains(v) || v == node) && !after.contains(v) && after.contains(w) && sim(
            owner,
            v,
            s,
        ) && sim(owner, w, t) ==> s <= t,
{
    let full = before.push(node);
    assert forall|x: u32| #[trigger] full.contains(x) <==> before.contains(x) || x == node by {
        if before.contains(x) {
            let i = choose|i: int| 0 <= i < before.len() && before[i] == x;
            assert(full[i] == x);
        }
        if x == node {
            assert(full[before.len() as int] == x);
        }
        if full.contains(x) && x != node {
            let i = choose|i: int| 0 <= i < full.len() && full[i] == x;
            assert(before[i] == x);
        }
    }
    if full.len() > cap {
        let cands = choose|cands: Seq<Cand>| #[trigger]
            rated(sim, owner, full, cands) && top_ids(cands, cap, after);
        assert(distinct_ids(cands)) by {
            assert forall|i: int, j: int| 0 <= i < j < cands.len() implies (
            #[trigger] cands[i]).id != (#[trigger] cands[j]).id by {
                assert(full[i] != full[j]);
            }
        }
        the_most_similar_candidates_are_kept(cands, cap, after, 0);
        assert(after.contains(v) ==> full.contains(v)) by {
            if after.contains(v) {
                let k = choose|k: int| 0 <= k < after.len() && after[k] == v;
                let j = choose|j: int|
                    0 <= j < cands.len() && #[trigger] cands[j].id == after[k];
                assert(full[j] == v);
            }
        }
        if full.contains(v) && !after.contains(v) {
            let i = choose|i: int| 0 <= i < full.len() && full[i] == v;
            assert(cands[i].id == v);
            the_most_similar_candidates_are_kept(cands, cap, after, i);
            if after.contains(w) && sim(owner, v, s) && sim(owner, w, t) {
                let k = choose|k: int| 0 <= k < after.len() && after[k] == w;
                let j = choose|j: int|
                    0 <= j < cands.len() && #[trigger] cands[j].id == after[k];
                assert(cands[j].id == w && full[j] == w);
                assert(sim(owner, full[i], cands[i].sim) && sim(owner, full[j], cands[j].sim));
                assert(cands[j].sim >= cands[i].sim);
            }
        }
    }
}

/// As many candidates are kept as there are, up to the number asked for.
pub proof fn lemma_top_ids_full(found: Seq<Cand>, k: nat, out: Seq<u32>)
    requires
        top_ids(found, k, out),
    ensures
        out.len() == if k < found.len() {
            k
        } else {
            found.len()
        },
{
    broadcast use vstd::seq_lib::group_to_multiset_ensures;

    let sorted = choose|sorted: Seq<Cand>| #[trigger]
        is_sort_of(found, sorted) && out == Seq::new(
            if k < sorted.len() {
                k
            } else {
                sorted.len()
            },
            |i: int| sorted[i].id,
        );
    assert(sorted.to_multiset().len() == found.to_multiset().len());
}

} // verus!
