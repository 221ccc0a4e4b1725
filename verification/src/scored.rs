//! Scored items: ranking, selection of the best, and merging of partial results.

use vstd::prelude::*;
use vstd::relations::{sorted_by, total_ordering};

use crate::order::{in_order, is_sort_of, merge_sort, Ranked};

verus! {

/// Identifier of an indexed item.
pub type ItemId = i64;

/// An item with its similarity, as an integer order key. Hits rank by descending similarity,
/// then by ascending id.
#[derive(Clone, Copy, Debug, PartialEq, Eq, Structural)]
pub struct Hit {
    pub id: ItemId,
    pub sim: i64,
}

impl Ranked for Hit {
    open spec fn leq(self, other: Self) -> bool {
        self.sim > other.sim || (self.sim == other.sim && self.id <= other.id)
    }

    proof fn leq_total(a: Self, b: Self) {
    }

    proof fn leq_trans(a: Self, b: Self, c: Self) {
    }

    fn no_later(&self, other: &Self) -> (r: bool) {
        self.sim > other.sim || (self.sim == other.sim && self.id <= other.id)
    }
}

/// The order of hits.
pub open spec fn hit_order() -> spec_fn(Hit, Hit) -> bool {
    |a: Hit, b: Hit| a.leq(b)
}

/// The hits of `s`, best first.
pub open spec fn ranked(s: Seq<Hit>) -> Seq<Hit> {
    s.sort_by(hit_order())
}

/// The best `k` hits of `s`, best first: all of them if there are fewer.
pub open spec fn top(s: Seq<Hit>, k: nat) -> Seq<Hit> {
    ranked(s).take(
        if k < ranked(s).len() {
            k as int
        } else {
            ranked(s).len() as int
        },
    )
}

/// The ids of a list of hits.
pub open spec fn hit_ids(s: Seq<Hit>) -> Seq<ItemId> {
    Seq::new(s.len(), |i: int| s[i].id)
}

proof fn lemma_hit_order()
    ensures
        total_ordering(hit_order()),
{
}

/// Ranking is sorting.
pub proof fn lemma_ranked(s: Seq<Hit>)
    ensures
        is_sort_of(s, ranked(s)),
        ranked(s).len() == s.len(),
{
    broadcast use vstd::seq_lib::group_to_multiset_ensures;

    lemma_hit_order();
    s.lemma_sort_by_ensures(hit_order());
    assert forall|i: int, j: int| 0 <= i < j < ranked(s).len() implies (#[trigger] ranked(s)[i]).leq(
        #[trigger] ranked(s)[j],
    ) by {
        assert(hit_order()(ranked(s)[i], ranked(s)[j]));
    }
    assert(s.to_multiset().len() == ranked(s).to_multiset().len());
}

/// There is one way to sort hits.
pub proof fn lemma_ranked_unique(s: Seq<Hit>, t: Seq<Hit>)
    requires
        is_sort_of(s, t),
    ensures
        t == ranked(s),
{
    lemma_hit_order();
    lemma_ranked(s);
    assert(sorted_by(t, hit_order()));
    assert(sorted_by(ranked(s), hit_order()));
    vstd::seq_lib::lemma_sorted_unique(t, ranked(s), hit_order());
}

/// The ranking does not depend on the order in which hits are listed.
pub proof fn ranking_ignores_listing_order(s: Seq<Hit>, t: Seq<Hit>)
    requires
        s.to_multiset() == t.to_multiset(),
    ensures
        ranked(s) == ranked(t),
{
    lemma_ranked(s);
    lemma_ranked_unique(t, ranked(s));
}

/// The hits of `v`, best first.
pub fn rank(v: &Vec<Hit>) -> (out: Vec<Hit>)
    ensures
        out@ == ranked(v@),
{
    let out: Vec<Hit> = merge_sort(v);
    proof {
        lemma_ranked_unique(v@, out@);
    }
    out
}

/// The best `k` hits of `v`, best first.
pub fn top_hits(v: &Vec<Hit>, k: usize) -> (out: Vec<Hit>)
    ensures
        out@ == top(v@, k as nat),
        out.len() == if k < v.len() {
            k
        } else {
            v.len()
        },
{
    let mut out: Vec<Hit> = rank(v);
    proof {
        lemma_ranked(v@);
    }
    if k < out.len() {
        out.truncate(k);
    }
    assert(out@ =~= top(v@, k as nat));
    out
}

/// The ids of the best `k` hits of `v`, best first.
pub fn select_top_k(v: &Vec<Hit>, k: usize) -> (out: Vec<ItemId>)
    ensures
        out@ == hit_ids(top(v@, k as nat)),
{
    let best: Vec<Hit> = top_hits(v, k);
    ids_only(&best)
}

/// The ids of a list of hits.
pub fn ids_only(hits: &Vec<Hit>) -> (out: Vec<ItemId>)
    ensures
        out@ == hit_ids(hits@),
{
    let mut out: Vec<ItemId> = Vec::with_capacity(hits.len());
    let mut i: usize = 0;
    while i < hits.len()
        invariant
            i <= hits.len(),
            out@ == hit_ids(hits@.take(i as int)),
        decreases hits.len() - i,
    {
        out.push(hits[i].id);
        i += 1;
        assert(out@ =~= hit_ids(hits@.take(i as int)));
    }
    assert(hits@.take(i as int) =~= hits@);
    out
}

// ---- Merging ----

/// The first place in the ordered list `s` whose item comes later than `x`, from `i` on.
spec fn place_of(s: Seq<Hit>, x: Hit, i: int) -> int
    decreases s.len() - i,
{
    if i >= s.len() || !s[i].leq(x) {
        i
    } else {
        place_of(s, x, i + 1)
    }
}

proof fn lemma_place(s: Seq<Hit>, x: Hit, i: int)
    requires
        in_order(s),
        0 <= i <= s.len(),
        forall|q: int| 0 <= q < i ==> (#[trigger] s[q]).leq(x),
    ensures
        i <= place_of(s, x, i) <= s.len(),
        forall|q: int| 0 <= q < place_of(s, x, i) ==> (#[trigger] s[q]).leq(x),
        forall|q: int|
            place_of(s, x, i) <= q < s.len() ==> x.leq(#[trigger] s[q]) && !s[q].leq(x),
    decreases s.len() - i,
{
    if i < s.len() && s[i].leq(x) {
        lemma_place(s, x, i + 1);
    } else if i < s.len() {
        assert forall|q: int| i <= q < s.len() implies x.leq(#[trigger] s[q]) && !s[q].leq(x) by {
            if q > i {
                assert(s[i].leq(s[q]));
            }
        }
    }
}

/// Adding a hit puts it in its place.
proof fn lemma_add_hit(m: Seq<Hit>, x: Hit) -> (pos: int)
    ensures
        0 <= pos <= ranked(m).len(),
        ranked(m).len() == m.len(),
        ranked(m.push(x)) == ranked(m).insert(pos, x),
        forall|q: int| 0 <= q < pos ==> (#[trigger] ranked(m)[q]).leq(x),
        forall|q: int|
            pos <= q < ranked(m).len() ==> x.leq(#[trigger] ranked(m)[q]) && !ranked(m)[q].leq(x),
{
    broadcast use vstd::seq_lib::group_to_multiset_ensures;

    lemma_ranked(m);
    let s = ranked(m);
    lemma_place(s, x, 0);
    let pos = place_of(s, x, 0);
    let t = s.insert(pos, x);
    assert forall|i: int, j: int| 0 <= i < j < t.len() implies (#[trigger] t[i]).leq(
        #[trigger] t[j],
    ) by {
        let a = if i < pos {
            i
        } else {
            i - 1
        };
        let b = if j < pos {
            j
        } else {
            j - 1
        };
        if i != pos && j != pos {
            assert(t[i] == s[a] && t[j] == s[b]);
        } else if i == pos {
            assert(t[j] == s[b]);
        } else {
            assert(t[i] == s[a]);
        }
    }
    assert(t.to_multiset() =~= m.push(x).to_multiset());
    lemma_ranked_unique(m.push(x), t);
    pos
}

/// The best `k` hits of `m` all come no later than `r`.
spec fn bounded(m: Seq<Hit>, r: Hit, k: nat) -> bool {
    &&& ranked(m).len() >= k
    &&& forall|i: int| 0 <= i < k ==> (#[trigger] ranked(m)[i]).leq(r)
}

proof fn lemma_bounded_push(m: Seq<Hit>, b: Hit, r: Hit, k: nat)
    requires
        bounded(m, r, k),
    ensures
        bounded(m.push(b), r, k),
{
    let pos = lemma_add_hit(m, b);
    let s = ranked(m);
    let t = ranked(m.push(b));
    assert forall|i: int| 0 <= i < k implies (#[trigger] t[i]).leq(r) by {
        if i < pos {
            assert(t[i] == s[i]);
        } else if i > pos {
            assert(t[i] == s[i - 1]);
        } else {
            assert(s[i].leq(r) && b.leq(s[i]));
        }
    }
}

proof fn lemma_bounded_all(m: Seq<Hit>, bs: Seq<Hit>, r: Hit, k: nat)
    requires
        bounded(m, r, k),
    ensures
        bounded(m + bs, r, k),
    decreases bs.len(),
{
    if bs.len() == 0 {
        assert(m + bs =~= m);
    } else {
        lemma_bounded_all(m, bs.drop_last(), r, k);
        lemma_bounded_push(m + bs.drop_last(), bs.last(), r, k);
        assert((m + bs.drop_last()).push(bs.last()) =~= m + bs);
    }
}

/// Hits that come later than the best `k` change nothing about them.
proof fn lemma_drop_all(m: Seq<Hit>, rs: Seq<Hit>, k: nat)
    requires
        forall|i: int| 0 <= i < rs.len() ==> bounded(m, #[trigger] rs[i], k),
        ranked(m).len() >= k,
    ensures
        ranked(m + rs).len() >= k,
        ranked(m + rs).take(k as int) == ranked(m).take(k as int),
    decreases rs.len(),
{
    if rs.len() == 0 {
        assert(m + rs =~= m);
    } else {
        let front = rs.drop_last();
        let r = rs.last();
        assert forall|i: int| 0 <= i < front.len() implies bounded(m, #[trigger] front[i], k) by {
            assert(front[i] == rs[i]);
        }
        lemma_drop_all(m, front, k);
        let s = ranked(m + front);
        assert(bounded(m, rs[rs.len() - 1], k));
        assert forall|i: int| 0 <= i < k implies (#[trigger] s[i]).leq(r) by {
            assert(s.take(k as int)[i] == ranked(m).take(k as int)[i]);
            assert(ranked(m)[i].leq(r));
        }
        let pos = lemma_add_hit(m + front, r);
        assert((m + front).push(r) =~= m + rs);
        assert(pos >= k) by {
            if pos < k {
                assert(s[pos].leq(r));
            }
        }
        assert(ranked(m + rs).take(k as int) =~= s.take(k as int));
    }
}

/// Keeping only the best `k` of one list does not change the best `k` of two.
proof fn lemma_keep_best(a: Seq<Hit>, b: Seq<Hit>, k: nat)
    ensures
        top(a + b, k) == top(top(a, k) + b, k),
{
    broadcast use vstd::seq_lib::group_to_multiset_ensures;

    lemma_ranked(a);
    let s = top(a, k);
    vstd::seq_lib::lemma_multiset_commutative(a, b);
    vstd::seq_lib::lemma_multiset_commutative(s, b);
    if a.len() <= k {
        assert(s =~= ranked(a));
        ranking_ignores_listing_order(a + b, s + b);
    } else {
        let rest = ranked(a).skip(k as int);
        assert(ranked(a) =~= s + rest);
        let m = s + b;
        assert(s =~= ranked(s)) by {
            assert(in_order(s));
            lemma_ranked_unique(s, s);
        }
        assert forall|i: int| 0 <= i < rest.len() implies bounded(m, #[trigger] rest[i], k) by {
            assert(bounded(s, rest[i], k)) by {
                assert forall|j: int| 0 <= j < k implies (#[trigger] ranked(s)[j]).leq(rest[i]) by {
                    assert(ranked(s)[j] == ranked(a)[j]);
                    assert(rest[i] == ranked(a)[k + i]);
                }
            }
            lemma_bounded_all(s, b, rest[i], k);
        }
        lemma_ranked(m);
        lemma_drop_all(m, rest, k);
        vstd::seq_lib::lemma_multiset_commutative(m, rest);
        vstd::seq_lib::lemma_multiset_commutative(s, rest);
        assert((m + rest).to_multiset() =~= (a + b).to_multiset());
        ranking_ignores_listing_order(m + rest, a + b);
        lemma_ranked(a + b);
        assert(top(a + b, k) =~= ranked(a + b).take(k as int));
        assert(top(m, k) =~= ranked(m).take(k as int));
    }
}

/// All hits of several lists.
pub open spec fn joined(lists: Seq<Seq<Hit>>) -> Seq<Hit>
    decreases lists.len(),
{
    if lists.len() == 0 {
        Seq::empty()
    } else {
        joined(lists.drop_last()) + lists.last()
    }
}

/// The best `k` of each list.
pub open spec fn tops(lists: Seq<Seq<Hit>>, k: nat) -> Seq<Seq<Hit>> {
    Seq::new(lists.len(), |i: int| top(lists[i], k))
}

proof fn lemma_top_swap(a: Seq<Hit>, b: Seq<Hit>, k: nat)
    ensures
        top(a + b, k) == top(b + a, k),
{
    vstd::seq_lib::lemma_multiset_commutative(a, b);
    vstd::seq_lib::lemma_multiset_commutative(b, a);
    assert((a + b).to_multiset() =~= (b + a).to_multiset());
    ranking_ignores_listing_order(a + b, b + a);
}

/// Merging the best `k` of each list gives the best `k` overall: whatever is among the best
/// overall is among the best of its own list.
pub proof fn merging_partial_results_is_exact(lists: Seq<Seq<Hit>>, k: nat)
    ensures
        top(joined(tops(lists, k)), k) == top(joined(lists), k),
    decreases lists.len(),
{
    let best = tops(lists, k);
    if lists.len() == 0 {
        assert(best =~= lists);
    } else {
        let front = lists.drop_last();
        let l = lists.last();
        merging_partial_results_is_exact(front, k);
        assert(best.drop_last() =~= tops(front, k));
        let j = joined(front);
        let jb = joined(tops(front, k));
        lemma_keep_best(j, l, k);
        lemma_keep_best(jb, l, k);
        lemma_top_swap(jb, l, k);
        lemma_keep_best(l, jb, k);
        lemma_top_swap(top(l, k), jb, k);
    }
}

/// A larger `k` only adds hits behind those of a smaller one.
pub proof fn top_grows_at_its_end(s: Seq<Hit>, j: nat, k: nat)
    requires
        j <= k,
    ensures
        top(s, j) == top(top(s, k), j),
{
    lemma_ranked(s);
    let t = top(s, k);
    assert(in_order(t));
    lemma_ranked_unique(t, t);
    assert(top(t, j) =~= top(s, j));
}

// ---- What a selection promises ----

/// The best `k` of a list of hits are hits of the list, in order of similarity and, where that is
/// equal, of id. Whatever was left out ranks no higher than what was taken, and then `k` were.
pub proof fn the_best_hits_are_taken(s: Seq<Hit>, k: nat, x: Hit)
    ensures
        top(s, k).len() == if k < s.len() {
            k
        } else {
            s.len()
        },
        forall|i: int| 0 <= i < top(s, k).len() ==> s.contains(#[trigger] top(s, k)[i]),
        forall|i: int, j: int|
            0 <= i < j < top(s, k).len() ==> (#[trigger] top(s, k)[i]).sim > (
            #[trigger] top(s, k)[j]).sim || (top(s, k)[i].sim == top(s, k)[j].sim && top(s, k)[i].id
                <= top(s, k)[j].id),
        s.contains(x) ==> top(s, k).contains(x) || (top(s, k).len() == k && forall|i: int|
            0 <= i < k ==> (#[trigger] top(s, k)[i]).sim > x.sim || (top(s, k)[i].sim == x.sim
                && top(s, k)[i].id <= x.id)),
        s.no_duplicates() ==> top(s, k).no_duplicates(),
{
    broadcast use vstd::seq_lib::group_to_multiset_ensures;

    lemma_ranked(s);
    let r = ranked(s);
    let t = top(s, k);
    assert forall|y: Hit| #[trigger] r.contains(y) <==> s.contains(y) by {
        assert(r.to_multiset().count(y) == s.to_multiset().count(y));
    }
    assert forall|i: int| 0 <= i < t.len() implies s.contains(#[trigger] t[i]) by {
        assert(r.contains(r[i]));
    }
    assert forall|i: int, j: int| 0 <= i < j < t.len() implies (#[trigger] t[i]).sim > (
    #[trigger] t[j]).sim || (t[i].sim == t[j].sim && t[i].id <= t[j].id) by {
        assert(r[i].leq(r[j]));
    }
    if s.contains(x) {
        assert(r.contains(x));
        let p = choose|p: int| 0 <= p < r.len() && r[p] == x;
        if p < t.len() {
            assert(t[p] == x);
        } else {
            assert forall|i: int| 0 <= i < k implies (#[trigger] t[i]).sim > x.sim || (t[i].sim
                == x.sim && t[i].id <= x.id) by {
                assert(r[i].leq(r[p]));
            }
        }
    }
    if s.no_duplicates() {
        s.lemma_multiset_has_no_duplicates();
        r.lemma_multiset_has_no_duplicates_conv();
    }
}

/// Joined lists hold what any of them holds, in their order.
pub proof fn joined_lists_hold_all_hits(lists: Seq<Seq<Hit>>, x: Hit)
    ensures
        joined(lists).contains(x) <==> exists|i: int|
            0 <= i < lists.len() && (#[trigger] lists[i]).contains(x),
        lists.len() == 0 ==> joined(lists).len() == 0,
        lists.len() > 0 ==> joined(lists) == joined(lists.drop_last()) + lists.last(),
    decreases lists.len(),
{
    if lists.len() > 0 {
        let front = lists.drop_last();
        joined_lists_hold_all_hits(front, x);
        let a = joined(front);
        let b = lists.last();
        let all = joined(lists);
        if all.contains(x) {
            let p = choose|p: int| 0 <= p < all.len() && all[p] == x;
            if p < a.len() {
                assert(a[p] == x);
                let i = choose|i: int| 0 <= i < front.len() && (#[trigger] front[i]).contains(x);
                assert(lists[i].contains(x));
            } else {
                assert(b[p - a.len()] == x);
                assert(lists[lists.len() - 1].contains(x));
            }
        }
        if exists|i: int| 0 <= i < lists.len() && (#[trigger] lists[i]).contains(x) {
            let i = choose|i: int| 0 <= i < lists.len() && (#[trigger] lists[i]).contains(x);
            if i < front.len() {
                assert(front[i].contains(x));
                let p = choose|p: int| 0 <= p < a.len() && a[p] == x;
                assert(all[p] == x);
            } else {
                let p = choose|p: int| 0 <= p < b.len() && b[p] == x;
                assert(all[a.len() + p] == x);
            }
        }
    }
}

} // verus!
