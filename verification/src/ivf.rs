//! Inverted-file index: posting lists, the coarse stage, merging of posting lists, exact
//! reranking, and the counts that recall is made of.

use vstd::prelude::*;
use vstd::string::StringExecFns;

use crate::memory::{saturated, MemoryBreakdown};
use crate::scored::{
    hit_ids, joined, lemma_ranked, merging_partial_results_is_exact,
    ranking_ignores_listing_order, ranked, select_top_k, the_best_hits_are_taken, top, top_hits,
    tops, Hit, ItemId,
};
use crate::sums::{
    count_of_next, count_where, total, total_of_naturals, total_of_nothing, total_of_push,
};
use crate::text::{append_decimal, decimal};

verus! {

/// Which codec scores the posting lists and, for the trellis, how.
#[derive(Clone, Copy, Debug, PartialEq, Eq, Structural)]
pub enum IvfCodec {
    /// The scalar reference codec.
    Baseline,
    /// Residual code.
    Rabitq,
    /// Trellis code with a resident reconstruction cache.
    TrellisRecon,
    /// Trellis code, decoded per candidate.
    TrellisCodes,
    /// Pulse code.
    Pvq,
    /// Trellis code behind a one-bit shortlist of `c` candidates per list. `asym` keeps the
    /// query in full precision, `rnorm` weighs by the residual norm.
    TrellisShortlist { c: usize, asym: bool, rnorm: bool },
}

/// How a trellis backend is set up for an arm of the comparison.
#[derive(Clone, Copy, Debug, PartialEq, Eq, Structural)]
pub struct TrellisSetup {
    pub codes_only: bool,
    pub shortlist: usize,
    pub asym: bool,
    pub rnorm: bool,
}

impl IvfCodec {
    /// The name of a codec.
    pub open spec fn name(self) -> Seq<char> {
        match self {
            IvfCodec::Baseline => "turboquant_baseline"@,
            IvfCodec::Rabitq => "rabitq"@,
            IvfCodec::TrellisRecon => "trellis_recon"@,
            IvfCodec::TrellisCodes => "trellis_codes"@,
            IvfCodec::Pvq => "pvq"@,
            IvfCodec::TrellisShortlist { c, .. } => "trellis_shortlist_c"@ + decimal(c as nat),
        }
    }

    pub fn label(self) -> (r: String)
        ensures
            r@ == self.name(),
    {
        match self {
            IvfCodec::Baseline => "turboquant_baseline".to_owned(),
            IvfCodec::Rabitq => "rabitq".to_owned(),
            IvfCodec::TrellisRecon => "trellis_recon".to_owned(),
            IvfCodec::TrellisCodes => "trellis_codes".to_owned(),
            IvfCodec::Pvq => "pvq".to_owned(),
            IvfCodec::TrellisShortlist { c, .. } => {
                let mut s: String = "trellis_shortlist_c".to_owned();
                append_decimal(&mut s, c as u64);
                s
            },
        }
    }

    /// The storage and scoring regime of a codec.
    pub open spec fn regime_text(self) -> Seq<char> {
        match self {
            IvfCodec::TrellisRecon => "fp32 recon cache (NOT RAM-compressed)"@,
            IvfCodec::TrellisShortlist { .. } => "codes-only + 1-bit shortlist (RAM-compressed)"@,
            _ => "codes-only (RAM-compressed)"@,
        }
    }

    pub fn regime(self) -> (r: &'static str)
        ensures
            r@ == self.regime_text(),
    {
        match self {
            IvfCodec::TrellisRecon => "fp32 recon cache (NOT RAM-compressed)",
            IvfCodec::TrellisShortlist { .. } => "codes-only + 1-bit shortlist (RAM-compressed)",
            _ => "codes-only (RAM-compressed)",
        }
    }

    /// How the trellis backend of this arm is set up; nothing for the other codecs. An
    /// exhaustive arm has no shortlist and scores neither asymmetrically nor without norms.
    pub fn trellis_setup(self) -> (r: Option<TrellisSetup>)
        ensures
            match self {
                IvfCodec::TrellisRecon => r == Some(
                    TrellisSetup { codes_only: false, shortlist: 0, asym: false, rnorm: true },
                ),
                IvfCodec::TrellisCodes => r == Some(
                    TrellisSetup { codes_only: true, shortlist: 0, asym: false, rnorm: true },
                ),
                IvfCodec::TrellisShortlist { c, asym, rnorm } => r == Some(
                    TrellisSetup { codes_only: true, shortlist: c, asym, rnorm },
                ),
                _ => r is None,
            },
    {
        match self {
            IvfCodec::TrellisRecon => Some(
                TrellisSetup { codes_only: false, shortlist: 0, asym: false, rnorm: true },
            ),
            IvfCodec::TrellisCodes => Some(
                TrellisSetup { codes_only: true, shortlist: 0, asym: false, rnorm: true },
            ),
            IvfCodec::TrellisShortlist { c, asym, rnorm } => Some(
                TrellisSetup { codes_only: true, shortlist: c, asym, rnorm },
            ),
            _ => None,
        }
    }
}

// ---- Coarse stage ----

/// The position of the first largest value; zero for an empty list.
pub open spec fn is_first_max(v: Seq<i64>, i: int) -> bool {
    if v.len() == 0 {
        i == 0
    } else {
        &&& 0 <= i < v.len()
        &&& forall|j: int| 0 <= j < v.len() ==> (#[trigger] v[j]) <= v[i]
        &&& forall|j: int| 0 <= j < i ==> (#[trigger] v[j]) < v[i]
    }
}

/// The list that a vector belongs to: the first of its most similar centroids.
pub fn nearest_list(sims: &Vec<i64>) -> (best: usize)
    ensures
        is_first_max(sims@, best as int),
{
    let mut best: usize = 0;
    let mut j: usize = 1;
    while j < sims.len()
        invariant
            1 <= j,
            sims.len() > 0 ==> best < j <= sims.len(),
            sims.len() == 0 ==> best == 0,
            sims.len() > 0 ==> forall|q: int| 0 <= q < j ==> (#[trigger] sims@[q]) <= sims@[best as int],
            sims.len() > 0 ==> forall|q: int| 0 <= q < best ==> (#[trigger] sims@[q]) < sims@[best as int],
        decreases sims.len() - j,
    {
        if sims[j] > sims[best] {
            best = j;
        }
        j += 1;
    }
    best
}

/// The items among the first `k` that are assigned to list `c`, in ascending order.
pub open spec fn bucket(assign: Seq<u32>, c: int, k: int) -> Seq<ItemId>
    decreases k,
{
    if k <= 0 {
        Seq::empty()
    } else if assign[k - 1] == c {
        bucket(assign, c, k - 1).push((k - 1) as ItemId)
    } else {
        bucket(assign, c, k - 1)
    }
}

/// A list holds exactly the items that are assigned to it.
pub proof fn a_list_holds_what_is_assigned_to_it(assign: Seq<u32>, c: int, k: int, i: int)
    requires
        0 <= k <= assign.len() <= i64::MAX,
        0 <= i < k,
    ensures
        bucket(assign, c, k).contains(i as ItemId) <==> assign[i] == c,
        bucket(assign, c, k).no_duplicates(),
    decreases k,
{
    lemma_bucket_below(assign, c, k);
    if i < k - 1 {
        a_list_holds_what_is_assigned_to_it(assign, c, k - 1, i);
        let before = bucket(assign, c, k - 1);
        let after = bucket(assign, c, k);
        if assign[k - 1] == c && before.contains(i as ItemId) {
            let q = choose|q: int| 0 <= q < before.len() && before[q] == i as ItemId;
            assert(after[q] == i as ItemId);
        }
        if after.contains(i as ItemId) {
            let q = choose|q: int| 0 <= q < after.len() && after[q] == i as ItemId;
            if q < before.len() {
                assert(before[q] == i as ItemId);
            }
        }
    } else {
        let after = bucket(assign, c, k);
        if assign[i] == c {
            assert(after.last() == i as ItemId);
            assert(after[after.len() - 1] == i as ItemId);
        }
        lemma_bucket_below(assign, c, k - 1);
    }
}

proof fn lemma_bucket_below(assign: Seq<u32>, c: int, k: int)
    requires
        0 <= k <= assign.len() <= i64::MAX,
    ensures
        bucket(assign, c, k).len() <= k,
        forall|q: int| 0 <= q < bucket(assign, c, k).len() ==> 0 <= (#[trigger] bucket(assign, c, k)[q]) < k,
        bucket(assign, c, k).no_duplicates(),
    decreases k,
{
    if k > 0 {
        lemma_bucket_below(assign, c, k - 1);
    }
}

/// An inverted-file index: for each coarse centroid the ids of its posting list.
pub struct IvfIndex {
    lists: Vec<Vec<ItemId>>,
}

/// The hits that `lists` were searched for, one list of hits for each.
pub open spec fn list_views(found: Seq<Vec<Hit>>) -> Seq<Seq<Hit>> {
    Seq::new(found.len(), |i: int| found[i]@)
}

/// A list of similarities as hits; an item's id is its place.
pub open spec fn hits_of(sims: Seq<i64>) -> Seq<Hit> {
    Seq::new(sims.len(), |i: int| Hit { id: i as ItemId, sim: sims[i] })
}

/// A list of similarities as hits.
pub fn as_hits(sims: &Vec<i64>) -> (hits: Vec<Hit>)
    ensures
        hits@ == hits_of(sims@),
{
    let mut hits: Vec<Hit> = Vec::with_capacity(sims.len());
    let mut i: usize = 0;
    while i < sims.len()
        invariant
            i <= sims.len(),
            hits.len() == i,
            forall|j: int| 0 <= j < i ==> #[trigger] hits@[j] == hits_of(sims@)[j],
        decreases sims.len() - i,
    {
        hits.push(Hit { id: i as ItemId, sim: sims[i] });
        i += 1;
    }
    assert(hits@ =~= hits_of(sims@));
    hits
}

/// The ids of the `k` most similar items, best first: the ground truth of a query.
pub fn exact_topk(sims: &Vec<i64>, k: usize) -> (ids: Vec<ItemId>)
    ensures
        ids@ == hit_ids(top(hits_of(sims@), k as nat)),
{
    select_top_k(&as_hits(sims), k)
}

/// The results of scanning the probed lists, each with the same depth.
pub open spec fn scanned<F: Fn(usize, usize) -> Vec<Hit>>(
    scan: F,
    probed: Seq<ItemId>,
    depth: usize,
    found: Seq<Vec<Hit>>,
) -> bool {
    &&& found.len() == probed.len()
    &&& forall|i: int|
        0 <= i < probed.len() ==> scan.ensures((probed[i] as usize, depth), #[trigger] found[i])
}

/// `cand` rescored.
pub open spec fn rescored<G: Fn(ItemId) -> i64>(
    exact: G,
    cand: Seq<Hit>,
    out: Seq<Hit>,
) -> bool {
    &&& out.len() == cand.len()
    &&& forall|i: int|
        0 <= i < cand.len() ==> (#[trigger] out[i]).id == cand[i].id && exact.ensures(
            (cand[i].id,),
            out[i].sim,
        )
}

impl IvfIndex {
    /// The posting lists.
    pub closed spec fn lists(&self) -> Seq<Vec<ItemId>> {
        self.lists@
    }

    /// Files every item under the list that it is assigned to.
    pub fn build(nlist: usize, assign: &Vec<u32>) -> (index: Self)
        requires
            forall|i: int| 0 <= i < assign.len() ==> (#[trigger] assign@[i]) < nlist,
            assign.len() <= i64::MAX,
        ensures
            index.lists().len() == nlist,
            forall|c: int|
                0 <= c < nlist ==> (#[trigger] index.lists()[c])@ == bucket(
                    assign@,
                    c,
                    assign@.len() as int,
                ),
    {
        let mut lists: Vec<Vec<ItemId>> = Vec::with_capacity(nlist);
        let mut c: usize = 0;
        while c < nlist
            invariant
                c <= nlist,
                lists.len() == c,
                forall|q: int| 0 <= q < c ==> (#[trigger] lists@[q])@ == bucket(assign@, q, 0),
            decreases nlist - c,
        {
            lists.push(Vec::new());
            assert(lists@[c as int]@ =~= bucket(assign@, c as int, 0));
            c += 1;
        }
        let mut i: usize = 0;
        while i < assign.len()
            invariant
                i <= assign.len() <= i64::MAX,
                lists.len() == nlist,
                forall|q: int| 0 <= q < assign.len() ==> (#[trigger] assign@[q]) < nlist,
                forall|q: int|
                    0 <= q < nlist ==> (#[trigger] lists@[q])@ == bucket(assign@, q, i as int),
            decreases assign.len() - i,
        {
            let at: usize = assign[i] as usize;
            let ghost before = lists@;
            assert(assign@[i as int] < nlist);
            lists[at].push(i as ItemId);
            proof {
                assert forall|q: int| 0 <= q < nlist implies (#[trigger] lists@[q])@ == bucket(
                    assign@,
                    q,
                    i + 1,
                ) by {
                    assert(before[q]@ == bucket(assign@, q, i as int));
                    if q != at {
                        assert(lists@[q] == before[q]);
                    }
                }
            }
            i += 1;
        }
        IvfIndex { lists }
    }

    /// How many lists there are.
    pub fn nlist(&self) -> (n: usize)
        ensures
            n == self.lists().len(),
    {
        self.lists.len()
    }

    /// The ids of one posting list.
    pub fn list(&self, c: usize) -> (ids: &Vec<ItemId>)
        requires
            c < self.lists().len(),
        ensures
            ids == self.lists()[c as int],
    {
        &self.lists[c]
    }

    /// The `nprobe` lists whose centroids are most similar to the query, best first.
    pub fn probe(&self, centroid_sims: &Vec<i64>, nprobe: usize) -> (lists: Vec<ItemId>)
        requires
            centroid_sims.len() == self.lists().len() <= i64::MAX,
        ensures
            lists@ == hit_ids(top(hits_of(centroid_sims@), nprobe as nat)),
            forall|i: int|
                0 <= i < lists.len() ==> 0 <= (#[trigger] lists@[i]) < self.lists().len(),
    {
        let hits: Vec<Hit> = as_hits(centroid_sims);
        let lists: Vec<ItemId> = select_top_k(&hits, nprobe);
        proof {
            lemma_ranked(hits@);
            assert forall|i: int| 0 <= i < lists.len() implies 0 <= (#[trigger] lists@[i])
                < self.lists().len() by {
                let h = top(hits@, nprobe as nat)[i];
                assert(h == ranked(hits@)[i]);
                broadcast use vstd::seq_lib::group_to_multiset_ensures;

                assert(ranked(hits@).to_multiset().count(h) > 0);
                assert(hits@.contains(h));
                let j = choose|j: int| 0 <= j < hits@.len() && hits@[j] == h;
                assert(hits@[j].id == j);
            }
        }
        lists
    }

    /// All hits that the probed lists give, each scanned to `depth`.
    fn gather<F: Fn(usize, usize) -> Vec<Hit>>(
        &self,
        lists: &Vec<ItemId>,
        depth: usize,
        scan: &F,
    ) -> (merged: Vec<Hit>)
        requires
            forall|i: int|
                0 <= i < lists.len() ==> 0 <= (#[trigger] lists@[i]) < self.lists().len(),
            forall|j: usize| j < self.lists().len() ==> #[trigger] scan.requires((j, depth)),
        ensures
            exists|found: Seq<Vec<Hit>>| #[trigger]
                scanned(*scan, lists@, depth, found) && merged@ == joined(list_views(found)),
    {
        let mut merged: Vec<Hit> = Vec::new();
        let ghost mut found: Seq<Vec<Hit>> = Seq::empty();
        let mut i: usize = 0;
        proof {
            assert(list_views(found) =~= Seq::empty());
        }
        while i < lists.len()
            invariant
                i <= lists.len(),
                forall|q: int|
                    0 <= q < lists.len() ==> 0 <= (#[trigger] lists@[q]) < self.lists@.len(),
                forall|j: usize| j < self.lists@.len() ==> #[trigger] scan.requires((j, depth)),
                found.len() == i,
                forall|q: int|
                    0 <= q < i ==> scan.ensures(
                        (lists@[q] as usize, depth),
                        #[trigger] found[q],
                    ),
                merged@ == joined(list_views(found)),
            decreases lists.len() - i,
        {
            assert(0 <= lists@[i as int] < self.lists@.len());
            let j: usize = lists[i] as usize;
            let mut hits: Vec<Hit> = scan(j, depth);
            proof {
                let before = list_views(found);
                found = found.push(hits);
                assert(list_views(found).drop_last() =~= before);
                assert(list_views(found).last() == hits@);
            }
            merged.append(&mut hits);
            i += 1;
        }
        assert(scanned(*scan, lists@, depth, found));
        merged
    }

    /// The best `k` hits of the `nprobe` nearest lists. `scan(j, k)` gives the best `k` hits
    /// of list `j`.
    pub fn search<F: Fn(usize, usize) -> Vec<Hit>>(
        &self,
        centroid_sims: &Vec<i64>,
        k: usize,
        nprobe: usize,
        scan: &F,
    ) -> (hits: Vec<Hit>)
        requires
            centroid_sims.len() == self.lists().len() <= i64::MAX,
            forall|j: usize| j < self.lists().len() ==> #[trigger] scan.requires((j, k)),
        ensures
            exists|found: Seq<Vec<Hit>>| #[trigger]
                scanned(
                    *scan,
                    hit_ids(top(hits_of(centroid_sims@), nprobe as nat)),
                    k,
                    found,
                ) && hits@ == top(joined(list_views(found)), k as nat),
    {
        let lists: Vec<ItemId> = self.probe(centroid_sims, nprobe);
        let merged: Vec<Hit> = self.gather(&lists, k, scan);
        top_hits(&merged, k)
    }

    /// The best `k` of the `max(rdepth, k)` best hits of the `nprobe` nearest lists, after
    /// these were rescored exactly.
    pub fn search_with_rerank<F: Fn(usize, usize) -> Vec<Hit>, G: Fn(ItemId) -> i64>(
        &self,
        centroid_sims: &Vec<i64>,
        k: usize,
        nprobe: usize,
        rdepth: usize,
        scan: &F,
        exact: &G,
    ) -> (hits: Vec<Hit>)
        requires
            centroid_sims.len() == self.lists().len() <= i64::MAX,
            forall|j: usize|
                j < self.lists().len() ==> #[trigger] scan.requires((j, rerank_depth(rdepth, k))),
            forall|id: ItemId| #[trigger] exact.requires((id,)),
        ensures
            exists|found: Seq<Vec<Hit>>, out: Seq<Hit>|
                {
                    &&& #[trigger] scanned(
                        *scan,
                        hit_ids(top(hits_of(centroid_sims@), nprobe as nat)),
                        rerank_depth(rdepth, k),
                        found,
                    )
                    &&& #[trigger] rescored(
                        *exact,
                        top(joined(list_views(found)), rerank_depth(rdepth, k) as nat),
                        out,
                    )
                    &&& hits@ == top(out, k as nat)
                },
    {
        let r: usize = if rdepth > k {
            rdepth
        } else {
            k
        };
        assert(r == rerank_depth(rdepth, k));
        let lists: Vec<ItemId> = self.probe(centroid_sims, nprobe);
        assert(forall|j: usize| j < self.lists().len() ==> #[trigger] scan.requires((j, r)));
        let merged: Vec<Hit> = self.gather(&lists, r, scan);
        let cand: Vec<Hit> = top_hits(&merged, r);
        let mut out: Vec<Hit> = Vec::with_capacity(cand.len());
        let mut i: usize = 0;
        while i < cand.len()
            invariant
                i <= cand.len(),
                out.len() == i,
                forall|id: ItemId| #[trigger] exact.requires((id,)),
                forall|q: int|
                    0 <= q < i ==> (#[trigger] out@[q]).id == cand@[q].id && exact.ensures(
                        (cand@[q].id,),
                        out@[q].sim,
                    ),
            decreases cand.len() - i,
        {
            let id: ItemId = cand[i].id;
            out.push(Hit { id, sim: exact(id) });
            i += 1;
        }
        proof {
            let found = choose|found: Seq<Vec<Hit>>| #[trigger]
                scanned(*scan, lists@, r, found) && merged@ == joined(list_views(found));
            assert(rescored(*exact, top(joined(list_views(found)), r as nat), out@));
        }
        top_hits(&out, k)
    }

    /// A search at a rerank depth: depth zero is a plain search, any other one reranks.
    pub fn search_at_depth<F: Fn(usize, usize) -> Vec<Hit>, G: Fn(ItemId) -> i64>(
        &self,
        centroid_sims: &Vec<i64>,
        k: usize,
        nprobe: usize,
        rdepth: usize,
        scan: &F,
        exact: &G,
    ) -> (hits: Vec<Hit>)
        requires
            centroid_sims.len() == self.lists().len() <= i64::MAX,
            forall|j: usize|
                j < self.lists().len() ==> #[trigger] scan.requires((j, rerank_depth(rdepth, k))),
            rdepth > 0 ==> forall|id: ItemId| #[trigger] exact.requires((id,)),
        ensures
            rdepth == 0 ==> exists|found: Seq<Vec<Hit>>| #[trigger]
                scanned(
                    *scan,
                    hit_ids(top(hits_of(centroid_sims@), nprobe as nat)),
                    k,
                    found,
                ) && hits@ == top(joined(list_views(found)), k as nat),
            rdepth > 0 ==> exists|found: Seq<Vec<Hit>>, out: Seq<Hit>|
                {
                    &&& #[trigger] scanned(
                        *scan,
                        hit_ids(top(hits_of(centroid_sims@), nprobe as nat)),
                        rerank_depth(rdepth, k),
                        found,
                    )
                    &&& #[trigger] rescored(
                        *exact,
                        top(joined(list_views(found)), rerank_depth(rdepth, k) as nat),
                        out,
                    )
                    &&& hits@ == top(out, k as nat)
                },
    {
        if rdepth == 0 {
            assert(forall|j: usize|
                j < self.lists().len() ==> scan.requires((j, rerank_depth(rdepth, k))) && #[trigger] scan.requires((j, k)));
            self.search(centroid_sims, k, nprobe, scan)
        } else {
            self.search_with_rerank(centroid_sims, k, nprobe, rdepth, scan, exact)
        }
    }

    /// The memory ledger of the index: what the coarse stage takes, and the ledgers of the
    /// posting lists added to it column by column.
    pub fn memory_breakdown(
        &self,
        coarse: MemoryBreakdown,
        posts: &Vec<MemoryBreakdown>,
    ) -> (r: MemoryBreakdown)
        ensures
            r == absorbed(coarse, posts@, posts@.len() as int),
    {
        let mut r: MemoryBreakdown = coarse;
        let mut i: usize = 0;
        while i < posts.len()
            invariant
                i <= posts.len(),
                r == absorbed(coarse, posts@, i as int),
            decreases posts.len() - i,
        {
            r = r.absorb(posts[i]);
            i += 1;
        }
        r
    }

    /// The code bytes of all posting lists.
    pub fn mem_bytes(&self, posts: &Vec<usize>) -> (r: usize)
        requires
            total_of(posts@, posts@.len() as int) <= usize::MAX,
        ensures
            r == total_of(posts@, posts@.len() as int),
    {
        let mut r: usize = 0;
        let mut i: usize = 0;
        while i < posts.len()
            invariant
                i <= posts.len(),
                r == total_of(posts@, i as int),
                total_of(posts@, posts@.len() as int) <= usize::MAX,
            decreases posts.len() - i,
        {
            proof {
                lemma_total_grows(posts@, i + 1, posts@.len() as int);
            }
            r = r + posts[i];
            i += 1;
        }
        r
    }
}

/// How many candidates are reranked.
pub open spec fn rerank_depth(rdepth: usize, k: usize) -> usize {
    if rdepth > k {
        rdepth
    } else {
        k
    }
}

/// The first `k` ledgers added to `base`, column by column, saturating.
pub open spec fn absorbed(
    base: MemoryBreakdown,
    posts: Seq<MemoryBreakdown>,
    k: int,
) -> MemoryBreakdown
    decreases k,
{
    if k <= 0 {
        base
    } else {
        let r = absorbed(base, posts, k - 1);
        let p = posts[k - 1];
        MemoryBreakdown {
            code_bytes: saturated(r.code_bytes + p.code_bytes) as usize,
            model_bytes: saturated(r.model_bytes + p.model_bytes) as usize,
            index_bytes: saturated(r.index_bytes + p.index_bytes) as usize,
            cache_bytes: saturated(r.cache_bytes + p.cache_bytes) as usize,
        }
    }
}

/// The sum of the first `k` numbers.
pub open spec fn total_of(v: Seq<usize>, k: int) -> int
    decreases k,
{
    if k <= 0 {
        0
    } else {
        total_of(v, k - 1) + v[k - 1]
    }
}

pub(crate) proof fn lemma_total_grows(v: Seq<usize>, j: int, k: int)
    requires
        0 <= j <= k <= v.len(),
    ensures
        0 <= total_of(v, j) <= total_of(v, k),
    decreases k,
{
    if j < k {
        lemma_total_grows(v, j, k - 1);
    } else if k > 0 {
        lemma_total_grows(v, j - 1, k - 1);
    }
}

/// Merging what every list holds finds what a flat scan finds: if the lists together hold the
/// hits of the flat scan, and each list hands on its best `k`, the best `k` of the merge are
/// the best `k` of the scan.
pub proof fn full_probe_recovers_the_flat_scan(
    lists: Seq<Seq<Hit>>,
    flat: Seq<Hit>,
    k: nat,
)
    requires
        joined(lists).to_multiset() == flat.to_multiset(),
    ensures
        top(joined(tops(lists, k)), k) == top(flat, k),
{
    merging_partial_results_is_exact(lists, k);
    ranking_ignores_listing_order(joined(lists), flat);
}

// ---- Sizes ----

/// How many of the first `k` items are assigned to list `c`.
pub open spec fn size_of_list(assign: Seq<u32>, c: int, k: int) -> nat {
    bucket(assign, c, k).len()
}

/// The sizes of the posting lists.
pub fn list_sizes(nlist: usize, assign: &Vec<u32>) -> (sizes: Vec<usize>)
    requires
        forall|i: int| 0 <= i < assign.len() ==> (#[trigger] assign@[i]) < nlist,
        assign.len() <= i64::MAX,
    ensures
        sizes.len() == nlist,
        forall|c: int|
            0 <= c < nlist ==> #[trigger] sizes@[c] == size_of_list(
                assign@,
                c,
                assign@.len() as int,
            ),
{
    let mut sizes: Vec<usize> = vec![0usize; nlist];
    let mut i: usize = 0;
    while i < assign.len()
        invariant
            i <= assign.len() <= i64::MAX,
            sizes.len() == nlist,
            forall|q: int| 0 <= q < assign.len() ==> (#[trigger] assign@[q]) < nlist,
            forall|c: int|
                0 <= c < nlist ==> #[trigger] sizes@[c] == size_of_list(assign@, c, i as int),
        decreases assign.len() - i,
    {
        let at: usize = assign[i] as usize;
        assert(assign@[i as int] < nlist);
        let ghost before = sizes@;
        proof {
            lemma_bucket_below(assign@, at as int, i as int);
        }
        sizes[at] = sizes[at] + 1;
        proof {
            assert forall|c: int| 0 <= c < nlist implies #[trigger] sizes@[c] == size_of_list(
                assign@,
                c,
                i + 1,
            ) by {
                assert(before[c] == size_of_list(assign@, c, i as int));
            }
        }
        i += 1;
    }
    sizes
}

/// How many of the first `k` sizes are not zero.
pub open spec fn nonzero(sizes: Seq<usize>, k: int) -> nat
    decreases k,
{
    if k <= 0 {
        0
    } else if sizes[k - 1] > 0 {
        nonzero(sizes, k - 1) + 1
    } else {
        nonzero(sizes, k - 1)
    }
}

/// How many lists hold something, and the size of the largest; zero without lists.
pub fn list_health(sizes: &Vec<usize>) -> (r: (usize, usize))
    ensures
        r.0 == nonzero(sizes@, sizes@.len() as int),
        forall|c: int| 0 <= c < sizes.len() ==> (#[trigger] sizes@[c]) <= r.1,
        sizes.len() > 0 ==> sizes@.contains(r.1),
        sizes.len() == 0 ==> r.1 == 0,
{
    let mut some: usize = 0;
    let mut most: usize = 0;
    let mut c: usize = 0;
    while c < sizes.len()
        invariant
            c <= sizes.len(),
            some == nonzero(sizes@, c as int),
            some <= c,
            forall|q: int| 0 <= q < c ==> (#[trigger] sizes@[q]) <= most,
            c > 0 ==> exists|q: int| 0 <= q < c && #[trigger] sizes@[q] == most,
            c == 0 ==> most == 0,
        decreases sizes.len() - c,
    {
        let s: usize = sizes[c];
        let ghost before = most;
        if s > 0 {
            some += 1;
        }
        if s > most {
            most = s;
        }
        proof {
            if most == s {
                assert(sizes@[c as int] == most);
            } else {
                let q = choose|q: int| 0 <= q < c && #[trigger] sizes@[q] == before;
                assert(sizes@[q] == most);
            }
        }
        c += 1;
    }
    (some, most)
}

/// The whole bytes per vector; none where there are no vectors.
pub open spec fn share(bytes: nat, n: nat) -> nat {
    if n == 0 {
        0
    } else {
        bytes / n
    }
}

/// A total split over `n` vectors; zero without vectors.
pub fn per_vector(bytes: usize, n: usize) -> (r: usize)
    ensures
        r == share(bytes as nat, n as nat),
{
    if n == 0 {
        0
    } else {
        bytes / n
    }
}

/// What a vector keeps resident when exact vectors of dimension `dim` are at hand for
/// reranking; without reranking they are not needed.
pub fn resident_with_rerank(per_vec: usize, dim: usize, rdepth: usize) -> (r: usize)
    requires
        rdepth > 0 ==> per_vec + 4 * dim <= usize::MAX,
    ensures
        r == per_vec + if rdepth == 0 {
            0
        } else {
            4 * dim as int
        },
{
    if rdepth == 0 {
        per_vec
    } else {
        per_vec + dim * 4
    }
}

// ---- Recall ----

/// The first `k` of a list: all of it if it is shorter.
pub open spec fn first_of(s: Seq<ItemId>, k: nat) -> Seq<ItemId> {
    s.take(
        if k < s.len() {
            k as int
        } else {
            s.len() as int
        },
    )
}

/// How many of the first `n` entries of `got` occur in `gold`.
pub open spec fn hits_among(gold: Seq<ItemId>, got: Seq<ItemId>, n: int) -> nat
    decreases n,
{
    if n <= 0 {
        0
    } else if gold.contains(got[n - 1]) {
        hits_among(gold, got, n - 1) + 1
    } else {
        hits_among(gold, got, n - 1)
    }
}

/// How many of the first `k` results are among the first `k` of the gold list, counted by
/// place.
pub open spec fn recalled(gold: Seq<ItemId>, got: Seq<ItemId>, k: nat) -> nat {
    hits_among(first_of(gold, k), got, first_of(got, k).len() as int)
}

/// How many different items the first `k` of the gold list hold.
pub open spec fn relevant(gold: Seq<ItemId>, k: nat) -> nat {
    first_of(gold, k).to_set().len()
}

/// Whether one of the first `n` entries of `s` is `id`.
pub fn occurs(s: &Vec<ItemId>, n: usize, id: ItemId) -> (r: bool)
    requires
        n <= s.len(),
    ensures
        r == s@.take(n as int).contains(id),
{
    let mut i: usize = 0;
    while i < n
        invariant
            i <= n <= s.len(),
            forall|j: int| 0 <= j < i ==> s@[j] != id,
        decreases n - i,
    {
        if s[i] == id {
            assert(s@.take(n as int)[i as int] == id);
            return true;
        }
        i += 1;
    }
    false
}

/// How many different items the first `k` entries of `s` hold.
pub fn distinct(s: &Vec<ItemId>, k: usize) -> (n: usize)
    ensures
        n == first_of(s@, k as nat).to_set().len(),
        n <= s.len(),
        n <= k,
{
    let end: usize = if k < s.len() {
        k
    } else {
        s.len()
    };
    let mut n: usize = 0;
    let mut i: usize = 0;
    proof {
        assert(s@.take(0).to_set() =~= Set::empty());
    }
    while i < end
        invariant
            i <= end <= s.len(),
            n <= i,
            n == s@.take(i as int).to_set().len(),
            s@.take(i as int).to_set().finite(),
        decreases end - i,
    {
        let x: ItemId = s[i];
        proof {
            let a = s@.take(i as int);
            let b = s@.take(i + 1);
            assert(b =~= a.push(x));
            assert(b.to_set() =~= a.to_set().insert(x)) by {
                assert forall|y: ItemId| b.to_set().contains(y) <==> a.to_set().insert(
                    x,
                ).contains(y) by {
                    if a.contains(y) {
                        let q = choose|q: int| 0 <= q < a.len() && a[q] == y;
                        assert(b[q] == y);
                    }
                    if y == x {
                        assert(b[i as int] == y);
                    }
                    if b.contains(y) && y != x {
                        let q = choose|q: int| 0 <= q < b.len() && b[q] == y;
                        assert(a[q] == y);
                    }
                }
            }
        }
        if !occurs(s, i, x) {
            n += 1;
        }
        i += 1;
    }
    n
}

/// For one query: how many results were relevant, and how many were to be found.
pub fn recall_counts(gold: &Vec<ItemId>, got: &Vec<ItemId>, k: usize) -> (r: (usize, usize))
    ensures
        r.0 == recalled(gold@, got@, k as nat),
        r.1 == relevant(gold@, k as nat),
        r.0 <= got.len(),
        r.1 <= gold.len(),
{
    let end: usize = if k < got.len() {
        k
    } else {
        got.len()
    };
    let deep: usize = if k < gold.len() {
        k
    } else {
        gold.len()
    };
    let mut hit: usize = 0;
    let mut i: usize = 0;
    while i < end
        invariant
            i <= end <= got.len(),
            deep <= gold.len(),
            hit <= i,
            hit == hits_among(gold@.take(deep as int), got@, i as int),
        decreases end - i,
    {
        if occurs(gold, deep, got[i]) {
            hit += 1;
        }
        i += 1;
    }
    (hit, distinct(gold, k))
}

/// Recall over the first `n` queries: results that were relevant, and items to be found.
pub open spec fn recall_upto(
    gold: Seq<Vec<ItemId>>,
    got: Seq<Vec<ItemId>>,
    k: nat,
    n: int,
) -> (int, int)
    decreases n,
{
    if n <= 0 {
        (0, 0)
    } else {
        let (h, t) = recall_upto(gold, got, k, n - 1);
        (
            h + recalled(gold[n - 1]@, got[n - 1]@, k),
            t + relevant(gold[n - 1]@, k),
        )
    }
}

/// Recall at `k` over all queries that have both a gold list and results: how many results were
/// relevant, and how many items were to be found.
pub fn recall_at(gold: &Vec<Vec<ItemId>>, got: &Vec<Vec<ItemId>>, k: usize) -> (r: (u128, u128))
    ensures
        ({
            let n = if gold.len() < got.len() {
                gold.len() as int
            } else {
                got.len() as int
            };
            (r.0 as int, r.1 as int) == recall_upto(gold@, got@, k as nat, n)
        }),
{
    let n: usize = if gold.len() < got.len() {
        gold.len()
    } else {
        got.len()
    };
    let mut hit: u128 = 0;
    let mut total: u128 = 0;
    let mut i: usize = 0;
    while i < n
        invariant
            i <= n,
            n <= gold.len(),
            n <= got.len(),
            (hit as int, total as int) == recall_upto(gold@, got@, k as nat, i as int),
            hit <= i * 0xffff_ffff_ffff_ffff,
            total <= i * 0xffff_ffff_ffff_ffff,
        decreases n - i,
    {
        let (h, t): (usize, usize) = recall_counts(&gold[i], &got[i], k);
        assert(i * 0xffff_ffff_ffff_ffff <= 0xffff_ffff_ffff_ffff * 0xffff_ffff_ffff_ffff)
            by (nonlinear_arith)
            requires
                0 <= i <= 0xffff_ffff_ffff_ffff,
        ;
        hit = hit + h as u128;
        total = total + t as u128;
        i += 1;
    }
    (hit, total)
}

proof fn lemma_recall_bounded(gold: Seq<Vec<ItemId>>, got: Seq<Vec<ItemId>>, k: nat, n: int)
    requires
        0 <= n <= gold.len(),
        n <= got.len(),
    ensures
        0 <= recall_upto(gold, got, k, n).0 <= k * n,
        0 <= recall_upto(gold, got, k, n).1 <= k * n,
        recall_upto(gold, got, k, n).0 <= k * recall_upto(gold, got, k, n).1,
    decreases n,
{
    if n > 0 {
        lemma_recall_bounded(gold, got, k, n - 1);
        let first = first_of(gold[n - 1]@, k);
        let t = recall_upto(gold, got, k, n - 1).1;
        let more = relevant(gold[n - 1]@, k);
        if first.len() > 0 {
            assert(first.to_set().contains(first[0]));
            if more == 0 {
                assert(first.to_set() =~= Set::empty());
            }
        } else {
            lemma_no_hits(first, got[n - 1]@, first_of(got[n - 1]@, k).len() as int);
        }
        assert(k * (t + more) == k * t + k * more) by (nonlinear_arith);
        assert(more > 0 ==> k * more >= k) by (nonlinear_arith);
        lemma_hits_bounded(
            first_of(gold[n - 1]@, k),
            got[n - 1]@,
            first_of(got[n - 1]@, k).len() as int,
        );
        first_of(gold[n - 1]@, k).lemma_cardinality_of_set();
        assert(k * n == k * (n - 1) + k) by (nonlinear_arith);
    } else {
        assert(k * n == 0) by (nonlinear_arith)
            requires
                n == 0,
        ;
    }
}

proof fn lemma_no_hits(gold: Seq<ItemId>, got: Seq<ItemId>, n: int)
    requires
        gold.len() == 0,
    ensures
        hits_among(gold, got, n) == 0,
    decreases n,
{
    if n > 0 {
        lemma_no_hits(gold, got, n - 1);
    }
}

proof fn lemma_hits_bounded(gold: Seq<ItemId>, got: Seq<ItemId>, n: int)
    requires
        0 <= n,
    ensures
        hits_among(gold, got, n) <= n,
    decreases n,
{
    if n > 0 {
        lemma_hits_bounded(gold, got, n - 1);
    }
}

/// Recall at ten over all queries that have both a gold list and results.
pub open spec fn recall_at_ten(gold: Seq<Vec<ItemId>>, got: Seq<Vec<ItemId>>) -> (int, int) {
    recall_upto(
        gold,
        got,
        10,
        if gold.len() < got.len() {
            gold.len() as int
        } else {
            got.len() as int
        },
    )
}

/// Recall at ten over no more queries than 32 bits count.
pub fn recall_ten(gold: &Vec<Vec<ItemId>>, got: &Vec<Vec<ItemId>>) -> (r: (u64, u64))
    requires
        gold.len() <= u32::MAX,
    ensures
        (r.0 as int, r.1 as int) == recall_at_ten(gold@, got@),
        r.0 <= 10 * r.1,
{
    let (hits, total): (u128, u128) = recall_at(gold, got, 10);
    proof {
        lemma_recall_bounded(
            gold@,
            got@,
            10,
            if gold.len() < got.len() {
                gold.len() as int
            } else {
                got.len() as int
            },
        );
    }
    (hits as u64, total as u64)
}

// ---- What the index promises ----

/// The ids of the `k` most similar of a list of similarities: different places of the list, most
/// similar first and lower places first where equal. A place that is left out is no more similar
/// than any that is named, and then `k` are named.
pub proof fn the_most_similar_are_named(sims: Seq<i64>, k: nat, x: int)
    requires
        sims.len() <= i64::MAX,
        0 <= x < sims.len(),
    ensures
        ({
            let ids = hit_ids(top(hits_of(sims), k));
            &&& ids.len() == if k < sims.len() {
                k
            } else {
                sims.len()
            }
            &&& forall|i: int| 0 <= i < ids.len() ==> 0 <= (#[trigger] ids[i]) < sims.len()
            &&& forall|i: int, j: int|
                0 <= i < j < ids.len() ==> sims[(#[trigger] ids[i]) as int] > sims[(
                #[trigger] ids[j]) as int] || (sims[ids[i] as int] == sims[ids[j] as int] && ids[i]
                    < ids[j])
            &&& ids.contains(x as ItemId) || ids.len() == k && forall|i: int|
                0 <= i < ids.len() ==> sims[x] <= sims[(#[trigger] ids[i]) as int]
        }),
{
    let s = hits_of(sims);
    let t = top(s, k);
    let ids = hit_ids(t);
    assert(s.no_duplicates()) by {
        assert forall|i: int, j: int| 0 <= i < s.len() && 0 <= j < s.len() && i != j implies s[i]
            != s[j] by {
            assert(s[i].id == i && s[j].id == j);
        }
    }
    the_best_hits_are_taken(s, k, s[x]);
    assert(s.contains(s[x]));
    assert forall|i: int| 0 <= i < ids.len() implies 0 <= (#[trigger] ids[i]) < sims.len()
        && t[i].sim == sims[ids[i] as int] by {
        assert(s.contains(t[i]));
        let p = choose|p: int| 0 <= p < s.len() && s[p] == t[i];
        assert(s[p].id == p);
    }
    assert forall|i: int, j: int| 0 <= i < j < ids.len() implies sims[(#[trigger] ids[i]) as int]
        > sims[(#[trigger] ids[j]) as int] || (sims[ids[i] as int] == sims[ids[j] as int] && ids[i]
        < ids[j]) by {
        assert(t[i] != t[j]);
        assert(t[i].sim == sims[ids[i] as int] && t[j].sim == sims[ids[j] as int]);
    }
    if t.contains(s[x]) {
        let p = choose|p: int| 0 <= p < t.len() && t[p] == s[x];
        assert(ids[p] == x as ItemId);
    } else {
        assert forall|i: int| 0 <= i < ids.len() implies sims[x] <= sims[(
        #[trigger] ids[i]) as int] by {
            assert(t[i].sim >= s[x].sim);
        }
    }
}

/// Lists are in ascending order of the items, and together they hold each item once: item `i` is
/// in the list it is assigned to and in no other.
pub proof fn lists_are_ascending(assign: Seq<u32>, c: int, k: int)
    requires
        0 <= k <= assign.len() <= i64::MAX,
    ensures
        forall|i: int, j: int|
            0 <= i < j < bucket(assign, c, k).len() ==> (#[trigger] bucket(assign, c, k)[i]) < (
            #[trigger] bucket(assign, c, k)[j]),
        forall|i: int|
            0 <= i < bucket(assign, c, k).len() ==> 0 <= (#[trigger] bucket(assign, c, k)[i]) < k
                && assign[bucket(assign, c, k)[i] as int] == c,
        size_of_list(assign, c, k) == count_where(k as nat, |i: int| assign[i] == c),
    decreases k,
{
    let f = |i: int| assign[i] == c;
    if k > 0 {
        lists_are_ascending(assign, c, k - 1);
        lemma_bucket_below(assign, c, k - 1);
        count_of_next((k - 1) as nat, f);
    } else {
        count_of_next(0, f);
    }
}

/// As many items are reranked as asked for, and never fewer than are returned.
pub proof fn reranking_is_deep_enough(rdepth: usize, k: usize)
    ensures
        rerank_depth(rdepth, k) >= k,
        rerank_depth(rdepth, k) >= rdepth,
        rerank_depth(rdepth, k) == k || rerank_depth(rdepth, k) == rdepth,
{
}

/// After reranking every hit carries its exact score, and none of the candidates scores higher
/// than a hit without being one.
pub proof fn reranked_hits_carry_exact_scores<G: Fn(ItemId) -> i64>(
    exact: G,
    cand: Seq<Hit>,
    out: Seq<Hit>,
    k: nat,
    i: int,
    c: int,
)
    requires
        rescored(exact, cand, out),
        0 <= i < top(out, k).len(),
        0 <= c < cand.len(),
    ensures
        exact.ensures((top(out, k)[i].id,), top(out, k)[i].sim),
        exists|j: int| 0 <= j < cand.len() && (#[trigger] cand[j]).id == top(out, k)[i].id,
        exists|s: i64| #[trigger]
            exact.ensures((cand[c].id,), s) && (s <= top(out, k)[i].sim || top(out, k).contains(
                Hit { id: cand[c].id, sim: s },
            )),
{
    the_best_hits_are_taken(out, k, out[c]);
    let h = top(out, k)[i];
    assert(out.contains(h));
    let j = choose|j: int| 0 <= j < out.len() && out[j] == h;
    assert(out[j].id == cand[j].id);
    assert(cand[j].id == h.id);
    assert(out[c].id == cand[c].id);
    assert(out.contains(out[c]));
    assert(exact.ensures((cand[c].id,), out[c].sim));
    assert(out[c] == (Hit { id: cand[c].id, sim: out[c].sim }));
}

/// The ledger of an index has in every column what the coarse stage and the lists have there
/// together.
pub proof fn a_ledger_adds_up(base: MemoryBreakdown, posts: Seq<MemoryBreakdown>, k: int)
    requires
        0 <= k <= posts.len(),
    ensures
        absorbed(base, posts, k).code_bytes == saturated(
            base.code_bytes + total(Seq::new(k as nat, |i: int| posts[i].code_bytes as int)),
        ),
        absorbed(base, posts, k).model_bytes == saturated(
            base.model_bytes + total(Seq::new(k as nat, |i: int| posts[i].model_bytes as int)),
        ),
        absorbed(base, posts, k).index_bytes == saturated(
            base.index_bytes + total(Seq::new(k as nat, |i: int| posts[i].index_bytes as int)),
        ),
        absorbed(base, posts, k).cache_bytes == saturated(
            base.cache_bytes + total(Seq::new(k as nat, |i: int| posts[i].cache_bytes as int)),
        ),
    decreases k,
{
    let f = |i: int| posts[i].code_bytes as int;
    let g = |i: int| posts[i].model_bytes as int;
    let h = |i: int| posts[i].index_bytes as int;
    let e = |i: int| posts[i].cache_bytes as int;
    if k > 0 {
        a_ledger_adds_up(base, posts, k - 1);
        let n = (k - 1) as nat;
        assert(Seq::new(k as nat, f) =~= Seq::new(n, f).push(f(k - 1)));
        assert(Seq::new(k as nat, g) =~= Seq::new(n, g).push(g(k - 1)));
        assert(Seq::new(k as nat, h) =~= Seq::new(n, h).push(h(k - 1)));
        assert(Seq::new(k as nat, e) =~= Seq::new(n, e).push(e(k - 1)));
        total_of_push(Seq::new(n, f), f(k - 1));
        total_of_push(Seq::new(n, g), g(k - 1));
        total_of_push(Seq::new(n, h), h(k - 1));
        total_of_push(Seq::new(n, e), e(k - 1));
        lemma_totals_are_natural(posts, n);
    } else {
        total_of_nothing(Seq::new(0, f));
        total_of_nothing(Seq::new(0, g));
        total_of_nothing(Seq::new(0, h));
        total_of_nothing(Seq::new(0, e));
    }
}

proof fn lemma_totals_are_natural(posts: Seq<MemoryBreakdown>, n: nat)
    requires
        n <= posts.len(),
    ensures
        total(Seq::new(n, |i: int| posts[i].code_bytes as int)) >= 0,
        total(Seq::new(n, |i: int| posts[i].model_bytes as int)) >= 0,
        total(Seq::new(n, |i: int| posts[i].index_bytes as int)) >= 0,
        total(Seq::new(n, |i: int| posts[i].cache_bytes as int)) >= 0,
{
    total_of_naturals(Seq::new(n, |i: int| posts[i].code_bytes as int));
    total_of_naturals(Seq::new(n, |i: int| posts[i].model_bytes as int));
    total_of_naturals(Seq::new(n, |i: int| posts[i].index_bytes as int));
    total_of_naturals(Seq::new(n, |i: int| posts[i].cache_bytes as int));
}

/// The code bytes of an index are those of all its lists.
pub proof fn code_bytes_add_up(v: Seq<usize>, k: int)
    requires
        0 <= k <= v.len(),
    ensures
        total_of(v, k) == total(Seq::new(k as nat, |i: int| v[i] as int)),
    decreases k,
{
    let f = |i: int| v[i] as int;
    if k > 0 {
        code_bytes_add_up(v, k - 1);
        assert(Seq::new(k as nat, f) =~= Seq::new((k - 1) as nat, f).push(f(k - 1)));
        total_of_push(Seq::new((k - 1) as nat, f), f(k - 1));
    } else {
        total_of_nothing(Seq::new(0, f));
    }
}

/// How many lists hold something.
pub proof fn filled_lists_are_counted(sizes: Seq<usize>, k: int)
    requires
        0 <= k <= sizes.len(),
    ensures
        nonzero(sizes, k) == count_where(k as nat, |i: int| sizes[i] != 0),
    decreases k,
{
    let f = |i: int| sizes[i] != 0;
    if k > 0 {
        filled_lists_are_counted(sizes, k - 1);
        count_of_next((k - 1) as nat, f);
    } else {
        count_of_next(0, f);
    }
}

/// The share of a vector is the most that `n` vectors can all have.
pub proof fn a_share_fits_n_times(bytes: nat, n: nat)
    requires
        n > 0,
    ensures
        share(bytes, n) * n <= bytes < (share(bytes, n) + 1) * n,
        share(bytes, 0) == 0,
{
    vstd::arithmetic::div_mod::lemma_fundamental_div_mod(bytes as int, n as int);
    vstd::arithmetic::div_mod::lemma_mod_bound(bytes as int, n as int);
    let q = share(bytes, n);
    assert((q + 1) * n == n * q + n && q * n == n * q) by (nonlinear_arith);
}

/// Recall of a query counts the places among the first `k` results whose item stands among the
/// first `k` of the gold list, out of the different items there.
pub proof fn recall_counts_places(gold: Seq<ItemId>, got: Seq<ItemId>, k: nat)
    ensures
        recalled(gold, got, k) == count_where(
            if k < got.len() {
                k
            } else {
                got.len()
            },
            |j: int|
                exists|i: int|
                    0 <= i < gold.len() && i < k && #[trigger] gold[i] == got[j],
        ),
        forall|x: ItemId| #[trigger]
            first_of(gold, k).to_set().contains(x) <==> exists|i: int|
                0 <= i < gold.len() && i < k && #[trigger] gold[i] == x,
        relevant(gold, k) == first_of(gold, k).to_set().len(),
{
    let f = first_of(gold, k);
    let end = first_of(got, k).len();
    assert forall|x: ItemId| #[trigger] f.contains(x) <==> exists|i: int|
        0 <= i < gold.len() && i < k && #[trigger] gold[i] == x by {
        if f.contains(x) {
            let i = choose|i: int| 0 <= i < f.len() && f[i] == x;
            assert(gold[i] == x);
        }
        if exists|i: int| 0 <= i < gold.len() && i < k && #[trigger] gold[i] == x {
            let i = choose|i: int| 0 <= i < gold.len() && i < k && #[trigger] gold[i] == x;
            assert(f[i] == x);
        }
    }
    lemma_hits_counted(gold, got, k, end as int);
}

proof fn lemma_hits_counted(gold: Seq<ItemId>, got: Seq<ItemId>, k: nat, n: int)
    requires
        0 <= n <= got.len(),
        forall|x: ItemId| #[trigger]
            first_of(gold, k).contains(x) <==> exists|i: int|
                0 <= i < gold.len() && i < k && #[trigger] gold[i] == x,
    ensures
        hits_among(first_of(gold, k), got, n) == count_where(
            n as nat,
            |j: int|
                exists|i: int|
                    0 <= i < gold.len() && i < k && #[trigger] gold[i] == got[j],
        ),
    decreases n,
{
    let p = |j: int|
        exists|i: int| 0 <= i < gold.len() && i < k && #[trigger] gold[i] == got[j];
    if n > 0 {
        lemma_hits_counted(gold, got, k, n - 1);
        count_of_next((n - 1) as nat, p);
        assert(first_of(gold, k).contains(got[n - 1]) <==> p(n - 1));
    } else {
        count_of_next(0, p);
    }
}

/// Recall over all queries sums hits and items to be found separately.
pub proof fn recall_sums_over_queries(
    gold: Seq<Vec<ItemId>>,
    got: Seq<Vec<ItemId>>,
    k: nat,
    n: int,
)
    requires
        0 <= n <= gold.len(),
        n <= got.len(),
    ensures
        recall_upto(gold, got, k, n).0 == total(
            Seq::new(n as nat, |i: int| recalled(gold[i]@, got[i]@, k) as int),
        ),
        recall_upto(gold, got, k, n).1 == total(
            Seq::new(n as nat, |i: int| relevant(gold[i]@, k) as int),
        ),
    decreases n,
{
    let f = |i: int| recalled(gold[i]@, got[i]@, k) as int;
    let g = |i: int| relevant(gold[i]@, k) as int;
    if n > 0 {
        recall_sums_over_queries(gold, got, k, n - 1);
        assert(Seq::new(n as nat, f) =~= Seq::new((n - 1) as nat, f).push(f(n - 1)));
        assert(Seq::new(n as nat, g) =~= Seq::new((n - 1) as nat, g).push(g(n - 1)));
        total_of_push(Seq::new((n - 1) as nat, f), f(n - 1));
        total_of_push(Seq::new((n - 1) as nat, g), g(n - 1));
    } else {
        total_of_nothing(Seq::new(0, f));
        total_of_nothing(Seq::new(0, g));
    }
}

/// A vector goes to the list of its most similar centroid, and of several to the first.
pub proof fn a_vector_goes_where_it_is_most_similar(sims: Seq<i64>, best: int, j: int)
    requires
        is_first_max(sims, best),
        0 <= j < sims.len(),
    ensures
        0 <= best < sims.len(),
        sims[j] <= sims[best],
        sims[j] == sims[best] ==> best <= j,
{
}

/// Recall at ten looks at the first ten of each list, over the queries that both sides have.
pub proof fn recall_at_ten_looks_at_ten(gold: Seq<Vec<ItemId>>, got: Seq<Vec<ItemId>>, n: nat)
    requires
        n <= gold.len(),
        n <= got.len(),
        n == gold.len() || n == got.len(),
    ensures
        recall_at_ten(gold, got).0 == total(
            Seq::new(n, |i: int| recalled(gold[i]@, got[i]@, 10) as int),
        ),
        recall_at_ten(gold, got).1 == total(Seq::new(n, |i: int| relevant(gold[i]@, 10) as int)),
{
    recall_sums_over_queries(gold, got, 10, n as int);
}

/// A codec that keeps reconstructions is the only one that is not called compressed, and one that
/// keeps sketches is told apart from the others.
pub proof fn a_regime_tells_what_is_kept(c: IvfCodec)
    ensures
        c == IvfCodec::TrellisRecon ==> c.regime_text()
            == "fp32 recon cache (NOT RAM-compressed)"@,
        c is TrellisShortlist ==> c.regime_text()
            == "codes-only + 1-bit shortlist (RAM-compressed)"@,
        c != IvfCodec::TrellisRecon && !(c is TrellisShortlist) ==> c.regime_text()
            == "codes-only (RAM-compressed)"@,
{
}

} // verus!
