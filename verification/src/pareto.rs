//! Operating points of a sweep: which codecs it holds, which recall targets it reaches, and the
//! fastest point at a target.

use vstd::prelude::*;

use crate::cli::texts;
use crate::text::same_text;

verus! {

/// What a choice between operating points looks at.
pub struct Operating {
    pub codec: Seq<char>,
    /// Found items, of `total` to be found.
    pub hits: nat,
    pub total: nat,
    /// The order key of the throughput.
    pub speed: int,
}

/// An operating point of a sweep.
pub trait Point {
    spec fn operating(&self) -> Operating;

    fn codec(&self) -> (r: &String)
        ensures
            r@ == self.operating().codec,
    ;

    fn hits(&self) -> (r: u64)
        ensures
            r == self.operating().hits,
    ;

    fn total(&self) -> (r: u64)
        ensures
            r == self.operating().total,
    ;

    fn speed(&self) -> (r: i64)
        ensures
            r == self.operating().speed,
    ;
}

/// The codecs of the first `n` points, each where it first occurs.
pub open spec fn first_seen<T: Point>(points: Seq<T>, n: int) -> Seq<Seq<char>>
    decreases n,
{
    if n <= 0 {
        Seq::empty()
    } else {
        let before = first_seen(points, n - 1);
        let codec = points[n - 1].operating().codec;
        if before.contains(codec) {
            before
        } else {
            before.push(codec)
        }
    }
}

/// Each codec is listed once, and every point's codec is listed.
pub proof fn every_codec_is_listed_once<T: Point>(points: Seq<T>, n: int)
    requires
        0 <= n <= points.len(),
    ensures
        first_seen(points, n).no_duplicates(),
        forall|i: int|
            0 <= i < n ==> first_seen(points, n).contains(
                (#[trigger] points[i]).operating().codec,
            ),
    decreases n,
{
    if n > 0 {
        every_codec_is_listed_once(points, n - 1);
        let before = first_seen(points, n - 1);
        let now = first_seen(points, n);
        let codec = points[n - 1].operating().codec;
        assert forall|i: int| 0 <= i < n implies now.contains(
            (#[trigger] points[i]).operating().codec,
        ) by {
            if i < n - 1 {
                let k = choose|k: int|
                    0 <= k < before.len() && before[k] == points[i].operating().codec;
                assert(now[k] == before[k]);
            } else if !before.contains(codec) {
                assert(now[before.len() as int] == codec);
            }
        }
    }
}

fn lists(seen: &Vec<String>, codec: &String) -> (r: bool)
    ensures
        r == texts(seen@).contains(codec@),
{
    let mut i: usize = 0;
    while i < seen.len()
        invariant
            i <= seen.len(),
            forall|k: int| 0 <= k < i ==> texts(seen@)[k] != codec@,
        decreases seen.len() - i,
    {
        if same_text(seen[i].as_str(), codec.as_str()) {
            assert(texts(seen@)[i as int] == codec@);
            return true;
        }
        i += 1;
    }
    false
}

/// The codecs of a sweep, each where it first occurs.
pub fn seen_codecs<T: Point>(points: &Vec<T>) -> (seen: Vec<String>)
    ensures
        texts(seen@) == first_seen(points@, points@.len() as int),
{
    let mut seen: Vec<String> = Vec::new();
    let mut i: usize = 0;
    assert(texts(seen@) =~= Seq::empty());
    while i < points.len()
        invariant
            i <= points.len(),
            texts(seen@) == first_seen(points@, i as int),
        decreases points.len() - i,
    {
        let ghost before = texts(seen@);
        let codec: &String = points[i].codec();
        if !lists(&seen, codec) {
            seen.push(codec.clone());
            assert(texts(seen@) =~= before.push(codec@));
        }
        i += 1;
    }
    seen
}

/// Whether a point finds at least `target` thousandths of what is to be found.
pub open spec fn reaches(p: Operating, target: nat) -> bool {
    p.total > 0 && 1000 * p.hits >= target * p.total
}

/// Whether a point is one of those to choose from.
pub open spec fn eligible<T: Point>(p: T, codec: Option<Seq<char>>, target: nat) -> bool {
    &&& reaches(p.operating(), target)
    &&& codec matches Some(c) ==> p.operating().codec == c
}

/// The fastest point that reaches a target, of one codec or of all; the last of equals.
pub open spec fn is_best<T: Point>(
    points: Seq<T>,
    codec: Option<Seq<char>>,
    target: nat,
    best: Option<int>,
) -> bool {
    match best {
        None => forall|i: int|
            0 <= i < points.len() ==> !eligible(#[trigger] points[i], codec, target),
        Some(b) => {
            &&& 0 <= b < points.len()
            &&& eligible(points[b], codec, target)
            &&& forall|i: int|
                0 <= i < points.len() && eligible(#[trigger] points[i], codec, target) ==> {
                    &&& points[i].operating().speed <= points[b].operating().speed
                    &&& i > b ==> points[i].operating().speed < points[b].operating().speed
                }
        },
    }
}

/// A target has one fastest point.
pub proof fn the_best_is_unique<T: Point>(
    points: Seq<T>,
    codec: Option<Seq<char>>,
    target: nat,
    a: Option<int>,
    b: Option<int>,
)
    requires
        is_best(points, codec, target, a),
        is_best(points, codec, target, b),
    ensures
        a == b,
{
    if let (Some(x), Some(y)) = (a, b) {
        assert(eligible(points[x], codec, target) && eligible(points[y], codec, target));
    } else if let Some(x) = a {
        assert(!eligible(points[x], codec, target));
    } else if let Some(y) = b {
        assert(!eligible(points[y], codec, target));
    }
}

/// The fastest point that reaches a target.
pub open spec fn best_of<T: Point>(
    points: Seq<T>,
    codec: Option<Seq<char>>,
    target: nat,
) -> Option<int> {
    choose|b: Option<int>| is_best(points, codec, target, b)
}

/// A stricter target is never reached faster.
pub proof fn a_stricter_target_is_never_faster<T: Point>(
    points: Seq<T>,
    codec: Option<Seq<char>>,
    loose: nat,
    strict: nat,
    a: Option<int>,
    b: Option<int>,
)
    requires
        loose <= strict,
        is_best(points, codec, loose, a),
        is_best(points, codec, strict, b),
    ensures
        b is Some ==> a is Some && points[b->Some_0].operating().speed
            <= points[a->Some_0].operating().speed,
{
    if let Some(y) = b {
        let p = points[y].operating();
        assert(loose * p.total <= strict * p.total) by (nonlinear_arith)
            requires
                loose <= strict,
        ;
        assert(eligible(points[y], codec, loose));
    }
}

fn does_reach<T: Point>(p: &T, target: u32) -> (r: bool)
    ensures
        r == reaches(p.operating(), target as nat),
{
    let total: u64 = p.total();
    let hits: u64 = p.hits();
    assert(0 <= target * total <= 0xFFFF_FFFF * 0xFFFF_FFFF_FFFF_FFFF) by (nonlinear_arith)
        requires
            0 <= target <= 0xFFFF_FFFF,
            0 <= total <= 0xFFFF_FFFF_FFFF_FFFF,
    ;
    total > 0 && 1000 * (hits as u128) >= (target as u128) * (total as u128)
}

/// The view of an optional codec.
pub open spec fn codec_view(codec: Option<&String>) -> Option<Seq<char>> {
    match codec {
        None => None,
        Some(c) => Some(c@),
    }
}

/// The view of an optional position.
pub open spec fn at(best: Option<usize>) -> Option<int> {
    match best {
        None => None,
        Some(b) => Some(b as int),
    }
}

/// The fastest point that reaches a target in thousandths, of one codec or of all.
pub fn best_point<T: Point>(points: &Vec<T>, codec: Option<&String>, target: u32) -> (best: Option<
    usize,
>)
    ensures
        is_best(points@, codec_view(codec), target as nat, at(best)),
        at(best) == best_of(points@, codec_view(codec), target as nat),
{
    let mut best: Option<usize> = None;
    let mut i: usize = 0;
    assert(points@.take(0) =~= Seq::empty());
    while i < points.len()
        invariant
            i <= points.len(),
            is_best(points@.take(i as int), codec_view(codec), target as nat, at(best)),
        decreases points.len() - i,
    {
        let ghost before = points@.take(i as int);
        let ghost now = points@.take(i + 1);
        let named: bool = match codec {
            None => true,
            Some(c) => same_text(points[i].codec().as_str(), c.as_str()),
        };
        let fits: bool = named && does_reach(&points[i], target);
        let ghost prior = best;
        assert(now[i as int] == points@[i as int]);
        assert(fits == eligible(now[i as int], codec_view(codec), target as nat));
        assert(forall|q: int| 0 <= q < i ==> #[trigger] now[q] == before[q]);
        if fits {
            let faster: bool = match best {
                None => true,
                Some(b) => points[i].speed() >= points[b].speed(),
            };
            if faster {
                best = Some(i);
            }
        }
        proof {
            match best {
                None => {
                    assert forall|q: int| 0 <= q < now.len() implies !eligible(
                        #[trigger] now[q],
                        codec_view(codec),
                        target as nat,
                    ) by {
                        if q < i {
                            assert(!eligible(before[q], codec_view(codec), target as nat));
                        }
                    }
                },
                Some(b) => {
                    assert forall|q: int|
                        0 <= q < now.len() && eligible(
                            #[trigger] now[q],
                            codec_view(codec),
                            target as nat,
                        ) implies {
                        &&& now[q].operating().speed <= now[b as int].operating().speed
                        &&& q > b ==> now[q].operating().speed < now[b as int].operating().speed
                    } by {
                        if q < i {
                            assert(eligible(before[q], codec_view(codec), target as nat));
                        }
                    }
                },
            }
        }
        i += 1;
    }
    assert(points@.take(i as int) =~= points@);
    proof {
        the_best_is_unique(
            points@,
            codec_view(codec),
            target as nat,
            at(best),
            best_of(points@, codec_view(codec), target as nat),
        );
    }
    best
}

/// Whether some point reaches a target.
pub open spec fn is_reached<T: Point>(points: Seq<T>, target: nat) -> bool {
    exists|i: int| 0 <= i < points.len() && reaches((#[trigger] points[i]).operating(), target)
}

/// The usual recall targets, in thousandths.
pub open spec fn is_usual(t: int) -> bool {
    t == 800 || t == 900 || t == 950 || t == 990
}

/// The targets of a sweep: the usual ones that are reached and the positive derived ones, each
/// once and in ascending order.
pub open spec fn is_target_list<T: Point>(
    points: Seq<T>,
    derived: Seq<u32>,
    targets: Seq<u32>,
) -> bool {
    &&& forall|i: int, j: int|
        0 <= i < j < targets.len() ==> (#[trigger] targets[i]) < (#[trigger] targets[j])
    &&& forall|t: u32| #[trigger]
        targets.contains(t) <==> {
            ||| is_usual(t as int) && is_reached(points, t as nat)
            ||| t > 0 && derived.contains(t)
        }
}

/// A strictly ascending list.
spec fn rising(s: Seq<u32>) -> bool {
    forall|i: int, j: int| 0 <= i < j < s.len() ==> (#[trigger] s[i]) < (#[trigger] s[j])
}

fn add_target(targets: &mut Vec<u32>, t: u32)
    requires
        rising(old(targets)@),
    ensures
        rising(final(targets)@),
        forall|x: u32| #[trigger]
            final(targets)@.contains(x) <==> old(targets)@.contains(x) || x == t,
{
    let ghost before = targets@;
    let mut i: usize = 0;
    while i < targets.len() && targets[i] < t
        invariant
            i <= targets.len(),
            targets@ == before,
            forall|k: int| 0 <= k < i ==> (#[trigger] before[k]) < t,
        decreases targets.len() - i,
    {
        i += 1;
    }
    if i < targets.len() && targets[i] == t {
        assert(before[i as int] == t);
        return;
    }
    targets.insert(i, t);
    proof {
        let now = targets@;
        assert(now == before.insert(i as int, t));
        assert forall|x: u32| #[trigger] now.contains(x) <==> before.contains(x) || x == t by {
            if before.contains(x) {
                let k = choose|k: int| 0 <= k < before.len() && before[k] == x;
                if k < i {
                    assert(now[k] == x);
                } else {
                    assert(now[k + 1] == x);
                }
            }
            if x == t {
                assert(now[i as int] == t);
            }
            if now.contains(x) && x != t {
                let k = choose|k: int| 0 <= k < now.len() && now[k] == x;
                if k < i {
                    assert(before[k] == x);
                } else {
                    assert(before[k - 1] == x);
                }
            }
        }
        assert forall|a: int, b: int| 0 <= a < b < now.len() implies (#[trigger] now[a]) < (
        #[trigger] now[b]) by {
            if i < before.len() {
                assert(before[i as int] > t);
            }
        }
    }
}

fn any_reaches<T: Point>(points: &Vec<T>, t: u32) -> (r: bool)
    ensures
        r == is_reached(points@, t as nat),
{
    let mut i: usize = 0;
    while i < points.len()
        invariant
            i <= points.len(),
            forall|k: int|
                0 <= k < i ==> !reaches((#[trigger] points@[k]).operating(), t as nat),
        decreases points.len() - i,
    {
        if does_reach(&points[i], t) {
            assert(reaches(points@[i as int].operating(), t as nat));
            return true;
        }
        i += 1;
    }
    false
}

/// The recall targets of a sweep in thousandths, from the usual ones and from those that were
/// derived from the best recall.
pub fn recall_targets<T: Point>(points: &Vec<T>, derived: &Vec<u32>) -> (targets: Vec<u32>)
    ensures
        is_target_list(points@, derived@, targets@),
{
    let mut targets: Vec<u32> = Vec::new();
    if any_reaches(points, 800) {
        add_target(&mut targets, 800);
    }
    if any_reaches(points, 900) {
        add_target(&mut targets, 900);
    }
    if any_reaches(points, 950) {
        add_target(&mut targets, 950);
    }
    if any_reaches(points, 990) {
        add_target(&mut targets, 990);
    }
    let ghost usual = targets@;
    assert(forall|t: u32| #[trigger]
        usual.contains(t) <==> is_usual(t as int) && is_reached(points@, t as nat));
    let mut i: usize = 0;
    while i < derived.len()
        invariant
            i <= derived.len(),
            rising(targets@),
            forall|t: u32| #[trigger]
                targets@.contains(t) <==> usual.contains(t) || (t > 0 && derived@.take(
                    i as int,
                ).contains(t)),
        decreases derived.len() - i,
    {
        let ghost before = targets@;
        let ghost part = derived@.take(i as int);
        let ghost more = derived@.take(i + 1);
        let d: u32 = derived[i];
        if d > 0 {
            add_target(&mut targets, d);
        }
        proof {
            assert(more =~= part.push(d));
            assert forall|t: u32| #[trigger] targets@.contains(t) <==> usual.contains(t) || (t > 0
                && more.contains(t)) by {
                assert(before.contains(t) <==> usual.contains(t) || (t > 0 && part.contains(t)));
                assert(more.contains(t) <==> part.contains(t) || t == d) by {
                    if part.contains(t) {
                        let k = choose|k: int| 0 <= k < part.len() && part[k] == t;
                        assert(more[k] == t);
                    }
                    if t == d {
                        assert(more[i as int] == d);
                    }
                    if more.contains(t) && t != d {
                        let k = choose|k: int| 0 <= k < more.len() && more[k] == t;
                        assert(part[k] == t);
                    }
                }
            }
        }
        i += 1;
    }
    assert(derived@.take(i as int) =~= derived@);
    targets
}

/// `hits` of `total` is the best recall of a sweep: a point's own, or none of one where there is
/// no point to speak of.
pub open spec fn is_top_recall<T: Point>(points: Seq<T>, hits: nat, total: nat) -> bool {
    &&& total > 0
    &&& forall|i: int|
        0 <= i < points.len() ==> (#[trigger] points[i]).operating().total > 0
            ==> points[i].operating().hits * total <= hits * points[i].operating().total
    &&& {
        ||| hits == 0 && total == 1
        ||| exists|i: int|
            0 <= i < points.len() && (#[trigger] points[i]).operating().hits == hits
                && points[i].operating().total == total
    }
}

/// No point finds more than ten times what is to be found: a query has ten results.
pub open spec fn are_tenfold<T: Point>(points: Seq<T>) -> bool {
    forall|i: int|
        0 <= i < points.len() ==> (#[trigger] points[i]).operating().hits <= 10
            * points[i].operating().total
}

/// The best recall of a sweep.
pub fn top_recall<T: Point>(points: &Vec<T>) -> (r: (u64, u64))
    ensures
        is_top_recall(points@, r.0 as nat, r.1 as nat),
        are_tenfold(points@) ==> r.0 <= 10 * r.1,
{
    let mut hits: u64 = 0;
    let mut total: u64 = 1;
    let mut i: usize = 0;
    while i < points.len()
        invariant
            i <= points.len(),
            is_top_recall(points@.take(i as int), hits as nat, total as nat),
            are_tenfold(points@) ==> hits <= 10 * total,
        decreases points.len() - i,
    {
        let ghost part = points@.take(i as int);
        let ghost more = points@.take(i + 1);
        let h: u64 = points[i].hits();
        let t: u64 = points[i].total();
        proof {
            assert(more =~= part.push(points@[i as int]));
            assert(more[i as int] == points@[i as int]);
            assert forall|j: int| 0 <= j < i implies #[trigger] more[j] == part[j] by {}
            lemma_products(h, total);
            lemma_products(hits, t);
        }
        let ghost (h0, t0) = (hits, total);
        if t > 0 && h as u128 * total as u128 > hits as u128 * t as u128 {
            hits = h;
            total = t;
        }
        proof {
            assert forall|j: int| 0 <= j < more.len() && (#[trigger] more[j]).operating().total
                > 0 implies more[j].operating().hits * total <= hits
                * more[j].operating().total by {
                if j < i {
                    let o = part[j].operating();
                    assert(o.hits * t0 <= h0 * o.total);
                    if hits != h0 || total != t0 {
                        lemma_shares_rise(o.hits, o.total, h0 as nat, t0 as nat, h as nat, t as nat);
                    }
                }
            }
            if hits == h && total == t {
                assert(more[i as int].operating().hits == hits);
            } else if !(hits == 0 && total == 1) {
                let j = choose|j: int|
                    0 <= j < part.len() && (#[trigger] part[j]).operating().hits == hits
                        && part[j].operating().total == total;
                assert(more[j].operating().hits == hits);
            }
        }
        i += 1;
    }
    assert(points@.take(i as int) =~= points@);
    (hits, total)
}

proof fn lemma_products(a: u64, b: u64)
    ensures
        0 <= a * b <= 0xFFFF_FFFF_FFFF_FFFF * 0xFFFF_FFFF_FFFF_FFFF,
{
    assert(0 <= a * b <= 0xFFFF_FFFF_FFFF_FFFF * 0xFFFF_FFFF_FFFF_FFFF) by (nonlinear_arith)
        requires
            0 <= a <= 0xFFFF_FFFF_FFFF_FFFF,
            0 <= b <= 0xFFFF_FFFF_FFFF_FFFF,
    ;
}

/// Shares compare transitively.
proof fn lemma_shares_rise(a: nat, b: nat, c: nat, d: nat, e: nat, f: nat)
    requires
        b > 0,
        d > 0,
        f > 0,
        a * d <= c * b,
        c * f <= e * d,
    ensures
        a * f <= e * b,
{
    assert(a * f <= e * b) by (nonlinear_arith)
        requires
            b > 0,
            d > 0,
            f > 0,
            a * d <= c * b,
            c * f <= e * d,
    {
        assert((a * d) * f <= (c * b) * f);
        assert((c * f) * b <= (e * d) * b);
        assert((a * f) * d <= (e * b) * d);
    }
}

/// `percent` of a recall in thousandths, rounded to nearest, halves up.
pub open spec fn share_of(percent: nat, hits: nat, total: nat) -> nat {
    (20 * percent * hits + total) / (2 * total)
}

/// The targets that follow from the best recall: 90, 95 and 99 percent of it.
pub open spec fn derived_from(hits: nat, total: nat) -> Seq<u32> {
    seq![
        share_of(90, hits, total) as u32,
        share_of(95, hits, total) as u32,
        share_of(99, hits, total) as u32,
    ]
}

fn thousandths_of(percent: u32, hits: u64, total: u64) -> (t: u32)
    requires
        total > 0,
        hits <= 10 * total,
        percent <= 100,
    ensures
        t == share_of(percent as nat, hits as nat, total as nat),
{
    let p: u128 = 20 * percent as u128;
    let h: u128 = hits as u128;
    let n: u128 = total as u128;
    assert(0 <= p * h <= 20_000 * n) by (nonlinear_arith)
        requires
            0 <= p <= 2000,
            0 <= h <= 10 * n,
    ;
    let over: u128 = p * h + n;
    let under: u128 = 2 * n;
    assert(over / under <= 20_001) by (nonlinear_arith)
        requires
            over <= 20_001 * under,
            under > 0,
    ;
    (over / under) as u32
}

/// The targets of a sweep that follow from its own best recall, `hits` of `total`.
pub fn derived_targets(hits: u64, total: u64) -> (d: Vec<u32>)
    requires
        total > 0,
        hits <= 10 * total,
    ensures
        d@ == derived_from(hits as nat, total as nat),
{
    let d: Vec<u32> = vec![
        thousandths_of(90, hits, total),
        thousandths_of(95, hits, total),
        thousandths_of(99, hits, total),
    ];
    assert(d@ =~= derived_from(hits as nat, total as nat));
    d
}

/// Whether an order key is that of a finite throughput.
pub open spec fn is_finite_key(k: int) -> bool {
    -0x7FF0_0000_0000_0000 <= k < 0x7FF0_0000_0000_0000
}

/// How long a throughput measurement lasts at least, in nanoseconds.
pub const MIN_TIMING_NANOS: u64 = 500_000_000;

/// Whether a throughput measurement may end: it has run as often as asked for, at least once, and
/// long enough.
pub fn window_is_full(min_passes: usize, passes: usize, elapsed_nanos: u64) -> (r: bool)
    ensures
        r == (passes >= 1 && passes >= min_passes && elapsed_nanos >= MIN_TIMING_NANOS),
{
    passes >= 1 && passes >= min_passes && elapsed_nanos >= MIN_TIMING_NANOS
}

// ---- What a choice promises ----

/// The chosen point is of the codec asked for and reaches the target; no other such point is
/// faster, and none after it is as fast. If none is chosen, no such point reaches it.
pub proof fn the_chosen_point_is_the_fastest_that_reaches<T: Point>(
    points: Seq<T>,
    codec: Seq<char>,
    target: nat,
    b: Option<int>,
    i: int,
)
    requires
        is_best(points, Some(codec), target, b),
        0 <= i < points.len(),
    ensures
        b matches Some(x) ==> 0 <= x < points.len() && points[x].operating().codec == codec && 1000
            * points[x].operating().hits >= target * points[x].operating().total
            && points[x].operating().total > 0,
        points[i].operating().codec == codec && points[i].operating().total > 0 && 1000
            * points[i].operating().hits >= target * points[i].operating().total ==> b is Some
            && points[i].operating().speed <= points[b->Some_0].operating().speed && (
        points[i].operating().speed == points[b->Some_0].operating().speed ==> i <= b->Some_0),
{
    if points[i].operating().codec == codec && points[i].operating().total > 0 && 1000
        * points[i].operating().hits >= target * points[i].operating().total {
        assert(eligible(points[i], Some(codec), target));
    }
}

/// The targets of a sweep are, in ascending order, those of 0.8, 0.9, 0.95 and 0.99 that some
/// point reaches, and the derived ones that are not zero.
pub proof fn targets_are_reached_or_derived<T: Point>(
    points: Seq<T>,
    derived: Seq<u32>,
    targets: Seq<u32>,
    i: int,
    t: u32,
)
    requires
        is_target_list(points, derived, targets),
    ensures
        0 <= i < points.len() && (t == 800 || t == 900 || t == 950 || t == 990)
            && points[i].operating().total > 0 && 1000 * points[i].operating().hits >= t
            * points[i].operating().total ==> targets.contains(t),
        t > 0 && derived.contains(t) ==> targets.contains(t),
        targets.contains(t) ==> t == 800 || t == 900 || t == 950 || t == 990 || derived.contains(t),
        targets.no_duplicates(),
{
    if 0 <= i < points.len() && points[i].operating().total > 0 && 1000
        * points[i].operating().hits >= t * points[i].operating().total {
        assert(reaches(points[i].operating(), t as nat));
        assert(is_reached(points, t as nat));
    }
}

/// A share of a recall is its percentage in thousandths, to the nearest one.
pub proof fn shares_are_rounded_to_nearest(percent: nat, hits: nat, total: nat)
    requires
        total > 0,
    ensures
        2 * share_of(percent, hits, total) * total <= 20 * percent * hits + total,
        20 * percent * hits < 2 * share_of(percent, hits, total) * total + total,
        derived_from(hits, total).len() == 3,
{
    let x = (20 * percent * hits + total) as int;
    let m = 2 * total as int;
    assert(x >= 0) by (nonlinear_arith)
        requires
            x == 20 * percent * hits + total,
            percent >= 0,
            hits >= 0,
            total >= 0,
    ;
    vstd::arithmetic::div_mod::lemma_fundamental_div_mod(x, m);
    vstd::arithmetic::div_mod::lemma_mod_bound(x, m);
    let q = x / m;
    assert(m * q == 2 * q * total) by (nonlinear_arith)
        requires
            m == 2 * total,
    ;
}

/// The best recall of a sweep is reached by one of its points and by none exceeded; without any
/// recall it is zero.
pub proof fn no_point_recalls_more<T: Point>(points: Seq<T>, hits: nat, total: nat, i: int)
    requires
        is_top_recall(points, hits, total),
        0 <= i < points.len(),
        points[i].operating().total > 0,
    ensures
        total > 0,
        points[i].operating().hits * total <= hits * points[i].operating().total,
        hits > 0 ==> exists|j: int|
            0 <= j < points.len() && (#[trigger] points[j]).operating().hits == hits
                && points[j].operating().total == total,
{
}

} // verus!
