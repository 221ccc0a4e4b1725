//! Sums over sequences, as the laws of the other modules state them.

use vstd::prelude::*;

verus! {

/// The sum of a sequence.
pub open spec fn total(s: Seq<int>) -> int {
    s.fold_left(0, |a: int, b: int| a + b)
}

/// The inner product of two sequences of one length.
pub open spec fn inner(a: Seq<int>, b: Seq<int>) -> int {
    total(Seq::new(a.len(), |i: int| a[i] * b[i]))
}

/// A sum grows by what is appended.
pub proof fn total_of_push(s: Seq<int>, x: int)
    ensures
        total(s.push(x)) == total(s) + x,
{
    assert(s.push(x).drop_last() =~= s);
}

/// Nothing sums to zero.
pub proof fn total_of_nothing(s: Seq<int>)
    requires
        s.len() == 0,
    ensures
        total(s) == 0,
{
}

/// An inner product is one with its last term split off.
pub proof fn inner_of_push(a: Seq<int>, b: Seq<int>, x: int, y: int)
    requires
        a.len() == b.len(),
    ensures
        inner(a.push(x), b.push(y)) == inner(a, b) + x * y,
{
    let s = Seq::new(a.len(), |i: int| a[i] * b[i]);
    let t = Seq::new(a.len() + 1, |i: int| a.push(x)[i] * b.push(y)[i]);
    assert(t =~= s.push(x * y));
    total_of_push(s, x * y);
}

/// Of how many numbers below `n` the predicate holds.
pub open spec fn count_where(n: nat, holds: spec_fn(int) -> bool) -> int {
    total(
        Seq::new(
            n,
            |i: int|
                if holds(i) {
                    1int
                } else {
                    0
                },
        ),
    )
}

/// A count grows by one where the predicate holds of the next number.
pub proof fn count_of_next(n: nat, holds: spec_fn(int) -> bool)
    ensures
        count_where(n + 1, holds) == count_where(n, holds) + if holds(n as int) {
            1int
        } else {
            0
        },
        count_where(0, holds) == 0,
{
    let f = |i: int|
        if holds(i) {
            1int
        } else {
            0
        };
    let s = Seq::new(n, f);
    assert(Seq::new(n + 1, f) =~= s.push(f(n as int)));
    total_of_push(s, f(n as int));
}

/// Natural numbers have a natural sum.
pub proof fn total_of_naturals(s: Seq<int>)
    requires
        forall|i: int| 0 <= i < s.len() ==> (#[trigger] s[i]) >= 0,
    ensures
        total(s) >= 0,
    decreases s.len(),
{
    if s.len() > 0 {
        assert(s =~= s.drop_last().push(s.last()));
        total_of_naturals(s.drop_last());
        total_of_push(s.drop_last(), s.last());
    }
}

/// A sum of larger terms is larger.
pub proof fn total_is_monotone(a: Seq<int>, b: Seq<int>)
    requires
        a.len() == b.len(),
        forall|i: int| 0 <= i < a.len() ==> (#[trigger] a[i]) <= b[i],
    ensures
        total(a) <= total(b),
    decreases a.len(),
{
    if a.len() > 0 {
        assert(a =~= a.drop_last().push(a.last()));
        assert(b =~= b.drop_last().push(b.last()));
        assert(a[a.len() - 1] <= b[b.len() - 1]);
        total_is_monotone(a.drop_last(), b.drop_last());
        total_of_push(a.drop_last(), a.last());
        total_of_push(b.drop_last(), b.last());
    }
}

} // verus!
