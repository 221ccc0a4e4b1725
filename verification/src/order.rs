//! Ranking: integer order keys of floating-point bit patterns, a stable merge sort over any
//! total preorder, and the selection of the best `k` of a list of scored items.

use vstd::prelude::*;

verus! {

/// A total preorder with an executable comparison. `a.leq(b)` reads "`a` comes no later than `b`".
pub trait Ranked: Copy {
    spec fn leq(self, other: Self) -> bool;

    proof fn leq_total(a: Self, b: Self)
        ensures
            a.leq(b) || b.leq(a),
    ;

    proof fn leq_trans(a: Self, b: Self, c: Self)
        requires
            a.leq(b),
            b.leq(c),
        ensures
            a.leq(c),
    ;

    fn no_later(&self, other: &Self) -> (r: bool)
        ensures
            r == self.leq(*other),
    ;
}

/// Every earlier element comes no later than every later one.
pub open spec fn in_order<T: Ranked>(s: Seq<T>) -> bool {
    forall|i: int, j: int| 0 <= i < j < s.len() ==> (#[trigger] s[i]).leq(#[trigger] s[j])
}

/// `out` holds the items of `s`, in order.
pub open spec fn is_sort_of<T: Ranked>(s: Seq<T>, out: Seq<T>) -> bool {
    &&& in_order(out)
    &&& out.to_multiset() == s.to_multiset()
}

proof fn lemma_merge_push<T: Ranked>(out: Seq<T>, x: T)
    requires
        in_order(out),
        forall|i: int| 0 <= i < out.len() ==> (#[trigger] out[i]).leq(x),
    ensures
        in_order(out.push(x)),
{
}

/// Merges two ordered lists; on ties the items of `a` come first.
pub(crate) fn merge<T: Ranked>(a: &Vec<T>, b: &Vec<T>) -> (out: Vec<T>)
    requires
        in_order(a@),
        in_order(b@),
    ensures
        in_order(out@),
        out@.to_multiset() == a@.to_multiset().add(b@.to_multiset()),
{
    let mut out: Vec<T> = Vec::with_capacity(a.len());
    let mut i: usize = 0;
    let mut j: usize = 0;
    proof {
        broadcast use vstd::seq_lib::group_to_multiset_ensures;
        assert(a@.take(0) =~= Seq::<T>::empty());
        assert(b@.take(0) =~= Seq::<T>::empty());
        assert(out@.to_multiset() =~= a@.take(0).to_multiset().add(b@.take(0).to_multiset()));
    }
    while i < a.len() || j < b.len()
        invariant
            i <= a.len(),
            j <= b.len(),
            in_order(a@),
            in_order(b@),
            in_order(out@),
            out@.to_multiset() =~= a@.take(i as int).to_multiset().add(
                b@.take(j as int).to_multiset(),
            ),
            forall|p: int, q: int|
                0 <= p < out.len() && i <= q < a.len() ==> (#[trigger] out@[p]).leq(
                    #[trigger] a@[q],
                ),
            forall|p: int, q: int|
                0 <= p < out.len() && j <= q < b.len() ==> (#[trigger] out@[p]).leq(
                    #[trigger] b@[q],
                ),
        decreases a.len() - i + b.len() - j,
    {
        let from_a: bool = if i == a.len() {
            false
        } else if j == b.len() {
            true
        } else {
            a[i].no_later(&b[j])
        };
        if from_a {
            let x: T = a[i];
            proof {
                broadcast use vstd::seq_lib::group_to_multiset_ensures;
                lemma_merge_push(out@, x);
                assert(a@.take(i + 1) =~= a@.take(i as int).push(x));
                if j < b.len() {
                    assert forall|q: int| j <= q < b.len() implies x.leq(#[trigger] b@[q]) by {
                        if q > j {
                            T::leq_trans(x, b@[j as int], b@[q]);
                        }
                    }
                }
            }
            out.push(x);
            i += 1;
        } else {
            let x: T = b[j];
            proof {
                broadcast use vstd::seq_lib::group_to_multiset_ensures;
                lemma_merge_push(out@, x);
                assert(b@.take(j + 1) =~= b@.take(j as int).push(x));
                if i < a.len() {
                    T::leq_total(a@[i as int], x);
                    assert forall|q: int| i <= q < a.len() implies x.leq(#[trigger] a@[q]) by {
                        if q > i {
                            T::leq_trans(x, a@[i as int], a@[q]);
                        }
                    }
                }
            }
            out.push(x);
            j += 1;
        }
    }
    proof {
        assert(a@.take(i as int) =~= a@);
        assert(b@.take(j as int) =~= b@);
    }
    out
}

/// The items of `v`, in order.
pub fn merge_sort<T: Ranked>(v: &Vec<T>) -> (out: Vec<T>)
    ensures
        is_sort_of(v@, out@),
        out.len() == v.len(),
    decreases v.len(),
{
    let n: usize = v.len();
    if n <= 1 {
        let mut out: Vec<T> = Vec::with_capacity(n);
        if n == 1 {
            out.push(v[0]);
        }
        assert(out@ =~= v@);
        return out;
    }
    let mid: usize = n / 2;
    let mut left: Vec<T> = Vec::with_capacity(mid);
    let mut right: Vec<T> = Vec::with_capacity(n - mid);
    let mut i: usize = 0;
    while i < mid
        invariant
            i <= mid < n == v.len(),
            left@ =~= v@.take(i as int),
        decreases mid - i,
    {
        left.push(v[i]);
        i += 1;
    }
    while i < n
        invariant
            mid <= i <= n == v.len(),
            right@ =~= v@.subrange(mid as int, i as int),
        decreases n - i,
    {
        right.push(v[i]);
        i += 1;
    }
    let a: Vec<T> = merge_sort(&left);
    let b: Vec<T> = merge_sort(&right);
    let out: Vec<T> = merge(&a, &b);
    proof {
        broadcast use vstd::seq_lib::group_to_multiset_ensures;
        assert(v@ =~= left@ + right@);
        vstd::seq_lib::lemma_multiset_commutative(left@, right@);
        assert(out@.to_multiset().len() == out@.len());
        assert(v@.to_multiset().len() == v@.len());
    }
    out
}

/// Puts `x` into the ordered list `v`, behind the items that come no later than it.
pub fn place<T: Ranked>(v: &mut Vec<T>, x: T) -> (pos: usize)
    requires
        in_order(old(v)@),
    ensures
        pos <= old(v)@.len(),
        final(v)@ == old(v)@.insert(pos as int, x),
        in_order(final(v)@),
{
    let mut pos: usize = v.len();
    while pos > 0 && !v[pos - 1].no_later(&x)
        invariant
            pos <= v.len(),
            in_order(v@),
            v@ == old(v)@,
            forall|q: int| pos <= q < v.len() ==> x.leq(#[trigger] v@[q]),
        decreases pos,
    {
        proof {
            let y = v@[pos - 1];
            T::leq_total(y, x);
        }
        pos -= 1;
    }
    proof {
        assert forall|q: int| 0 <= q < pos implies (#[trigger] v@[q]).leq(x) by {
            if q < pos - 1 {
                T::leq_trans(v@[q], v@[pos - 1], x);
            }
        }
    }
    v.insert(pos, x);
    pos
}

/// The order key of a sign and a magnitude: magnitudes rise above zero and fall below it, and a
/// negative zero comes right before the positive one.
pub open spec fn signed_key(negative: bool, magnitude: nat) -> int {
    if negative {
        -1 - magnitude
    } else {
        magnitude as int
    }
}

/// The order key of a single-precision bit pattern: keys compare as the values do in their total
/// order.
pub fn order_key32(bits: u32) -> (k: i64)
    ensures
        k == signed_key(bits >= 0x8000_0000, (bits % 0x8000_0000) as nat),
{
    if bits >= 0x8000_0000 {
        -1 - ((bits % 0x8000_0000) as i64)
    } else {
        bits as i64
    }
}

/// The order key of a double-precision bit pattern.
pub fn order_key64(bits: u64) -> (k: i64)
    ensures
        k == signed_key(bits >= 0x8000_0000_0000_0000, (bits % 0x8000_0000_0000_0000) as nat),
{
    if bits >= 0x8000_0000_0000_0000 {
        -1 - ((bits % 0x8000_0000_0000_0000) as i64)
    } else {
        bits as i64
    }
}

/// Order keys tell any two bit patterns apart, put every negative one before every positive one,
/// and order equal signs by magnitude.
pub proof fn order_keys_are_total(na: bool, a: nat, nb: bool, b: nat)
    ensures
        signed_key(na, a) == signed_key(nb, b) <==> na == nb && a == b,
        na && !nb ==> signed_key(na, a) < signed_key(nb, b),
        !na && !nb ==> (signed_key(na, a) < signed_key(nb, b) <==> a < b),
        na && nb ==> (signed_key(na, a) < signed_key(nb, b) <==> a > b),
{
}

} // verus!
