//! Natural numbers of any size, as limbs of 32 bits, least significant first.

use vstd::arithmetic::power2::{lemma2_to64, lemma_pow2_adds, lemma_pow2_pos, pow2};
use vstd::prelude::*;

verus! {

/// The number that the limbs write.
pub open spec fn limbs_value(s: Seq<u32>) -> nat
    decreases s.len(),
{
    if s.len() == 0 {
        0
    } else {
        s[0] as nat + 0x1_0000_0000 * limbs_value(s.skip(1))
    }
}

/// A natural number of any size.
pub struct BigNat {
    limbs: Vec<u32>,
}

proof fn lemma_limbs_push(s: Seq<u32>, x: u32)
    ensures
        limbs_value(s.push(x)) == limbs_value(s) + x as nat * pow2(32 * s.len()),
    decreases s.len(),
{
    lemma2_to64();
    if s.len() == 0 {
        reveal_with_fuel(limbs_value, 3);
        assert(s.push(x).skip(1) =~= Seq::empty());
        assert(x as nat * 1 == x as nat);
    } else {
        let t = s.skip(1);
        lemma_limbs_push(t, x);
        assert(s.push(x).skip(1) =~= t.push(x));
        assert(s.push(x)[0] == s[0]);
        lemma_pow2_adds(32, 32 * t.len());
        assert(32 + 32 * t.len() == 32 * s.len());
        let p = pow2(32 * t.len());
        assert(0x1_0000_0000 * (limbs_value(t) + x as nat * p) == 0x1_0000_0000 * limbs_value(t)
            + x as nat * (0x1_0000_0000 * p)) by (nonlinear_arith);
    }
}

/// The limbs from `k` on.
spec fn high(s: Seq<u32>, k: int) -> nat {
    limbs_value(s.skip(k))
}

proof fn lemma_high_step(s: Seq<u32>, k: int)
    requires
        0 <= k < s.len(),
    ensures
        high(s, k) == s[k] as nat + 0x1_0000_0000 * high(s, k + 1),
{
    assert(s.skip(k).skip(1) =~= s.skip(k + 1));
}

proof fn lemma_high_positive(s: Seq<u32>, i: int, k: int)
    requires
        0 <= i <= k < s.len(),
        s[k] > 0,
    ensures
        high(s, i) > 0,
    decreases k - i,
{
    lemma_high_step(s, i);
    if i < k {
        lemma_high_positive(s, i + 1, k);
    }
}

impl BigNat {
    pub closed spec fn view(&self) -> nat {
        limbs_value(self.limbs@)
    }

    /// A small number.
    pub fn small(v: u32) -> (r: Self)
        ensures
            r.view() == v,
    {
        let mut limbs: Vec<u32> = Vec::with_capacity(1);
        limbs.push(v);
        proof {
            reveal_with_fuel(limbs_value, 3);
            assert(limbs@.skip(1) =~= Seq::empty());
        }
        BigNat { limbs }
    }

    /// A copy.
    pub fn copy(&self) -> (r: Self)
        ensures
            r.view() == self.view(),
    {
        let mut limbs: Vec<u32> = Vec::with_capacity(self.limbs.len());
        let mut i: usize = 0;
        while i < self.limbs.len()
            invariant
                i <= self.limbs.len(),
                limbs@ == self.limbs@.take(i as int),
            decreases self.limbs.len() - i,
        {
            limbs.push(self.limbs[i]);
            i += 1;
            assert(limbs@ =~= self.limbs@.take(i as int));
        }
        assert(limbs@ =~= self.limbs@);
        BigNat { limbs }
    }

    /// The sum of two numbers.
    pub fn plus(&self, other: &BigNat) -> (r: Self)
        ensures
            r.view() == self.view() + other.view(),
    {
        let n: usize = if self.limbs.len() < other.limbs.len() {
            other.limbs.len()
        } else {
            self.limbs.len()
        };
        let ghost a = self.limbs@;
        let ghost b = other.limbs@;
        let mut out: Vec<u32> = Vec::new();
        let mut carry: u64 = 0;
        let mut i: usize = 0;
        proof {
            lemma2_to64();
            assert(a.skip(0) =~= a);
            assert(b.skip(0) =~= b);
            assert(32 * i as nat == 0);
            let x = carry + high_or_zero(a, 0) + high_or_zero(b, 0);
            assert(1 * x == x);
            assert(limbs_value(out@) == 0);
        }
        while i < n
            invariant
                i <= n,
                n >= a.len(),
                n >= b.len(),
                a == self.limbs@,
                b == other.limbs@,
                out.len() == i,
                carry <= 1,
                limbs_value(out@) + pow2(32 * i as nat) * (carry + high_or_zero(a, i as int)
                    + high_or_zero(b, i as int)) == limbs_value(a) + limbs_value(b),
            decreases n - i,
        {
            let x: u64 = if i < self.limbs.len() {
                self.limbs[i] as u64
            } else {
                0
            };
            let y: u64 = if i < other.limbs.len() {
                other.limbs[i] as u64
            } else {
                0
            };
            let s: u64 = x + y + carry;
            let low: u32 = (s % 0x1_0000_0000) as u32;
            let ghost before = out@;
            proof {
                if i < a.len() {
                    lemma_high_step(a, i as int);
                }
                if i < b.len() {
                    lemma_high_step(b, i as int);
                }
                lemma_limbs_push(before, low);
                lemma2_to64();
                lemma_pow2_adds(32 * i as nat, 32);
                assert(32 * i + 32 == 32 * (i + 1));
                let p = pow2(32 * i as nat);
                let ha = high_or_zero(a, i + 1);
                let hb = high_or_zero(b, i + 1);
                let c = s / 0x1_0000_0000;
                assert(carry + high_or_zero(a, i as int) + high_or_zero(b, i as int) == s
                    + 0x1_0000_0000 * (ha + hb));
                assert(p * (low + 0x1_0000_0000 * (c + ha + hb)) == low as nat * p + (p
                    * 0x1_0000_0000) * (c + ha + hb)) by (nonlinear_arith);
            }
            out.push(low);
            carry = s / 0x1_0000_0000;
            i += 1;
        }
        let ghost before = out@;
        out.push(carry as u32);
        proof {
            lemma_limbs_push(before, carry as u32);
            let p = pow2(32 * n as nat);
            assert(p * carry == carry as nat * p) by (nonlinear_arith);
        }
        BigNat { limbs: out }
    }

    /// The number times a small one.
    fn times_limb(&self, m: u32) -> (r: Self)
        ensures
            r.view() == self.view() * m,
    {
        let n: usize = self.limbs.len();
        let ghost a = self.limbs@;
        let mut out: Vec<u32> = Vec::new();
        let mut carry: u64 = 0;
        let mut i: usize = 0;
        proof {
            lemma2_to64();
            assert(a.skip(0) =~= a);
            assert(m * limbs_value(a) == limbs_value(a) * m) by (nonlinear_arith);
            assert(32 * i as nat == 0);
            let x = carry + m * high(a, 0);
            assert(1 * x == x);
            assert(limbs_value(out@) == 0);
        }
        while i < n
            invariant
                i <= n == a.len(),
                a == self.limbs@,
                out.len() == i,
                carry <= 0xffff_ffff,
                limbs_value(out@) + pow2(32 * i as nat) * (carry + m * high(a, i as int))
                    == limbs_value(a) * m,
            decreases n - i,
        {
            let x: u64 = self.limbs[i] as u64;
            assert(x * m <= 0xffff_ffff * 0xffff_ffff) by (nonlinear_arith)
                requires
                    0 <= x <= 0xffff_ffff,
                    0 <= m <= 0xffff_ffff,
            ;
            let s: u64 = x * m as u64 + carry;
            let low: u32 = (s % 0x1_0000_0000) as u32;
            let ghost before = out@;
            proof {
                lemma_high_step(a, i as int);
                lemma_limbs_push(before, low);
                lemma2_to64();
                lemma_pow2_adds(32 * i as nat, 32);
                assert(32 * i + 32 == 32 * (i + 1));
                let p = pow2(32 * i as nat);
                let h = high(a, i + 1);
                let c = s / 0x1_0000_0000;
                assert(m * (x + 0x1_0000_0000 * h) == x * m + 0x1_0000_0000 * (m * h))
                    by (nonlinear_arith);
                assert(carry + m * high(a, i as int) == s + 0x1_0000_0000 * (m * h));
                assert(p * (low + 0x1_0000_0000 * (c + m * h)) == low as nat * p + (p
                    * 0x1_0000_0000) * (c + m * h)) by (nonlinear_arith);
                assert(c <= 0xffff_ffff) by (nonlinear_arith)
                    requires
                        c == s / 0x1_0000_0000,
                        s <= 0xffff_ffff * 0xffff_ffff + 0xffff_ffff,
                ;
            }
            out.push(low);
            carry = s / 0x1_0000_0000;
            i += 1;
        }
        let ghost before = out@;
        out.push(carry as u32);
        proof {
            lemma_limbs_push(before, carry as u32);
            assert(a.skip(n as int) =~= Seq::empty());
            let p = pow2(32 * n as nat);
            assert(m * 0 == 0);
            assert(p * carry == carry as nat * p) by (nonlinear_arith);
        }
        BigNat { limbs: out }
    }

    /// The number times `2^32`.
    fn up_a_limb(&self) -> (r: Self)
        ensures
            r.view() == self.view() * 0x1_0000_0000,
    {
        let mut out: Vec<u32> = Vec::new();
        out.push(0);
        let mut i: usize = 0;
        while i < self.limbs.len()
            invariant
                i <= self.limbs.len(),
                out.len() == i + 1,
                out@[0] == 0,
                forall|j: int| 0 <= j < i ==> #[trigger] out@[j + 1] == self.limbs@[j],
            decreases self.limbs.len() - i,
        {
            let ghost before = out@;
            out.push(self.limbs[i]);
            proof {
                assert forall|j: int| 0 <= j < i + 1 implies #[trigger] out@[j + 1]
                    == self.limbs@[j] by {
                    if j < i {
                        assert(before[j + 1] == self.limbs@[j]);
                    }
                }
            }
            i += 1;
        }
        proof {
            let t = out@.skip(1);
            assert forall|j: int| 0 <= j < t.len() implies t[j] == self.limbs@[j] by {
                assert(out@[j + 1] == self.limbs@[j]);
            }
            assert(t =~= self.limbs@);
        }
        BigNat { limbs: out }
    }

    /// The product of two numbers.
    pub fn times(&self, other: &BigNat) -> (r: Self)
        ensures
            r.view() == self.view() * other.view(),
    {
        let ghost b = other.limbs@;
        let mut r: BigNat = BigNat::small(0);
        let mut k: usize = other.limbs.len();
        proof {
            assert(b.skip(k as int) =~= Seq::empty());
            assert(self.view() * 0 == 0);
        }
        while k > 0
            invariant
                k <= other.limbs.len(),
                b == other.limbs@,
                r.view() == self.view() * high(b, k as int),
            decreases k,
        {
            k -= 1;
            proof {
                lemma_high_step(b, k as int);
                let x = b[k as int] as nat;
                let h = high(b, k + 1);
                let a = self.view();
                assert((a * h) * 0x1_0000_0000 + a * x == a * (x + 0x1_0000_0000 * h))
                    by (nonlinear_arith);
            }
            let part: BigNat = self.times_limb(other.limbs[k]);
            r = r.up_a_limb().plus(&part);
        }
        assert(b.skip(0) =~= b);
        r
    }

    /// The number, if it fits.
    pub fn to_u32(&self) -> (r: Option<u32>)
        ensures
            match r {
                Some(v) => v == self.view(),
                None => self.view() > u32::MAX,
            },
    {
        let mut k: usize = self.limbs.len();
        if k == 0 {
            return Some(0);
        }
        assert(self.limbs@.skip(k as int) =~= Seq::empty());
        proof {
            assert(self.limbs@.skip(0) =~= self.limbs@);
            lemma_high_step(self.limbs@, 0);
        }
        while k > 1
            invariant
                1 <= k <= self.limbs.len(),
                high(self.limbs@, k as int) == 0,
                self.view() == self.limbs@[0] as nat + 0x1_0000_0000 * high(self.limbs@, 1),
            decreases k,
        {
            if self.limbs[k - 1] > 0 {
                proof {
                    lemma_high_positive(self.limbs@, 1, k - 1);
                }
                return None;
            }
            proof {
                lemma_high_step(self.limbs@, k - 1);
            }
            k -= 1;
        }
        Some(self.limbs[0])
    }

    /// How many bits the number has.
    pub fn bits(&self) -> (n: u128)
        ensures
            self.view() == 0 ==> n == 0,
            self.view() > 0 ==> pow2((n - 1) as nat) <= self.view() < pow2(n as nat) && n >= 1,
    {
        let mut k: usize = self.limbs.len();
        proof {
            lemma2_to64();
            assert(self.limbs@.skip(k as int) =~= Seq::empty());
        }
        while k > 0 && self.limbs[k - 1] == 0
            invariant
                k <= self.limbs.len(),
                high(self.limbs@, k as int) == 0,
            decreases k,
        {
            proof {
                lemma_high_step(self.limbs@, k - 1);
            }
            k -= 1;
        }
        proof {
            lemma_limbs_split(self.limbs@, k as int);
            assert(pow2(32 * k as nat) * 0 == 0);
        }
        if k == 0 {
            assert(self.limbs@.take(0) =~= Seq::empty());
            return 0;
        }
        let top: u32 = self.limbs[k - 1];
        let mut n: u128 = 0;
        let mut left: u32 = top;
        let ghost mut above: nat = 1;
        while left > 0
            invariant
                n <= 32,
                top > 0,
                above == pow2(n as nat),
                left as nat == top as nat / above,
                n > 0 ==> pow2((n - 1) as nat) <= top,
                left as nat * above <= top,
                n == 0 ==> left == top,
            decreases left,
        {
            proof {
                lemma_pow2_adds(n as nat, 1);
                lemma2_to64();
                vstd::arithmetic::div_mod::lemma_div_denominator(top as int, above as int, 2);
                vstd::arithmetic::div_mod::lemma_fundamental_div_mod(top as int, above as int);
                assert(above <= left as nat * above) by (nonlinear_arith)
                    requires
                        left >= 1,
                ;
                if n == 32 {
                    assert(false);
                }
                let half = left / 2;
                assert(half as nat * (2 * above) <= left as nat * above) by (nonlinear_arith)
                    requires
                        2 * half <= left,
                ;
                above = 2 * above;
            }
            n += 1;
            left = left / 2;
        }
        proof {
            vstd::arithmetic::div_mod::lemma_fundamental_div_mod(top as int, above as int);
            lemma_pow2_pos(n as nat);
            vstd::arithmetic::div_mod::lemma_mod_bound(top as int, above as int);
            assert(above * 0 == 0);
            assert(top < pow2(n as nat));
            let low = limbs_value(self.limbs@.take(k - 1));
            lemma_limbs_split(self.limbs@, k - 1);
            lemma_high_step(self.limbs@, k - 1);
            lemma_limbs_bound(self.limbs@.take(k - 1));
            let e = 32 * (k - 1) as nat;
            let p = pow2(e);
            lemma_pow2_adds(e, n as nat);
            lemma_pow2_adds(e, (n - 1) as nat);
            assert(self.view() == low + p * top);
            let q = pow2((n - 1) as nat);
            let w = pow2(n as nat);
            lemma_pow2_pos(e);
            lemma_pow2_pos((n - 1) as nat);
            assert(p * q > 0) by (nonlinear_arith)
                requires
                    p > 0,
                    q > 0,
            ;
            assert(p * q <= low + p * top) by (nonlinear_arith)
                requires
                    q <= top,
                    low >= 0,
                    p >= 0,
            ;
            assert(low + p * top < p * w) by (nonlinear_arith)
                requires
                    top + 1 <= w,
                    low < p,
            ;
        }
        32 * (k as u128 - 1) + n
    }

    /// The number less one.
    fn less_one(&self) -> (r: Self)
        requires
            self.view() > 0,
        ensures
            r.view() == self.view() - 1,
    {
        let n: usize = self.limbs.len();
        let ghost a = self.limbs@;
        let mut out: Vec<u32> = Vec::with_capacity(n);
        let mut borrow: u32 = 1;
        let mut i: usize = 0;
        proof {
            lemma2_to64();
            assert(a.skip(0) =~= a);
            assert(32 * i as nat == 0);
            assert(1 * high(a, 0) == high(a, 0));
            assert(limbs_value(out@) == 0);
        }
        while i < n
            invariant
                i <= n == a.len(),
                a == self.limbs@,
                out.len() == i,
                borrow <= 1,
                limbs_value(out@) + pow2(32 * i as nat) * high(a, i as int) == limbs_value(a) - 1
                    + pow2(32 * i as nat) * borrow,
            decreases n - i,
        {
            let x: u32 = self.limbs[i];
            let ghost before = out@;
            let ghost old_borrow = borrow;
            let low: u32 = if borrow == 0 {
                x
            } else if x == 0 {
                0xffff_ffff
            } else {
                borrow = 0;
                x - 1
            };
            proof {
                lemma_high_step(a, i as int);
                lemma_limbs_push(before, low);
                lemma2_to64();
                lemma_pow2_adds(32 * i as nat, 32);
                assert(32 * i + 32 == 32 * (i + 1));
                let p = pow2(32 * i as nat);
                let h = high(a, i + 1);
                assert(p * (x + 0x1_0000_0000 * h) == x as nat * p + (p * 0x1_0000_0000) * h)
                    by (nonlinear_arith);
                assert(low as nat * p + p * old_borrow == x as nat * p + (p * 0x1_0000_0000)
                    * borrow) by (nonlinear_arith)
                    requires
                        low + old_borrow == x + 0x1_0000_0000 * borrow,
                ;
            }
            out.push(low);
            i += 1;
        }
        proof {
            assert(a.skip(n as int) =~= Seq::empty());
            lemma_limbs_bound(out@);
            let p = pow2(32 * n as nat);
            assert(p * 0 == 0);
            assert(p * 1 == p);
        }
        BigNat { limbs: out }
    }

    /// The least power of two, by its exponent, that is no smaller than the number.
    pub fn ceil_log2(&self) -> (n: u128)
        requires
            self.view() > 0,
        ensures
            self.view() <= pow2(n as nat),
            n > 0 ==> pow2((n - 1) as nat) < self.view(),
    {
        proof {
            lemma2_to64();
        }
        self.less_one().bits()
    }
}

/// The limbs from `k` on, nothing past the end.
spec fn high_or_zero(s: Seq<u32>, k: int) -> nat {
    if k < s.len() {
        high(s, k)
    } else {
        0
    }
}

proof fn lemma_limbs_split(s: Seq<u32>, k: int)
    requires
        0 <= k <= s.len(),
    ensures
        limbs_value(s) == limbs_value(s.take(k)) + pow2(32 * k as nat) * high(s, k),
    decreases k,
{
    lemma2_to64();
    if k == 0 {
        assert(s.take(0) =~= Seq::empty());
        assert(s.skip(0) =~= s);
        assert(1 * high(s, 0) == high(s, 0));
    } else {
        lemma_limbs_split(s, k - 1);
        lemma_high_step(s, k - 1);
        assert(s.take(k) =~= s.take(k - 1).push(s[k - 1]));
        lemma_limbs_push(s.take(k - 1), s[k - 1]);
        lemma_pow2_adds(32 * (k - 1) as nat, 32);
        assert(32 * (k - 1) + 32 == 32 * k);
        let p = pow2(32 * (k - 1) as nat);
        let x = s[k - 1] as nat;
        let h = high(s, k);
        assert(p * (x + 0x1_0000_0000 * h) == x * p + (p * 0x1_0000_0000) * h) by (nonlinear_arith);
    }
}

proof fn lemma_limbs_bound(s: Seq<u32>)
    ensures
        limbs_value(s) < pow2(32 * s.len()),
    decreases s.len(),
{
    lemma2_to64();
    if s.len() > 0 {
        let t = s.skip(1);
        lemma_limbs_bound(t);
        lemma_pow2_adds(32, 32 * t.len());
        assert(32 + 32 * t.len() == 32 * s.len());
    }
}

} // verus!
