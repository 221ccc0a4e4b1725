//! Deterministic random draws: the SplitMix64 stream and what is drawn from it.

use vstd::arithmetic::div_mod::{lemma_div_denominator, lemma_fundamental_div_mod};
use vstd::arithmetic::power2::{lemma2_to64, lemma_pow2_adds, lemma_pow2_pos, pow2};
use vstd::prelude::*;

verus! {

/// The state that follows `s`.
pub open spec fn next_state(s: u64) -> u64 {
    s.wrapping_add(0x9E37_79B9_7F4A_7C15)
}

/// The output that belongs to state `s`.
pub open spec fn mixed(s: u64) -> u64 {
    let a = (s ^ (s >> 30)).wrapping_mul(0xBF58_476D_1CE4_E5B9);
    let b = (a ^ (a >> 27)).wrapping_mul(0x94D0_49BB_1331_11EB);
    b ^ (b >> 31)
}

/// The state after `k` outputs from `seed`.
pub open spec fn state_after(seed: u64, k: nat) -> u64
    decreases k,
{
    if k == 0 {
        seed
    } else {
        next_state(state_after(seed, (k - 1) as nat))
    }
}

/// The `k`-th output from `seed`, counted from zero.
pub open spec fn output(seed: u64, k: nat) -> u64 {
    mixed(state_after(seed, k + 1))
}

/// SplitMix64: advances the state and returns its output.
pub fn splitmix64(state: &mut u64) -> (r: u64)
    ensures
        *final(state) == next_state(*old(state)),
        r == mixed(next_state(*old(state))),
{
    *state = state.wrapping_add(0x9E37_79B9_7F4A_7C15);
    let s: u64 = *state;
    let a: u64 = (s ^ (s >> 30)).wrapping_mul(0xBF58_476D_1CE4_E5B9);
    let b: u64 = (a ^ (a >> 27)).wrapping_mul(0x94D0_49BB_1331_11EB);
    b ^ (b >> 31)
}

/// The high 53 bits of an output: a uniform fraction in units of `2^-53`.
pub fn next_u53(state: &mut u64) -> (r: u64)
    ensures
        *final(state) == next_state(*old(state)),
        r == mixed(next_state(*old(state))) >> 11,
        r < 0x20_0000_0000_0000,
{
    let z: u64 = splitmix64(state);
    assert(z >> 11 < 0x20_0000_0000_0000) by (bit_vector);
    z >> 11
}

/// How many binary digits `v` has.
pub open spec fn bit_length(v: nat) -> nat
    decreases v,
{
    if v == 0 {
        0
    } else {
        1 + bit_length(v / 2)
    }
}

/// `p` rounded to 53 significant binary digits, to nearest, ties to even.
pub open spec fn round53(p: nat) -> nat {
    if bit_length(p) <= 53 {
        p
    } else {
        let unit = pow2((bit_length(p) - 53) as nat);
        let q = p / unit;
        let r = p % unit;
        if 2 * r > unit || (2 * r == unit && q % 2 == 1) {
            (q + 1) * unit
        } else {
            q * unit
        }
    }
}

/// The index in `0..=i` that the fraction `u * 2^-53` selects: the product of the two as a
/// double-precision number, rounded down, and never above `i`.
pub open spec fn picked(u: u64, i: nat) -> nat {
    let j = round53(u as nat * (i + 1)) / 0x20_0000_0000_0000;
    if j <= i {
        j
    } else {
        i
    }
}

proof fn lemma_bit_length_halves(p: nat, k: nat)
    ensures
        p / pow2(k) > 0 ==> bit_length(p) == k + bit_length(p / pow2(k)),
    decreases k,
{
    lemma2_to64();
    if k > 0 {
        lemma_bit_length_halves(p, (k - 1) as nat);
        lemma_pow2_adds((k - 1) as nat, 1);
        lemma_pow2_pos((k - 1) as nat);
        lemma_pow2_pos(k);
        let h = p / pow2((k - 1) as nat);
        lemma_div_denominator(p as int, pow2((k - 1) as nat) as int, 2);
        assert(p / pow2(k) == h / 2);
        if p / pow2(k) > 0 {
            assert(h > 0);
        }
    } else {
        assert(p as int / 1 == p);
    }
}

proof fn lemma_bit_length_range(v: nat, k: nat)
    ensures
        bit_length(v) <= k <==> v < pow2(k),
    decreases k,
{
    lemma2_to64();
    if k == 0 {
        reveal_with_fuel(bit_length, 2);
    } else {
        lemma_pow2_adds((k - 1) as nat, 1);
        lemma_pow2_pos(k);
        if v > 0 {
            lemma_bit_length_range(v / 2, (k - 1) as nat);
        }
    }
}

/// The index in `0..=i` that a fraction selects.
fn pick_index(u: u64, i: usize) -> (j: usize)
    requires
        u < 0x20_0000_0000_0000,
    ensures
        j == picked(u, i as nat),
        j <= i,
{
    let bound: u128 = i as u128 + 1;
    assert(u as u128 * bound <= 0x20_0000_0000_0000 * 0x1_0000_0000_0000_0000) by (nonlinear_arith)
        requires
            u < 0x20_0000_0000_0000,
            bound <= 0x1_0000_0000_0000_0000,
    ;
    assert(u as u128 * bound >= 0) by (nonlinear_arith)
        requires
            u >= 0,
            bound >= 0,
    ;
    let p: u128 = u as u128 * bound;
    let mut q: u128 = p;
    let mut unit: u128 = 1;
    let ghost mut k: nat = 0;
    proof {
        lemma2_to64();
        assert(p as int / 1 == p);
    }
    while q >= 0x20_0000_0000_0000
        invariant
            unit == pow2(k),
            q == p as nat / pow2(k),
            p < 0x8000_0000_0000_0000_0000_0000_0000_0000,
            k > 0 ==> p as nat / pow2((k - 1) as nat) >= 0x20_0000_0000_0000,
            unit <= p || k == 0,
        decreases q,
    {
        proof {
            lemma2_to64();
            lemma_pow2_adds(k, 1);
            lemma_pow2_pos(k);
            lemma_div_denominator(p as int, pow2(k) as int, 2);
            lemma_fundamental_div_mod(p as int, pow2(k) as int);
            assert(2 * unit <= p) by (nonlinear_arith)
                requires
                    p == unit * q + p % unit,
                    p % unit >= 0,
                    q >= 2,
                    unit > 0,
            ;
            k = k + 1;
        }
        q = q / 2;
        unit = unit * 2;
    }
    let mut rounded: u128 = q;
    proof {
        lemma2_to64();
        vstd::arithmetic::power2::lemma2_to64_rest();
        lemma_pow2_pos(k);
        lemma_fundamental_div_mod(p as int, unit as int);
        if k > 0 {
            // The quotient has exactly 53 digits.
            let h = p as nat / pow2((k - 1) as nat);
            lemma_pow2_adds((k - 1) as nat, 1);
            lemma_pow2_pos((k - 1) as nat);
            lemma_div_denominator(p as int, pow2((k - 1) as nat) as int, 2);
            assert(q == h / 2);
            assert(q >= 0x10_0000_0000_0000);
            lemma_bit_length_range(q as nat, 53);
            lemma_bit_length_range(q as nat, 52);
            lemma_bit_length_halves(p as nat, k);
            assert(bit_length(p as nat) == k + 53);
        } else {
            lemma_bit_length_range(p as nat, 53);
        }
    }
    let r: u128 = p % unit;
    if unit > 1 && (r > unit - r || (r == unit - r && q % 2 == 1)) {
        rounded = q + 1;
    }
    proof {
        if k == 0 {
            assert(round53(p as nat) == p);
            assert(p as int % 1 == 0);
        } else {
            assert(round53(p as nat) == rounded * unit);
        }
        assert(rounded * unit == round53(p as nat));
        assert(rounded * unit <= p + unit) by (nonlinear_arith)
            requires
                p == unit * q + r,
                r >= 0,
                rounded <= q + 1,
                unit >= 0,
        ;
    }
    let j: u128 = (rounded * unit) / 0x20_0000_0000_0000;
    if j <= i as u128 {
        j as usize
    } else {
        i
    }
}

/// The numbers below `n`, in order.
pub open spec fn identity(n: nat) -> Seq<usize> {
    Seq::new(n, |i: int| i as usize)
}

/// `s` with its items at `i` and `j` exchanged.
pub open spec fn swapped(s: Seq<usize>, i: int, j: int) -> Seq<usize> {
    s.update(i, s[j]).update(j, s[i])
}

/// Fisher-Yates from position `i` down to the second: each position is exchanged with one that
/// is drawn from those up to it.
pub open spec fn shuffle_down(s: Seq<usize>, state: u64, i: nat) -> Seq<usize>
    decreases i,
{
    if i == 0 {
        s
    } else {
        let st = next_state(state);
        let j = picked(mixed(st) >> 11, i);
        shuffle_down(swapped(s, i as int, j as int), st, (i - 1) as nat)
    }
}

/// The numbers below `n` in the order that `seed` shuffles them to.
pub open spec fn shuffled(n: nat, seed: u64) -> Seq<usize> {
    shuffle_down(
        identity(n),
        seed,
        if n == 0 {
            0
        } else {
            (n - 1) as nat
        },
    )
}

/// `s` lists each number below `n` once.
pub open spec fn is_permutation(s: Seq<usize>, n: nat) -> bool {
    &&& s.len() == n
    &&& s.no_duplicates()
    &&& forall|i: int| 0 <= i < s.len() ==> (#[trigger] s[i]) < n
}

proof fn lemma_swap_permutes(s: Seq<usize>, n: nat, i: int, j: int)
    requires
        is_permutation(s, n),
        0 <= i < n,
        0 <= j < n,
    ensures
        is_permutation(swapped(s, i, j), n),
{
    let t = swapped(s, i, j);
    assert forall|a: int, b: int| 0 <= a < t.len() && 0 <= b < t.len() && a != b implies t[a]
        != t[b] by {
        let x = if a == i {
            j
        } else if a == j {
            i
        } else {
            a
        };
        let y = if b == i {
            j
        } else if b == j {
            i
        } else {
            b
        };
        assert(t[a] == s[x] && t[b] == s[y]);
        assert(x != y);
    }
}

proof fn lemma_shuffle_permutes(s: Seq<usize>, n: nat, state: u64, i: nat)
    requires
        is_permutation(s, n),
        i < n || i == 0,
    ensures
        is_permutation(shuffle_down(s, state, i), n),
    decreases i,
{
    if i > 0 {
        let st = next_state(state);
        let j = picked(mixed(st) >> 11, i);
        lemma_swap_permutes(s, n, i as int, j as int);
        lemma_shuffle_permutes(swapped(s, i as int, j as int), n, st, (i - 1) as nat);
    }
}

/// Shuffling loses no number and repeats none.
pub proof fn shuffled_is_permutation(n: nat, seed: u64)
    requires
        n <= usize::MAX,
    ensures
        is_permutation(shuffled(n, seed), n),
{
    assert(is_permutation(identity(n), n));
    lemma_shuffle_permutes(
        identity(n),
        n,
        seed,
        if n == 0 {
            0
        } else {
            (n - 1) as nat
        },
    );
}

/// The numbers below `n`, in order.
fn counting(n: usize) -> (v: Vec<usize>)
    ensures
        v@ == identity(n as nat),
{
    let mut v: Vec<usize> = Vec::with_capacity(n);
    let mut i: usize = 0;
    while i < n
        invariant
            i <= n,
            v@ == identity(i as nat),
        decreases n - i,
    {
        v.push(i);
        i += 1;
        assert(v@ =~= identity(i as nat));
    }
    v
}

/// Exchanges two items.
fn exchange(v: &mut Vec<usize>, i: usize, j: usize)
    requires
        i < old(v)@.len(),
        j < old(v)@.len(),
    ensures
        final(v)@ == swapped(old(v)@, i as int, j as int),
{
    let a: usize = v[i];
    let b: usize = v[j];
    v[i] = b;
    v[j] = a;
    assert(v@ =~= swapped(old(v)@, i as int, j as int));
}

/// The numbers below `n` in the order that `seed` shuffles them to.
pub fn shuffle(n: usize, seed: u64) -> (v: Vec<usize>)
    ensures
        v@ == shuffled(n as nat, seed),
        is_permutation(v@, n as nat),
{
    let mut v: Vec<usize> = counting(n);
    let mut state: u64 = seed;
    let mut i: usize = if n == 0 {
        0
    } else {
        n - 1
    };
    while i > 0
        invariant
            v@.len() == n,
            i < n || i == 0,
            shuffle_down(v@, state, i as nat) == shuffled(n as nat, seed),
        decreases i,
    {
        let u: u64 = next_u53(&mut state);
        let j: usize = pick_index(u, i);
        exchange(&mut v, i, j);
        i -= 1;
    }
    proof {
        shuffled_is_permutation(n as nat, seed);
    }
    v
}

/// The first `k` of the shuffled numbers below `n`: all of them if there are fewer.
pub fn sample(n: usize, k: usize, seed: u64) -> (v: Vec<usize>)
    ensures
        v@ == shuffled(n as nat, seed).take(
            if k < n {
                k as int
            } else {
                n as int
            },
        ),
{
    let mut v: Vec<usize> = shuffle(n, seed);
    if k < n {
        v.truncate(k);
    }
    assert(v@ =~= shuffled(n as nat, seed).take(
        if k < n {
            k as int
        } else {
            n as int
        },
    ));
    v
}

/// A draw without replacement: position after position is exchanged with one that is picked
/// from those not yet drawn.
pub open spec fn drawn_from(s: Seq<usize>, state: u64, position: nat, draw: nat) -> Seq<usize>
    decreases draw - position,
{
    if position >= draw || draw > s.len() {
        s
    } else {
        let st = next_state(state);
        let pick = position + mixed(st) as nat % (s.len() - position) as nat;
        drawn_from(swapped(s, position as int, pick as int), st, position + 1, draw)
    }
}

/// `draw` numbers below `n`, drawn without replacement.
pub open spec fn drawn(n: nat, draw: nat, seed: u64) -> Seq<usize> {
    drawn_from(identity(n), seed, 0, draw).take(draw as int)
}

proof fn lemma_drawn_permutes(s: Seq<usize>, n: nat, state: u64, position: nat, draw: nat)
    requires
        is_permutation(s, n),
        position <= draw <= n,
    ensures
        is_permutation(drawn_from(s, state, position, draw), n),
    decreases draw - position,
{
    if position < draw {
        let st = next_state(state);
        let pick = position + mixed(st) as nat % (s.len() - position) as nat;
        vstd::arithmetic::div_mod::lemma_mod_pos_bound(
            mixed(st) as int,
            (s.len() - position) as int,
        );
        lemma_swap_permutes(s, n, position as int, pick as int);
        lemma_drawn_permutes(
            swapped(s, position as int, pick as int),
            n,
            st,
            position + 1,
            draw,
        );
    }
}

/// A draw without replacement repeats no number.
pub proof fn drawn_is_distinct(n: nat, draw: nat, seed: u64)
    requires
        draw <= n <= usize::MAX,
    ensures
        drawn(n, draw, seed).len() == draw,
        drawn(n, draw, seed).no_duplicates(),
        forall|i: int| 0 <= i < draw ==> (#[trigger] drawn(n, draw, seed)[i]) < n,
{
    assert(is_permutation(identity(n), n));
    lemma_drawn_permutes(identity(n), n, seed, 0, draw);
}

/// `draw` numbers below `n`, drawn without replacement.
pub fn draw_sample(n: usize, draw: usize, seed: u64) -> (v: Vec<usize>)
    requires
        draw <= n,
    ensures
        v@ == drawn(n as nat, draw as nat, seed),
{
    let mut v: Vec<usize> = counting(n);
    let mut state: u64 = seed;
    let mut position: usize = 0;
    while position < draw
        invariant
            position <= draw <= n,
            v@.len() == n,
            drawn_from(v@, state, position as nat, draw as nat) == drawn_from(
                identity(n as nat),
                seed,
                0,
                draw as nat,
            ),
        decreases draw - position,
    {
        let z: u64 = splitmix64(&mut state);
        let pick: usize = position + (z % ((n - position) as u64)) as usize;
        exchange(&mut v, position, pick);
        position += 1;
    }
    v.truncate(draw);
    assert(v@ =~= drawn(n as nat, draw as nat, seed));
    v
}

/// The state of the level generator after `s`.
pub open spec fn xorshift(s: u64) -> u64 {
    let a = s ^ (s << 13);
    let b = a ^ (a >> 7);
    b ^ (b << 17)
}

/// The state of the level generator after `k` draws from `seed`; a zero seed counts as one.
pub open spec fn xorshift_after(seed: u64, k: nat) -> u64
    decreases k,
{
    if k == 0 {
        if seed == 0 {
            1
        } else {
            seed
        }
    } else {
        xorshift(xorshift_after(seed, (k - 1) as nat))
    }
}

/// The fractions, in units of `2^-53`, from which the levels of `n` graph nodes are derived.
pub fn level_draws(n: usize, seed: u64) -> (v: Vec<u64>)
    ensures
        v.len() == n,
        forall|i: int|
            0 <= i < n ==> #[trigger] v@[i] == xorshift_after(seed, (i + 1) as nat) >> 11,
{
    let mut v: Vec<u64> = Vec::with_capacity(n);
    let mut s: u64 = if seed == 0 {
        1
    } else {
        seed
    };
    let mut i: usize = 0;
    while i < n
        invariant
            i <= n,
            v.len() == i,
            s == xorshift_after(seed, i as nat),
            forall|j: int|
                0 <= j < i ==> #[trigger] v@[j] == xorshift_after(seed, (j + 1) as nat) >> 11,
        decreases n - i,
    {
        let a: u64 = s ^ (s << 13);
        let b: u64 = a ^ (a >> 7);
        s = b ^ (b << 17);
        i += 1;
        assert(s == xorshift_after(seed, i as nat));
        v.push(s >> 11);
    }
    v
}

/// The points at which `k` clusters of `n` points start: each output picks one.
pub fn coarse_seeds(n: usize, k: usize, seed: u64) -> (v: Vec<usize>)
    requires
        n > 0,
    ensures
        v.len() == k,
        forall|i: int| 0 <= i < k ==> #[trigger] v@[i] == output(seed, i as nat) % (n as u64),
{
    let mut v: Vec<usize> = Vec::with_capacity(k);
    let mut state: u64 = seed;
    let mut i: usize = 0;
    while i < k
        invariant
            n > 0,
            i <= k,
            v.len() == i,
            state == state_after(seed, i as nat),
            forall|j: int| 0 <= j < i ==> #[trigger] v@[j] == output(seed, j as nat) % (n as u64),
        decreases k - i,
    {
        let z: u64 = splitmix64(&mut state);
        v.push((z % (n as u64)) as usize);
        i += 1;
    }
    v
}

// ---- What the generators promise ----

/// The state counts up in steps of one constant, modulo `2^64`.
pub proof fn the_state_is_a_counter(seed: u64, k: nat)
    ensures
        state_after(seed, k) as int == (seed + k * 0x9E37_79B9_7F4A_7C15) % 0x1_0000_0000_0000_0000,
    decreases k,
{
    let m: int = 0x1_0000_0000_0000_0000;
    let g: int = 0x9E37_79B9_7F4A_7C15;
    if k > 0 {
        the_state_is_a_counter(seed, (k - 1) as nat);
        let before = seed + (k - 1) * g;
        assert(seed + k * g == before + g) by (nonlinear_arith)
            requires
                before == seed + (k - 1) * g,
        ;
        vstd::arithmetic::div_mod::lemma_add_mod_noop(before, g, m);
        vstd::arithmetic::div_mod::lemma_small_mod(g as nat, m as nat);
    } else {
        vstd::arithmetic::div_mod::lemma_small_mod(seed as nat, m as nat);
    }
}

/// A stream goes on from where it was left.
pub proof fn a_stream_goes_on(seed: u64, j: nat, k: nat)
    ensures
        state_after(seed, j + k) == state_after(state_after(seed, j), k),
        output(seed, j + k) == output(state_after(seed, j), k),
    decreases k,
{
    lemma_states_add(seed, j, k);
    lemma_states_add(seed, j, k + 1);
}

proof fn lemma_states_add(seed: u64, j: nat, k: nat)
    ensures
        state_after(seed, j + k) == state_after(state_after(seed, j), k),
    decreases k,
{
    if k > 0 {
        lemma_states_add(seed, j, (k - 1) as nat);
    }
}

proof fn lemma_odd_products_undo(x: u64, c: u64, d: u64, q: int)
    requires
        c * d == 1 + q * 0x1_0000_0000_0000_0000,
    ensures
        x.wrapping_mul(c).wrapping_mul(d) == x,
{
    let m: int = 0x1_0000_0000_0000_0000;
    let y = x.wrapping_mul(c);
    lemma_wrapping_product(x, c);
    lemma_wrapping_product(y, d);
    vstd::arithmetic::div_mod::lemma_mul_mod_noop_left(x * c, d as int, m);
    assert((x * c) * d == m * (x * q) + x) by (nonlinear_arith)
        requires
            c * d == 1 + q * m,
    ;
    vstd::arithmetic::div_mod::lemma_mod_multiples_vanish(x * q, x as int, m);
    vstd::arithmetic::div_mod::lemma_small_mod(x as nat, m as nat);
}

proof fn lemma_wrapping_product(x: u64, c: u64)
    ensures
        x.wrapping_mul(c) as int == (x * c) % 0x1_0000_0000_0000_0000,
{
}

/// Every output can be traced back to its state: no two states have the same output.
pub proof fn outputs_can_be_traced_back(s: u64)
    ensures
        ({
            let c = mixed(s) ^ (mixed(s) >> 31) ^ (mixed(s) >> 62);
            let b = c.wrapping_mul(0x3196_42B2_D24D_8EC3);
            let a = b ^ (b >> 27) ^ (b >> 54);
            let z = a.wrapping_mul(0x96DE_1B17_3F11_9089);
            z ^ (z >> 30) ^ (z >> 60) == s
        }),
{
    let p = s ^ (s >> 30);
    let a = p.wrapping_mul(0xBF58_476D_1CE4_E5B9);
    let q = a ^ (a >> 27);
    let b = q.wrapping_mul(0x94D0_49BB_1331_11EB);
    let r = b ^ (b >> 31);
    assert(r ^ (r >> 31) ^ (r >> 62) == b) by (bit_vector)
        requires
            r == b ^ (b >> 31),
    ;
    lemma_odd_products_undo(q, 0x94D0_49BB_1331_11EB, 0x3196_42B2_D24D_8EC3, 2077064247507883091);
    assert(q ^ (q >> 27) ^ (q >> 54) == a) by (bit_vector)
        requires
            q == a ^ (a >> 27),
    ;
    lemma_odd_products_undo(p, 0xBF58_476D_1CE4_E5B9, 0x96DE_1B17_3F11_9089, 8125545580553827436);
    assert(p ^ (p >> 30) ^ (p >> 60) == s) by (bit_vector)
        requires
            p == s ^ (s >> 30),
    ;
}

/// The level generator can be run backwards, and it never reaches zero.
pub proof fn levels_can_be_traced_back(seed: u64, k: nat)
    ensures
        xorshift_after(seed, k) != 0,
        ({
            let z = xorshift_after(seed, k + 1);
            let b = z ^ (z << 17) ^ (z << 34) ^ (z << 51);
            let a = b ^ (b >> 7) ^ (b >> 14) ^ (b >> 21) ^ (b >> 28) ^ (b >> 35) ^ (b >> 42) ^ (b
                >> 49) ^ (b >> 56) ^ (b >> 63);
            a ^ (a << 13) ^ (a << 26) ^ (a << 39) ^ (a << 52) == xorshift_after(seed, k)
        }),
        xorshift_after(seed, 0) == if seed == 0 {
            1
        } else {
            seed
        },
    decreases k,
{
    if k > 0 {
        levels_can_be_traced_back(seed, (k - 1) as nat);
        lemma_xorshift_back(xorshift_after(seed, (k - 1) as nat));
    }
    lemma_xorshift_back(xorshift_after(seed, k));
}

proof fn lemma_xorshift_back(s: u64)
    ensures
        ({
            let z = xorshift(s);
            let b = z ^ (z << 17) ^ (z << 34) ^ (z << 51);
            let a = b ^ (b >> 7) ^ (b >> 14) ^ (b >> 21) ^ (b >> 28) ^ (b >> 35) ^ (b >> 42) ^ (b
                >> 49) ^ (b >> 56) ^ (b >> 63);
            a ^ (a << 13) ^ (a << 26) ^ (a << 39) ^ (a << 52) == s
        }),
        s != 0 ==> xorshift(s) != 0,
{
    let a = s ^ (s << 13);
    let b = a ^ (a >> 7);
    let z = b ^ (b << 17);
    assert(z ^ (z << 17) ^ (z << 34) ^ (z << 51) == b) by (bit_vector)
        requires
            z == b ^ (b << 17),
    ;
    assert(b ^ (b >> 7) ^ (b >> 14) ^ (b >> 21) ^ (b >> 28) ^ (b >> 35) ^ (b >> 42) ^ (b >> 49) ^ (b
        >> 56) ^ (b >> 63) == a) by (bit_vector)
        requires
            b == a ^ (a >> 7),
    ;
    assert(a ^ (a << 13) ^ (a << 26) ^ (a << 39) ^ (a << 52) == s) by (bit_vector)
        requires
            a == s ^ (s << 13),
    ;
    assert(s != 0 ==> z != 0) by (bit_vector)
        requires
            a == s ^ (s << 13),
            b == a ^ (a >> 7),
            z == b ^ (b << 17),
    ;
}

/// A number is rounded to the nearest multiple of the unit in which it has 53 digits, to an even
/// multiple if two are equally near; one with no more digits stays as it is.
pub proof fn rounding_keeps_53_digits(p: nat, e: nat)
    requires
        pow2(e) * 0x10_0000_0000_0000 <= p < pow2(e) * 0x20_0000_0000_0000,
    ensures
        round53(p) as int % pow2(e) as int == 0,
        2 * (round53(p) - p) <= pow2(e),
        2 * (p - round53(p)) <= pow2(e),
        2 * (round53(p) - p) == pow2(e) || 2 * (p - round53(p)) == pow2(e) ==> e == 0 || (round53(p)
            as int / pow2(e) as int) % 2 == 0,
        e == 0 ==> round53(p) == p,
{
    lemma2_to64();
    vstd::arithmetic::power2::lemma2_to64_rest();
    lemma_pow2_pos(e);
    lemma_pow2_adds(e, 52);
    lemma_pow2_adds(e, 53);
    lemma_bit_length_range(p, e + 53);
    lemma_bit_length_range(p, (e + 52) as nat);
    assert(bit_length(p) == e + 53);
    let u = pow2(e) as int;
    let q = p as int / u;
    let r = p as int % u;
    lemma_fundamental_div_mod(p as int, u);
    if e == 0 {
        assert(u == 1);
    } else {
        assert((q + 1) * u == u * q + u && q * u == u * q) by (nonlinear_arith);
        vstd::arithmetic::div_mod::lemma_mod_multiples_basic(q, u);
        vstd::arithmetic::div_mod::lemma_mod_multiples_basic(q + 1, u);
        vstd::arithmetic::div_mod::lemma_div_by_multiple(q, u);
        vstd::arithmetic::div_mod::lemma_div_by_multiple(q + 1, u);
    }
}

/// Numbers of at most 53 digits stay as they are.
pub proof fn rounding_keeps_small_numbers(p: nat)
    requires
        p <= 0x20_0000_0000_0000,
    ensures
        round53(p) == p,
{
    lemma2_to64();
    vstd::arithmetic::power2::lemma2_to64_rest();
    lemma_bit_length_range(p, 53);
    if p == 0x20_0000_0000_0000 {
        rounding_keeps_53_digits(p, 1);
        lemma_bit_length_range(p, 54);
    }
}

/// The picked index is the rounded product of fraction and count, in units of `2^53`, cut off at
/// the last index.
pub proof fn the_pick_is_proportional(u: u64, i: nat)
    ensures
        picked(u, i) <= i,
        picked(u, i) < i ==> round53(u as nat * (i + 1)) < (picked(u, i) + 1) * 0x20_0000_0000_0000,
        picked(u, i) * 0x20_0000_0000_0000 <= round53(u as nat * (i + 1)),
{
}

/// `steps` exchanges two places at a time: at step `t` place `n - 1 - t` with the one that is
/// picked among those up to it.
pub open spec fn is_shuffling(steps: Seq<Seq<usize>>, n: nat, seed: u64) -> bool {
    forall|t: int| 0 <= t < steps.len() - 1 ==> #[trigger] exchanges_at(steps, n, seed, t)
}

/// Step `t` exchanges place `n - 1 - t` with the one that is picked among those up to it.
pub open spec fn exchanges_at(steps: Seq<Seq<usize>>, n: nat, seed: u64, t: int) -> bool {
    let i = n - 1 - t;
    let j = picked(output(seed, t as nat) >> 11, i as nat) as int;
    &&& steps[t + 1].len() == n
    &&& steps[t + 1][i] == steps[t][j]
    &&& steps[t + 1][j] == steps[t][i]
    &&& forall|k: int| 0 <= k < n && k != i && k != j ==> #[trigger] steps[t + 1][k] == steps[t][k]
}

proof fn lemma_shuffling(s: Seq<usize>, n: nat, seed: u64, t: nat) -> (steps: Seq<Seq<usize>>)
    requires
        s.len() == n,
        t < n,
    ensures
        steps.len() == n - t,
        steps[0] == s,
        steps.last() == shuffle_down(s, state_after(seed, t), (n - 1 - t) as nat),
        forall|k: int|
            0 <= k < steps.len() - 1 ==> #[trigger] exchanged(steps[k], steps[k + 1], n, seed, t + k),
    decreases n - t,
{
    if t == n - 1 {
        seq![s]
    } else {
        let i = (n - 1 - t) as nat;
        let st = next_state(state_after(seed, t));
        let j = picked(mixed(st) >> 11, i);
        assert(st == state_after(seed, t + 1));
        let next = swapped(s, i as int, j as int);
        let rest = lemma_shuffling(next, n, seed, t + 1);
        let steps = seq![s] + rest;
        assert forall|k: int| 0 <= k < steps.len() - 1 implies #[trigger] exchanged(
            steps[k],
            steps[k + 1],
            n,
            seed,
            t + k,
        ) by {
            if k > 0 {
                assert(exchanged(rest[k - 1], rest[k - 1 + 1], n, seed, t + 1 + (k - 1)));
                assert(steps[k] == rest[k - 1] && steps[k + 1] == rest[k]);
            }
        }
        assert(steps.last() == rest.last());
        steps
    }
}

spec fn exchanged(a: Seq<usize>, b: Seq<usize>, n: nat, seed: u64, t: int) -> bool {
    let i = n - 1 - t;
    let j = picked(output(seed, t as nat) >> 11, i as nat) as int;
    &&& b.len() == n
    &&& b[i] == a[j]
    &&& b[j] == a[i]
    &&& forall|k: int| 0 <= k < n && k != i && k != j ==> #[trigger] b[k] == a[k]
}

/// A shuffle starts from the numbers in order and exchanges, from the last place down to the
/// second, each place with one that is picked among those up to it.
pub proof fn a_shuffle_is_made_of_exchanges(n: nat, seed: u64) -> (steps: Seq<Seq<usize>>)
    requires
        0 < n <= usize::MAX,
    ensures
        steps.len() == n,
        forall|k: int| 0 <= k < n ==> #[trigger] steps[0][k] == k,
        is_shuffling(steps, n, seed),
        steps.last() == shuffled(n, seed),
{
    let steps = lemma_shuffling(identity(n), n, seed, 0);
    assert forall|t: int| 0 <= t < steps.len() - 1 implies #[trigger] exchanges_at(
        steps,
        n,
        seed,
        t,
    ) by {
        assert(exchanged(steps[t], steps[t + 1], n, seed, 0 + t));
    }
    steps
}

/// Step `t` of a draw exchanges place `t` with one of those from it on: the one that the output
/// names modulo how many they are.
pub open spec fn draws_at(steps: Seq<Seq<usize>>, n: nat, seed: u64, t: int) -> bool {
    let j = t + output(seed, t as nat) as int % (n - t);
    &&& steps[t + 1].len() == n
    &&& steps[t + 1][t] == steps[t][j]
    &&& steps[t + 1][j] == steps[t][t]
    &&& forall|k: int| 0 <= k < n && k != t && k != j ==> #[trigger] steps[t + 1][k] == steps[t][k]
}

spec fn drew(a: Seq<usize>, b: Seq<usize>, n: nat, seed: u64, t: int) -> bool {
    let j = t + output(seed, t as nat) as int % (n - t);
    &&& b.len() == n
    &&& b[t] == a[j]
    &&& b[j] == a[t]
    &&& forall|k: int| 0 <= k < n && k != t && k != j ==> #[trigger] b[k] == a[k]
}

proof fn lemma_drawing(s: Seq<usize>, n: nat, draw: nat, seed: u64, t: nat) -> (steps: Seq<
    Seq<usize>,
>)
    requires
        s.len() == n,
        t <= draw <= n,
    ensures
        steps.len() == draw - t + 1,
        steps[0] == s,
        steps.last() == drawn_from(s, state_after(seed, t), t, draw),
        forall|k: int|
            0 <= k < steps.len() - 1 ==> #[trigger] drew(steps[k], steps[k + 1], n, seed, t + k),
    decreases draw - t,
{
    if t == draw {
        seq![s]
    } else {
        let st = next_state(state_after(seed, t));
        assert(st == state_after(seed, t + 1));
        let pick = t + mixed(st) as nat % (s.len() - t) as nat;
        let next = swapped(s, t as int, pick as int);
        let rest = lemma_drawing(next, n, draw, seed, t + 1);
        let steps = seq![s] + rest;
        assert forall|k: int| 0 <= k < steps.len() - 1 implies #[trigger] drew(
            steps[k],
            steps[k + 1],
            n,
            seed,
            t + k,
        ) by {
            if k > 0 {
                assert(drew(rest[k - 1], rest[k - 1 + 1], n, seed, t + 1 + (k - 1)));
                assert(steps[k] == rest[k - 1] && steps[k + 1] == rest[k]);
            }
        }
        assert(steps.last() == rest.last());
        steps
    }
}

/// A draw without replacement exchanges place after place with one of those not yet drawn.
pub proof fn a_draw_is_made_of_exchanges(n: nat, draw: nat, seed: u64) -> (steps: Seq<Seq<usize>>)
    requires
        draw <= n <= usize::MAX,
    ensures
        steps.len() == draw + 1,
        forall|k: int| 0 <= k < n ==> #[trigger] steps[0][k] == k,
        forall|t: int| 0 <= t < draw ==> #[trigger] draws_at(steps, n, seed, t),
        drawn(n, draw, seed).len() == draw,
        forall|k: int| 0 <= k < draw ==> #[trigger] drawn(n, draw, seed)[k] == steps.last()[k],
{
    let steps = lemma_drawing(identity(n), n, draw, seed, 0);
    assert forall|t: int| 0 <= t < draw implies #[trigger] draws_at(steps, n, seed, t) by {
        assert(drew(steps[t], steps[t + 1], n, seed, 0 + t));
    }
    drawn_is_distinct(n, draw, seed);
    lemma_drawn_permutes(identity(n), n, seed, 0, draw);
    steps
}

} // verus!
