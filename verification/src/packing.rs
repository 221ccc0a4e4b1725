//! Bit-packing of code indices, most significant bit first.
//!
//! A list of `bits`-wide indices is read as one number in base `2^bits`; its packed form is
//! that number, shifted left to a whole number of bytes, written big-endian.

use vstd::arithmetic::div_mod::{
    lemma_div_denominator, lemma_fundamental_div_mod, lemma_fundamental_div_mod_converse,
    lemma_mod_pos_bound,
};
use vstd::arithmetic::power2::{
    lemma2_to64, lemma_pow2_adds, lemma_pow2_pos, lemma_pow2_strictly_increases, pow2,
};
use vstd::prelude::*;

verus! {

/// The digits `vals` in base `2^bits`, first digit highest, as one number.
pub open spec fn number(vals: Seq<nat>, bits: nat) -> nat
    decreases vals.len(),
{
    if vals.len() == 0 {
        0
    } else {
        number(vals.drop_last(), bits) * pow2(bits) + vals.last()
    }
}

/// Every value fits in `bits` bits.
pub open spec fn all_fit(vals: Seq<nat>, bits: nat) -> bool {
    forall|i: int| 0 <= i < vals.len() ==> (#[trigger] vals[i]) < pow2(bits)
}

/// How many bytes `n` indices of `bits` bits take.
pub open spec fn packed_len(n: nat, bits: nat) -> nat {
    (n * bits + 7) as nat / 8
}

/// The bytes of `s` as one big-endian number.
pub open spec fn big_endian(s: Seq<u8>) -> nat
    decreases s.len(),
{
    if s.len() == 0 {
        0
    } else {
        big_endian(s.drop_last()) * 256 + s.last() as nat
    }
}

/// `v` in `len` bytes, big-endian.
pub open spec fn bytes_of(v: nat, len: nat) -> Seq<u8> {
    Seq::new(len, |j: int| ((v / pow2((8 * (len - 1 - j)) as nat)) % 256) as u8)
}

/// The packed form of `vals`.
pub open spec fn packed(vals: Seq<nat>, bits: nat) -> Seq<u8> {
    let len = packed_len(vals.len(), bits);
    bytes_of(number(vals, bits) * pow2((8 * len - vals.len() * bits) as nat), len)
}

/// The `i`-th `bits`-wide field of `data`.
pub open spec fn field(data: Seq<u8>, bits: nat, i: int) -> nat {
    (big_endian(data) / pow2((8 * data.len() - (i + 1) * bits) as nat)) % pow2(bits)
}

/// `data` holds the `i`-th `bits`-wide field in full.
pub open spec fn has_field(data: Seq<u8>, bits: nat, i: int) -> bool {
    (i + 1) * bits <= 8 * data.len()
}

/// The values of narrow indices.
pub open spec fn values16(s: Seq<u16>) -> Seq<nat> {
    Seq::new(s.len(), |i: int| s[i] as nat)
}

/// The values of wide indices.
pub open spec fn values32(s: Seq<u32>) -> Seq<nat> {
    Seq::new(s.len(), |i: int| s[i] as nat)
}

// ---- Arithmetic ----

proof fn lemma_times_two(a: nat, b: nat)
    ensures
        pow2(a + b) == pow2(a) * pow2(b),
        pow2(a) > 0,
        pow2(b) > 0,
{
    lemma_pow2_adds(a, b);
    lemma_pow2_pos(a);
    lemma_pow2_pos(b);
}

/// Dividing by `2^a` and then by `2^b` divides by `2^(a+b)`.
proof fn lemma_div_twice(x: nat, a: nat, b: nat)
    ensures
        (x / pow2(a)) / pow2(b) == x / pow2(a + b),
{
    lemma_times_two(a, b);
    lemma_div_denominator(x as int, pow2(a) as int, pow2(b) as int);
}

/// `x * 2^p` divided by `2^(p+e)` is `x` divided by `2^e`.
proof fn lemma_div_cancel(x: nat, p: nat, e: nat)
    ensures
        (x * pow2(p)) / pow2(p + e) == x / pow2(e),
{
    lemma_pow2_pos(p);
    lemma_div_twice(x * pow2(p), p, e);
    lemma_fundamental_div_mod_converse((x * pow2(p)) as int, pow2(p) as int, x as int, 0);
}

/// The digits of a number split at `2^k`.
proof fn lemma_split(q: nat, r: nat, k: nat)
    requires
        r < pow2(k),
    ensures
        (q * pow2(k) + r) / pow2(k) == q,
        (q * pow2(k) + r) % pow2(k) == r,
{
    lemma_pow2_pos(k);
    lemma_fundamental_div_mod_converse((q * pow2(k) + r) as int, pow2(k) as int, q as int, r as int);
}

/// A field of the low bits is a field of the whole.
proof fn lemma_low_field(x: nat, a: nat, b: nat)
    ensures
        (x % pow2(a + b)) / pow2(a) == (x / pow2(a)) % pow2(b),
{
    lemma_times_two(a, b);
    lemma_pow2_pos(a + b);
    let p = pow2(a);
    let q = pow2(b);
    let w = pow2(a + b);
    let h = x / w;
    let l = x % w;
    lemma_fundamental_div_mod(x as int, w as int);
    lemma_mod_pos_bound(x as int, w as int);
    lemma_fundamental_div_mod(l as int, p as int);
    lemma_mod_pos_bound(l as int, p as int);
    let m = l / p;
    let r = l % p;
    assert(m < q) by (nonlinear_arith)
        requires
            l < w,
            w == p * q,
            l == p * m + r,
            r >= 0,
            p > 0,
    ;
    assert(x == (h * q + m) * p + r) by (nonlinear_arith)
        requires
            x == w * h + l,
            w == p * q,
            l == p * m + r,
    ;
    lemma_fundamental_div_mod_converse(x as int, p as int, (h * q + m) as int, r as int);
    lemma_fundamental_div_mod_converse((h * q + m) as int, q as int, h as int, m as int);
}

proof fn lemma_number_bound(vals: Seq<nat>, bits: nat)
    requires
        all_fit(vals, bits),
    ensures
        number(vals, bits) < pow2(vals.len() * bits),
    decreases vals.len(),
{
    if vals.len() == 0 {
        lemma_pow2_pos(0);
        assert(0 * bits == 0);
    } else {
        let rest = vals.drop_last();
        assert(all_fit(rest, bits));
        lemma_number_bound(rest, bits);
        let n = number(rest, bits);
        let w = pow2(rest.len() * bits);
        let b = pow2(bits);
        lemma_times_two(rest.len() * bits, bits);
        assert(rest.len() * bits + bits == vals.len() * bits) by (nonlinear_arith)
            requires
                rest.len() + 1 == vals.len(),
        ;
        assert(n * b + vals.last() < w * b) by (nonlinear_arith)
            requires
                n < w,
                vals.last() < b,
        ;
    }
}

/// The leading digits are what remains when the others are divided away.
proof fn lemma_number_prefix(vals: Seq<nat>, bits: nat, k: int)
    requires
        all_fit(vals, bits),
        0 <= k <= vals.len(),
    ensures
        number(vals, bits) / pow2(((vals.len() - k) * bits) as nat) == number(vals.take(k), bits),
    decreases vals.len() - k,
{
    if k == vals.len() {
        assert(vals.take(k) =~= vals);
        assert((vals.len() - k) * bits == 0) by (nonlinear_arith)
            requires
                vals.len() - k == 0,
        ;
        lemma2_to64();
        assert(number(vals, bits) as int / 1 == number(vals, bits));
    } else {
        lemma_number_prefix(vals, bits, k + 1);
        let e = ((vals.len() - k - 1) * bits) as nat;
        assert(e >= 0) by (nonlinear_arith)
            requires
                e == (vals.len() - k - 1) * bits,
                vals.len() - k - 1 >= 0,
                bits >= 0,
        ;
        assert((vals.len() - k) * bits == e + bits) by (nonlinear_arith)
            requires
                e == (vals.len() - k - 1) * bits,
        ;
        lemma_div_twice(number(vals, bits), e, bits);
        let next = vals.take(k + 1);
        assert(next.drop_last() =~= vals.take(k));
        assert(next.last() == vals[k]);
        lemma_split(number(vals.take(k), bits), vals[k], bits);
    }
}

/// Each digit of a number.
proof fn lemma_number_digit(vals: Seq<nat>, bits: nat, i: int)
    requires
        all_fit(vals, bits),
        0 <= i < vals.len(),
    ensures
        (number(vals, bits) / pow2(((vals.len() - i - 1) * bits) as nat)) % pow2(bits) == vals[i],
{
    lemma_number_prefix(vals, bits, i + 1);
    let next = vals.take(i + 1);
    assert(next.drop_last() =~= vals.take(i));
    assert(next.last() == vals[i]);
    lemma_split(number(vals.take(i), bits), vals[i], bits);
}

spec fn byte_values(s: Seq<u8>) -> Seq<nat> {
    Seq::new(s.len(), |i: int| s[i] as nat)
}

proof fn lemma_big_endian_is_number(s: Seq<u8>)
    ensures
        big_endian(s) == number(byte_values(s), 8),
        all_fit(byte_values(s), 8),
    decreases s.len(),
{
    lemma2_to64();
    if s.len() > 0 {
        lemma_big_endian_is_number(s.drop_last());
        assert(byte_values(s).drop_last() =~= byte_values(s.drop_last()));
    }
}

/// Bytes are the digits of the number they write.
proof fn lemma_bytes_of_big_endian(s: Seq<u8>)
    ensures
        bytes_of(big_endian(s), s.len()) == s,
{
    lemma2_to64();
    lemma_big_endian_is_number(s);
    let b = bytes_of(big_endian(s), s.len());
    assert forall|j: int| 0 <= j < s.len() implies b[j] == s[j] by {
        lemma_number_digit(byte_values(s), 8, j);
        assert((s.len() - j - 1) * 8 == 8 * (s.len() - 1 - j));
    }
    assert(b =~= s);
}

/// A number that fits is read back from its bytes.
proof fn lemma_big_endian_of_bytes(v: nat, len: nat)
    requires
        v < pow2(8 * len),
    ensures
        big_endian(bytes_of(v, len)) == v,
    decreases len,
{
    lemma2_to64();
    let b = bytes_of(v, len);
    if len > 0 {
        let k = (len - 1) as nat;
        let w = v / 256;
        lemma_times_two(8, 8 * k);
        assert(8 * len == 8 + 8 * k);
        assert(w < pow2(8 * k)) by (nonlinear_arith)
            requires
                v < 256 * pow2(8 * k),
                w == v / 256,
        ;
        lemma_big_endian_of_bytes(w, k);
        assert forall|j: int| 0 <= j < k implies bytes_of(w, k)[j] == b.drop_last()[j] by {
            lemma_div_twice(v, 8, (8 * (k - 1 - j)) as nat);
            assert(8 + 8 * (k - 1 - j) == 8 * (len - 1 - j));
        }
        assert(b.drop_last() =~= bytes_of(w, k));
        assert(b.last() as nat == v % 256) by {
            assert(v as int / 1 == v);
        }
        lemma_fundamental_div_mod(v as int, 256);
    }
}

/// Leading bytes are what remains when the others are divided away.
proof fn lemma_big_endian_take(s: Seq<u8>, k: int)
    requires
        0 <= k <= s.len(),
    ensures
        big_endian(s) / pow2((8 * (s.len() - k)) as nat) == big_endian(s.take(k)),
{
    lemma_big_endian_is_number(s);
    lemma_big_endian_is_number(s.take(k));
    lemma_number_prefix(byte_values(s), 8, k);
    assert(byte_values(s.take(k)) =~= byte_values(s).take(k));
    assert((s.len() - k) * 8 == 8 * (s.len() - k));
}

/// A field never exceeds its width.
pub proof fn lemma_field_fits(data: Seq<u8>, bits: nat, i: int)
    ensures
        field(data, bits, i) < pow2(bits),
{
    lemma_pow2_pos(bits);
    let q = big_endian(data) / pow2((8 * data.len() - (i + 1) * bits) as nat);
    vstd::arithmetic::div_mod::lemma_mod_bound(q as int, pow2(bits) as int);
}

// ---- Laws ----

/// What was packed is read back, field by field.
pub proof fn packed_fields_round_trip(vals: Seq<nat>, bits: nat, i: int)
    requires
        all_fit(vals, bits),
        0 <= i < vals.len(),
    ensures
        packed(vals, bits).len() == packed_len(vals.len(), bits),
        has_field(packed(vals, bits), bits, i),
        field(packed(vals, bits), bits, i) == vals[i],
{
    let n = vals.len();
    let len = packed_len(n, bits);
    let pad = (8 * len - n * bits) as nat;
    let v = number(vals, bits);
    assert(n * bits >= 0) by (nonlinear_arith);
    assert(8 * len >= n * bits);
    lemma_number_bound(vals, bits);
    lemma_times_two(n * bits, pad);
    assert(n * bits + pad == 8 * len);
    assert(v * pow2(pad) < pow2(n * bits) * pow2(pad)) by (nonlinear_arith)
        requires
            v < pow2(n * bits),
            pow2(pad) > 0,
    ;
    lemma_big_endian_of_bytes(v * pow2(pad), len);
    let e = ((n - i - 1) * bits) as nat;
    assert(0 <= (n - i - 1) * bits) by (nonlinear_arith)
        requires
            n - i - 1 >= 0,
            bits >= 0,
    ;
    assert(8 * len - (i + 1) * bits == pad + e) by (nonlinear_arith)
        requires
            pad == 8 * len - n * bits,
            e == (n - i - 1) * bits,
    ;
    lemma_div_cancel(v, pad, e);
    lemma_number_digit(vals, bits, i);
}

/// Packing never merges two different lists of the same length.
pub proof fn packing_is_injective(a: Seq<nat>, b: Seq<nat>, bits: nat)
    requires
        all_fit(a, bits),
        all_fit(b, bits),
        a.len() == b.len(),
        packed(a, bits) == packed(b, bits),
    ensures
        a == b,
{
    assert forall|i: int| 0 <= i < a.len() implies a[i] == b[i] by {
        packed_fields_round_trip(a, bits, i);
        packed_fields_round_trip(b, bits, i);
    }
    assert(a =~= b);
}

/// Cutting a packed buffer short leaves every field that the remaining bytes cover as it was.
pub proof fn truncation_keeps_the_intact_prefix(data: Seq<u8>, bits: nat, keep: int, i: int)
    requires
        0 <= keep <= data.len(),
        0 <= i,
        has_field(data.take(keep), bits, i),
    ensures
        has_field(data, bits, i),
        field(data.take(keep), bits, i) == field(data, bits, i),
{
    let cut = (8 * (data.len() - keep)) as nat;
    let e = (8 * keep - (i + 1) * bits) as nat;
    lemma_big_endian_take(data, keep);
    lemma_div_twice(big_endian(data), cut, e);
    assert(cut + e == 8 * data.len() - (i + 1) * bits);
}

// ---- Packing ----

/// `2^k`.
fn two_to(k: u32) -> (r: u64)
    requires
        k < 64,
    ensures
        r == pow2(k as nat),
        r > 0,
{
    proof {
        lemma2_to64();
        vstd::arithmetic::power2::lemma2_to64_rest();
        lemma_pow2_pos(k as nat);
        if k < 63 {
            lemma_pow2_strictly_increases(k as nat, 63);
        }
        vstd::bits::lemma_u64_shl_is_mul(1u64, k as u64);
    }
    1u64 << (k as u64)
}

/// Packs `bits`-wide indices, `bits` up to 32, most significant bit first.
#[verifier::rlimit(60)]
pub fn pack_indices_wide(indices: &[u32], bits: u8) -> (out: Vec<u8>)
    requires
        bits <= 32,
        all_fit(values32(indices@), bits as nat),
    ensures
        out@ == packed(values32(indices@), bits as nat),
        out.len() == packed_len(indices@.len(), bits as nat),
{
    let bits: u32 = bits as u32;
    let ghost vals = values32(indices@);
    let ghost b = bits as nat;
    let ghost n = vals.len();
    let mut out: Vec<u8> = Vec::new();
    let mut pending: u64 = 0;
    let mut in_buf: u32 = 0;
    let scale: u64 = two_to(bits);
    let mut i: usize = 0;
    proof {
        lemma2_to64();
        assert(vals.take(0) =~= Seq::<nat>::empty());
    }
    while i < indices.len()
        invariant
            i <= indices.len(),
            bits <= 32,
            b == bits as nat,
            vals == values32(indices@),
            n == vals.len(),
            all_fit(vals, b),
            scale == pow2(b),
            in_buf < 8,
            pending < pow2(in_buf as nat),
            8 * out.len() + in_buf == i * b,
            big_endian(out@) * pow2(in_buf as nat) + pending == number(vals.take(i as int), b),
        decreases indices.len() - i,
    {
        let idx: u64 = indices[i] as u64;
        proof {
            lemma2_to64();
            assert(vals[i as int] == idx);
            if in_buf < 7 {
                lemma_pow2_strictly_increases(in_buf as nat, 7);
            }
            if bits < 32 {
                lemma_pow2_strictly_increases(b, 32);
            }
            assert(pending * scale + idx < 0x1_0000_0000 * 128) by (nonlinear_arith)
                requires
                    pending < 128,
                    scale <= 0x1_0000_0000,
                    idx < scale,
            ;
            assert(pending * scale >= 0) by (nonlinear_arith)
                requires
                    pending >= 0,
                    scale >= 0,
            ;
            let next = vals.take(i + 1);
            assert(next.drop_last() =~= vals.take(i as int));
            lemma_times_two(in_buf as nat, b);
            let o = big_endian(out@);
            let p = pow2(in_buf as nat);
            assert(o * (p * scale) + (pending * scale + idx) == (o * p + pending) * scale + idx)
                by (nonlinear_arith);
            assert(pending * scale + idx < p * scale) by (nonlinear_arith)
                requires
                    pending < p,
                    idx < scale,
            ;
            assert(i * b + b == (i + 1) * b) by (nonlinear_arith);
        }
        pending = pending * scale + idx;
        in_buf = in_buf + bits;
        while in_buf >= 8
            invariant
                in_buf < 40,
                pending < pow2(in_buf as nat),
                8 * out.len() + in_buf == (i + 1) * b,
                big_endian(out@) * pow2(in_buf as nat) + pending == number(
                    vals.take(i + 1),
                    b,
                ),
            decreases in_buf,
        {
            let cut: u64 = two_to(in_buf - 8);
            proof {
                let k = (in_buf - 8) as nat;
                lemma2_to64();
                lemma_times_two(8, k);
                lemma_fundamental_div_mod(pending as int, cut as int);
                lemma_mod_pos_bound(pending as int, cut as int);
                let h = pending / cut;
                let l = pending % cut;
                assert(h < 256) by (nonlinear_arith)
                    requires
                        pending < 256 * cut,
                        h == pending / cut,
                        cut > 0,
                ;
                let o = big_endian(out@);
                assert(o * (256 * cut) + pending == (o * 256 + h) * cut + l) by (nonlinear_arith)
                    requires
                        pending == cut * h + l,
                ;
                let next = out@.push(h as u8);
                assert(next.drop_last() =~= out@);
            }
            let byte: u8 = (pending / cut) as u8;
            out.push(byte);
            pending = pending % cut;
            in_buf = in_buf - 8;
        }
        i += 1;
    }
    proof {
        assert(vals.take(i as int) =~= vals);
        assert(i * b == n * b);
    }
    let ghost len = packed_len(n, b);
    if in_buf > 0 {
        let lift: u64 = two_to(8 - in_buf);
        proof {
            let k = (8 - in_buf) as nat;
            lemma2_to64();
            lemma_times_two(in_buf as nat, k);
            let p = pow2(in_buf as nat);
            assert(pending * lift < 256) by (nonlinear_arith)
                requires
                    pending < p,
                    p * lift == 256,
                    lift > 0,
            ;
            assert(pending * lift >= 0) by (nonlinear_arith)
                requires
                    pending >= 0,
                    lift >= 0,
            ;
            let o = big_endian(out@);
            assert(o * 256 + pending * lift == (o * p + pending) * lift) by (nonlinear_arith)
                requires
                    p * lift == 256,
            ;
            let next = out@.push((pending * lift) as u8);
            assert(next.drop_last() =~= out@);
            assert(8 * (out.len() + 1) == n * b + k);
            assert(len == out.len() + 1);
        }
        out.push((pending * lift) as u8);
    } else {
        proof {
            lemma2_to64();
            assert(8 * out.len() == n * b);
            assert(len == out.len());
            assert(big_endian(out@) * 1 == big_endian(out@));
        }
    }
    proof {
        lemma2_to64();
        lemma_bytes_of_big_endian(out@);
        assert(big_endian(out@) == number(vals, b) * pow2((8 * len - n * b) as nat));
    }
    out
}

/// Packs `bits`-wide indices, `bits` up to 16, most significant bit first.
pub fn pack_indices(indices: &[u16], bits: u8) -> (out: Vec<u8>)
    requires
        bits <= 16,
        all_fit(values16(indices@), bits as nat),
    ensures
        out@ == packed(values16(indices@), bits as nat),
        out.len() == packed_len(indices@.len(), bits as nat),
{
    let mut wide: Vec<u32> = Vec::with_capacity(indices.len());
    let mut i: usize = 0;
    while i < indices.len()
        invariant
            i <= indices.len(),
            wide.len() == i,
            forall|j: int| 0 <= j < i ==> #[trigger] wide@[j] == indices@[j],
        decreases indices.len() - i,
    {
        wide.push(indices[i] as u32);
        i += 1;
    }
    assert(values32(wide@) =~= values16(indices@));
    pack_indices_wide(wide.as_slice(), bits)
}

/// Unpacks `out.len()` fields of `bits` bits, `bits` up to 32. Where the data end before a
/// field is complete, that slot and those behind it keep what they held.
#[verifier::rlimit(60)]
pub fn unpack_indices_wide(data: &[u8], bits: u8, out: &mut [u32])
    requires
        bits <= 32,
    ensures
        final(out)@.len() == old(out)@.len(),
        forall|i: int|
            0 <= i < old(out)@.len() ==> #[trigger] final(out)@[i] == if has_field(
                data@,
                bits as nat,
                i,
            ) {
                field(data@, bits as nat, i)
            } else {
                old(out)@[i] as nat
            },
{
    let width: u32 = bits as u32;
    let ghost b = bits as nat;
    let ghost before = out@;
    let n: usize = out.len();
    let mut pending: u64 = 0;
    let mut in_buf: u32 = 0;
    let mut byte: usize = 0;
    let mut i: usize = 0;
    proof {
        lemma2_to64();
        assert(data@.take(0) =~= Seq::<u8>::empty());
    }
    while i < n
        invariant
            i <= n == out@.len(),
            before.len() == n,
            before == old(out)@,
            width == bits <= 32,
            b == bits as nat,
            byte <= data@.len(),
            in_buf < 40,
            in_buf + i * b == 8 * byte,
            pending == big_endian(data@.take(byte as int)) % pow2(in_buf as nat),
            forall|j: int| 0 <= j < i ==> #[trigger] has_field(data@, b, j),
            forall|j: int| 0 <= j < i ==> #[trigger] out@[j] == field(data@, b, j),
            forall|j: int| i <= j < n ==> out@[j] == before[j],
        decreases n - i,
    {
        while in_buf < width && byte < data.len()
            invariant
                width <= 32,
                byte <= data@.len(),
                in_buf < 40,
                in_buf + i * b == 8 * byte,
                pending == big_endian(data@.take(byte as int)) % pow2(in_buf as nat),
            decreases data.len() - byte,
        {
            proof {
                lemma2_to64();
                let v = big_endian(data@.take(byte as int));
                let d = data@[byte as int] as nat;
                let p = pow2(in_buf as nat);
                lemma_pow2_pos(in_buf as nat);
                lemma_mod_pos_bound(v as int, p as int);
                if in_buf < 32 {
                    lemma_pow2_strictly_increases(in_buf as nat, 32);
                }
                let next = data@.take(byte + 1);
                assert(next.drop_last() =~= data@.take(byte as int));
                lemma_times_two(in_buf as nat, 8);
                lemma_fundamental_div_mod(v as int, p as int);
                let h = v / p;
                assert(v * 256 + d == h * (p * 256) + (pending * 256 + d)) by (nonlinear_arith)
                    requires
                        v == p * h + pending,
                ;
                assert(pending * 256 + d < p * 256);
                lemma_fundamental_div_mod_converse(
                    (v * 256 + d) as int,
                    (p * 256) as int,
                    h as int,
                    (pending * 256 + d) as int,
                );
            }
            pending = pending * 256 + data[byte] as u64;
            in_buf = in_buf + 8;
            byte = byte + 1;
        }
        if in_buf < width {
            proof {
                assert(!has_field(data@, b, i as int)) by {
                    assert((i + 1) * b == i * b + b) by (nonlinear_arith);
                }
                assert forall|j: int| i <= j < n implies !has_field(data@, b, j) by {
                    assert((j + 1) * b >= (i + 1) * b) by (nonlinear_arith)
                        requires
                            j >= i,
                            b >= 0,
                    ;
                }
            }
            return;
        }
        let cut: u64 = two_to(in_buf - width);
        proof {
            let k = (in_buf - width) as nat;
            let v = big_endian(data@.take(byte as int));
            lemma_low_field(v, k, b);
            lemma_big_endian_take(data@, byte as int);
            lemma_div_twice(big_endian(data@), (8 * (data@.len() - byte)) as nat, k);
            assert((i + 1) * b == i * b + b) by (nonlinear_arith);
            assert(8 * (data@.len() - byte) + k == 8 * data@.len() - (i + 1) * b);
            assert(has_field(data@, b, i as int));
            lemma_times_two(k, b);
            lemma_pow2_pos(in_buf as nat);
            lemma_mod_pos_bound(v as int, pow2(in_buf as nat) as int);
            // What stays pending is the low part.
            let q = pow2(k);
            let w = pow2(in_buf as nat);
            lemma_fundamental_div_mod(v as int, w as int);
            lemma_fundamental_div_mod(pending as int, q as int);
            lemma_mod_pos_bound(pending as int, q as int);
            let h = v / w;
            let m = pending / cut;
            let r = pending % cut;
            assert(v == (h * pow2(b) + m) * q + r) by (nonlinear_arith)
                requires
                    v == w * h + pending,
                    w == q * pow2(b),
                    pending == q * m + r,
            ;
            lemma_fundamental_div_mod_converse(v as int, q as int, (h * pow2(b) + m) as int, r as int);
            lemma2_to64();
            if bits < 32 {
                lemma_pow2_strictly_increases(b, 32);
            }
            lemma_pow2_pos(b);
            lemma_mod_pos_bound((v / q) as int, pow2(b) as int);
            assert(m == field(data@, b, i as int));
            assert(m <= u32::MAX);
        }
        let ghost mid = out@;
        let value: u32 = (pending / cut) as u32;
        out[i] = value;
        proof {
            assert(value == field(data@, b, i as int));
            assert forall|j: int| 0 <= j < i + 1 implies #[trigger] out@[j] == field(
                data@,
                b,
                j,
            ) by {
                if j < i {
                    assert(out@[j] == mid[j]);
                }
            }
        }
        pending = pending % cut;
        in_buf = in_buf - width;
        i += 1;
    }
}

/// Unpacks `out.len()` fields of `bits` bits, `bits` up to 16. Where the data end before a
/// field is complete, that slot and those behind it keep what they held.
pub fn unpack_indices(data: &[u8], bits: u8, out: &mut [u16])
    requires
        bits <= 16,
    ensures
        final(out)@.len() == old(out)@.len(),
        forall|i: int|
            0 <= i < old(out)@.len() ==> #[trigger] final(out)@[i] == if has_field(
                data@,
                bits as nat,
                i,
            ) {
                field(data@, bits as nat, i)
            } else {
                old(out)@[i] as nat
            },
{
    let ghost before = out@;
    let n: usize = out.len();
    let mut wide: Vec<u32> = Vec::with_capacity(n);
    let mut i: usize = 0;
    while i < n
        invariant
            i <= n == out@.len(),
            wide.len() == i,
            forall|j: int| 0 <= j < i ==> #[trigger] wide@[j] == out@[j],
        decreases n - i,
    {
        wide.push(out[i] as u32);
        i += 1;
    }
    let ghost given = wide@;
    unpack_indices_wide(data, bits, wide.as_mut_slice());
    let mut k: usize = 0;
    while k < n
        invariant
            k <= n == out@.len(),
            bits <= 16,
            wide.len() == n,
            before.len() == n,
            given.len() == n,
            forall|j: int| 0 <= j < n ==> #[trigger] given[j] == before[j],
            forall|j: int|
                0 <= j < n ==> #[trigger] wide@[j] == if has_field(data@, bits as nat, j) {
                    field(data@, bits as nat, j)
                } else {
                    given[j] as nat
                },
            forall|j: int|
                0 <= j < k ==> #[trigger] out@[j] == if has_field(data@, bits as nat, j) {
                    field(data@, bits as nat, j)
                } else {
                    before[j] as nat
                },
            forall|j: int| k <= j < n ==> out@[j] == before[j],
        decreases n - k,
    {
        proof {
            lemma2_to64();
            lemma_pow2_pos(bits as nat);
            if bits < 16 {
                lemma_pow2_strictly_increases(bits as nat, 16);
            }
            assert(wide@[k as int] <= 0xffff) by {
                assert(given[k as int] == before[k as int]);
                let q = big_endian(data@) / pow2(
                    (8 * data@.len() - (k + 1) * (bits as nat)) as nat,
                );
                lemma_pow2_pos((8 * data@.len() - (k + 1) * (bits as nat)) as nat);
                assert(q >= 0) by (nonlinear_arith)
                    requires
                        q == big_endian(data@) / pow2(
                            (8 * data@.len() - (k + 1) * (bits as nat)) as nat,
                        ),
                        big_endian(data@) >= 0,
                        pow2((8 * data@.len() - (k + 1) * (bits as nat)) as nat) > 0,
                ;
                lemma_mod_pos_bound(q as int, pow2(bits as nat) as int);
            }
        }
        out[k] = wide[k] as u16;
        k += 1;
    }
}

/// The narrow and the wide form of the same indices pack to the same bytes.
pub proof fn narrow_and_wide_agree(narrow: Seq<u16>, wide: Seq<u32>, bits: nat)
    requires
        narrow.len() == wide.len(),
        forall|i: int| 0 <= i < narrow.len() ==> narrow[i] as nat == #[trigger] wide[i] as nat,
    ensures
        packed(values16(narrow), bits) == packed(values32(wide), bits),
{
    assert(values16(narrow) =~= values32(wide));
}

// ---- Bit by bit ----

/// Bit `t` of a buffer: bits are counted from the first byte on, in each byte from the highest
/// one down.
pub open spec fn bit_of(data: Seq<u8>, t: int) -> int {
    (data[t / 8] as int / pow2((7 - t % 8) as nat) as int) % 2
}

/// Bit `j` of a number that is `bits` wide, counted from the highest one down.
pub open spec fn bit_in(v: nat, bits: nat, j: int) -> int {
    (v as int / pow2((bits - 1 - j) as nat) as int) % 2
}

/// Bits above the ones asked for do not matter.
proof fn lemma_low_bits(x: int, b: nat, f: nat)
    requires
        x >= 0,
        f < b,
    ensures
        ((x % pow2(b) as int) / pow2(f) as int) % 2 == (x / pow2(f) as int) % 2,
{
    let m = pow2(b) as int;
    let d = pow2(f) as int;
    let e = pow2((b - f - 1) as nat) as int;
    lemma_pow2_pos(b);
    lemma_pow2_pos(f);
    lemma2_to64();
    lemma_pow2_adds(f, (b - f) as nat);
    lemma_pow2_adds((b - f - 1) as nat, 1);
    lemma_fundamental_div_mod(x, m);
    let q = x / m;
    let r = x % m;
    assert(m == d * (2 * e)) by (nonlinear_arith)
        requires
            m == d * pow2((b - f) as nat) as int,
            pow2((b - f) as nat) as int == e * 2,
    ;
    assert(x == d * (2 * e * q) + r) by (nonlinear_arith)
        requires
            x == m * q + r,
            m == d * (2 * e),
    ;
    let k = 2 * e * q;
    vstd::arithmetic::div_mod::lemma_hoist_over_denominator(r, k, d as nat);
    assert(d * k + r == k * d + r) by (nonlinear_arith);
    assert(x / d == k + r / d);
    assert(k == 2 * (e * q)) by (nonlinear_arith)
        requires
            k == 2 * e * q,
    ;
    vstd::arithmetic::div_mod::lemma_mod_multiples_vanish(e * q, r / d, 2);
}

/// A bit of a buffer is what a field of one bit holds.
proof fn lemma_bit_is_field(data: Seq<u8>, t: int)
    requires
        0 <= t < 8 * data.len(),
    ensures
        bit_of(data, t) == field(data, 1, t),
{
    let len = data.len() as int;
    let k = t / 8;
    let s = (7 - t % 8) as nat;
    let cut = (8 * (len - (k + 1))) as nat;
    let e = (8 * len - (t + 1) * 1) as nat;
    lemma2_to64();
    assert(e == cut + s);
    lemma_big_endian_take(data, k + 1);
    lemma_div_twice(big_endian(data), cut, s);
    let head = data.take(k + 1);
    assert(head.drop_last() =~= data.take(k));
    let x = big_endian(head) as int;
    let d = data[k] as int;
    assert(x == big_endian(data.take(k)) * 256 + d);
    lemma_low_bits(x, 8, s);
    vstd::arithmetic::div_mod::lemma_mod_multiples_vanish(big_endian(data.take(k)) as int, d, 256);
    vstd::arithmetic::div_mod::lemma_small_mod(d as nat, 256);
}

/// Indices are packed one after the other, each with its highest bit first, and zeros fill the
/// last byte.
pub proof fn indices_are_packed_highest_bit_first(vals: Seq<nat>, bits: nat, i: int, j: int)
    requires
        all_fit(vals, bits),
        0 <= i < vals.len(),
        0 <= j < bits,
    ensures
        packed(vals, bits).len() * 8 >= vals.len() * bits,
        packed(vals, bits).len() * 8 < vals.len() * bits + 8,
        i * bits + j < 8 * packed(vals, bits).len(),
        bit_of(packed(vals, bits), i * bits + j) == bit_in(vals[i], bits, j),
{
    let data = packed(vals, bits);
    packed_fields_round_trip(vals, bits, i);
    let t = i * bits + j;
    assert(vals.len() * bits >= 0) by (nonlinear_arith);
    assert(0 <= t < (i + 1) * bits) by (nonlinear_arith)
        requires
            t == i * bits + j,
            0 <= j < bits,
            0 <= i,
    ;
    lemma_bit_is_field(data, t);
    let b = big_endian(data);
    let f = (bits - 1 - j) as nat;
    let e = (8 * data.len() - (i + 1) * bits) as nat;
    assert((i + 1) * bits == t + 1 + f) by (nonlinear_arith)
        requires
            t == i * bits + j,
            f == bits - 1 - j,
    ;
    lemma_div_twice(b, e, f);
    lemma_pow2_pos(e);
    vstd::arithmetic::div_mod::lemma_div_pos_is_pos(b as int, pow2(e) as int);
    lemma_low_bits((b / pow2(e)) as int, bits, f);
    lemma2_to64();
}

/// What an unpacked field holds, bit by bit.
pub proof fn fields_are_read_highest_bit_first(data: Seq<u8>, bits: nat, i: int, j: int)
    requires
        0 <= i,
        has_field(data, bits, i),
        0 <= j < bits,
    ensures
        bit_in(field(data, bits, i), bits, j) == bit_of(data, i * bits + j),
{
    let t = i * bits + j;
    assert(0 <= t < (i + 1) * bits) by (nonlinear_arith)
        requires
            t == i * bits + j,
            0 <= j < bits,
            0 <= i,
    ;
    lemma_bit_is_field(data, t);
    let b = big_endian(data);
    let f = (bits - 1 - j) as nat;
    let e = (8 * data.len() - (i + 1) * bits) as nat;
    assert((i + 1) * bits == t + 1 + f) by (nonlinear_arith)
        requires
            t == i * bits + j,
            f == bits - 1 - j,
    ;
    lemma_div_twice(b, e, f);
    lemma_pow2_pos(e);
    vstd::arithmetic::div_mod::lemma_div_pos_is_pos(b as int, pow2(e) as int);
    lemma_low_bits((b / pow2(e)) as int, bits, f);
    lemma2_to64();
}

/// A buffer holds a field if it holds the last bit of it.
pub proof fn a_field_is_there_if_its_bits_are(data: Seq<u8>, bits: nat, i: int)
    requires
        0 <= i,
        bits > 0,
    ensures
        has_field(data, bits, i) <==> i * bits + (bits - 1) < 8 * data.len(),
{
    assert((i + 1) * bits == i * bits + bits) by (nonlinear_arith);
}

/// Behind the last index there are only zeros.
pub proof fn the_last_byte_is_filled_with_zeros(vals: Seq<nat>, bits: nat, t: int)
    requires
        all_fit(vals, bits),
        vals.len() * bits <= t < 8 * packed_len(vals.len(), bits),
    ensures
        packed(vals, bits).len() == packed_len(vals.len(), bits),
        bit_of(packed(vals, bits), t) == 0,
{
    let n = vals.len();
    let len = packed_len(n, bits);
    let pad = (8 * len - n * bits) as nat;
    let v = number(vals, bits);
    let data = packed(vals, bits);
    assert(n * bits >= 0) by (nonlinear_arith);
    lemma_number_bound(vals, bits);
    lemma_times_two(n * bits, pad);
    assert(n * bits + pad == 8 * len);
    assert(v * pow2(pad) < pow2(n * bits) * pow2(pad)) by (nonlinear_arith)
        requires
            v < pow2(n * bits),
            pow2(pad) > 0,
    ;
    lemma_big_endian_of_bytes(v * pow2(pad), len);
    lemma_bit_is_field(data, t);
    lemma2_to64();
    let e = (8 * len - (t + 1) * 1) as nat;
    let f = (pad - e - 1) as nat;
    lemma_times_two(e, f + 1);
    lemma_times_two(f, 1);
    let x = v * pow2(f);
    assert(v * pow2(pad) == (2 * x) * pow2(e)) by (nonlinear_arith)
        requires
            pow2(pad) == pow2(e) * pow2(f + 1),
            pow2(f + 1) == pow2(f) * 2,
            x == v * pow2(f),
    ;
    lemma_fundamental_div_mod_converse(
        (v * pow2(pad)) as int,
        pow2(e) as int,
        (2 * x) as int,
        0,
    );
}

} // verus!
