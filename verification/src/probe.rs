//! Arithmetic of the probe sequences walked by the hash index of a unique pool.
//!
//! A table has a power-of-two capacity. A hash picks a home slot (its low bits)
//! and an odd stride (its high bits); the `d`-th probe of a hash visits
//! `(home + d * stride) % capacity`. Because the stride is odd, the first
//! `capacity` probes of any hash visit pairwise distinct slots.

use vstd::arithmetic::div_mod::*;
use vstd::arithmetic::mul::*;
use vstd::arithmetic::power2::*;
use vstd::bits::*;
use vstd::prelude::*;
use vstd::set_lib::*;

verus! {

/// `cap` is a usable table capacity: a power of two, at least 2, that fits a `usize`.
pub open spec fn is_table_capacity(cap: nat) -> bool {
    exists|m: nat| 1 <= m < usize::BITS && pow2(m) == cap
}

/// The base-2 logarithm of a table capacity.
pub open spec fn cap_log(cap: nat) -> nat {
    choose|m: nat| 1 <= m < usize::BITS && pow2(m) == cap
}

/// The home slot of hash `h` in a table of capacity `cap`: its low bits.
pub open spec fn home_slot(h: u64, cap: nat) -> int {
    ((h as usize) & ((cap - 1) as usize)) as int
}

/// The stride of hash `h` in a table of capacity `cap`: its high bits, shifted down, made odd.
pub open spec fn stride_of(h: u64, cap: nat) -> int {
    ((((h as usize) & !((cap - 1) as usize)) >> ((cap_log(cap) - 1) as u32)) | 1usize) as int
}

/// The slot visited by the `d`-th probe of hash `h`.
pub open spec fn probe_pos(h: u64, cap: nat, d: int) -> int {
    (home_slot(h, cap) + d * stride_of(h, cap)) % (cap as int)
}

/// The probe count stored for an entry found after `d` steps: `d + 1`, saturated to a byte.
pub open spec fn probe_code(d: nat) -> u8 {
    if d + 1 < 255 {
        (d + 1) as u8
    } else {
        255u8
    }
}

pub proof fn lemma_pow2_bits(m: nat)
    requires
        m <= usize::BITS,
    ensures
        pow2(m) <= usize::MAX + 1,
        m < usize::BITS ==> pow2(m) <= usize::MAX,
{
    lemma2_to64();
    if m < usize::BITS {
        lemma_pow2_strictly_increases(m, usize::BITS as nat);
    }
}

/// Masking with `2^m - 1` is the remainder modulo `2^m`.
pub proof fn lemma_mask_mod(x: usize, m: nat)
    requires
        m < usize::BITS,
    ensures
        x & ((pow2(m) - 1) as usize) == x % (pow2(m) as usize),
{
    lemma_pow2_bits(m);
    lemma_pow2_pos(m);
    lemma_u64_low_bits_mask_is_mod(x as u64, m);
    let mask = (pow2(m) - 1) as usize;
    assert(low_bits_mask(m) == pow2(m) - 1);
    assert((x & mask) as u64 == (x as u64) & (mask as u64)) by (bit_vector);
}

/// A table capacity determines its logarithm.
pub proof fn lemma_cap_log(cap: nat)
    requires
        is_table_capacity(cap),
    ensures
        1 <= cap_log(cap) < usize::BITS,
        pow2(cap_log(cap)) == cap,
        2 <= cap <= usize::MAX,
        cap % 2 == 0,
{
    let m = cap_log(cap);
    lemma_pow2_bits(m);
    lemma_pow2(3);
    lemma2_to64();
    if m > 3 {
        lemma_pow2_strictly_increases(3, m);
    }
    lemma_pow2_unfold(m);
}

/// The logarithm reported for a capacity bracketed by `2^r` and `2^(r+1)` is its logarithm.
pub proof fn lemma_log_bracket(cap: nat, r: nat)
    requires
        is_table_capacity(cap),
        pow2(r) <= cap < pow2(r + 1),
    ensures
        r == cap_log(cap),
{
    lemma_cap_log(cap);
    let m = cap_log(cap);
    if r < m {
        if r + 1 < m {
            lemma_pow2_strictly_increases(r + 1, m);
        }
    } else if r > m {
        lemma_pow2_strictly_increases(m, r);
    }
}

/// The home slot is the hash modulo the capacity.
pub proof fn lemma_home(h: u64, cap: nat)
    requires
        is_table_capacity(cap),
    ensures
        home_slot(h, cap) == ((h as usize) as int) % (cap as int),
        0 <= home_slot(h, cap) < cap,
{
    lemma_cap_log(cap);
    lemma_mask_mod(h as usize, cap_log(cap));
}

/// Strides are odd.
pub proof fn lemma_stride_odd(h: u64, cap: nat)
    ensures
        stride_of(h, cap) % 2 == 1,
        stride_of(h, cap) > 0,
{
    let y = (((h as usize) & !((cap - 1) as usize)) >> ((cap_log(cap) - 1) as u32));
    assert((y | 1usize) % 2 == 1 && (y | 1usize) > 0) by (bit_vector);
}

/// One more step of a probe sequence adds the stride, modulo the capacity.
pub proof fn lemma_probe_step(h: u64, cap: nat, d: int)
    requires
        is_table_capacity(cap),
    ensures
        (probe_pos(h, cap, d) + stride_of(h, cap)) % (cap as int) == probe_pos(h, cap, d + 1),
        0 <= probe_pos(h, cap, d) < cap,
{
    lemma_cap_log(cap);
    let c = cap as int;
    let a = home_slot(h, cap) + d * stride_of(h, cap);
    let s = stride_of(h, cap);
    lemma_add_mod_noop(a, s, c);
    lemma_add_mod_noop_right(a % c, s, c);
    assert(a + s == home_slot(h, cap) + (d + 1) * s) by (nonlinear_arith)
        requires
            a == home_slot(h, cap) + d * s,
    ;
    lemma_mod_bound(a, c);
}

/// The zeroth probe is the home slot.
pub proof fn lemma_probe_zero(h: u64, cap: nat)
    requires
        is_table_capacity(cap),
    ensures
        probe_pos(h, cap, 0) == home_slot(h, cap),
{
    lemma_home(h, cap);
    lemma_small_mod(home_slot(h, cap) as nat, cap);
}

/// Wrapping addition followed by masking is addition modulo the capacity.
pub proof fn lemma_wrapping_step(i: usize, s: usize, cap: nat)
    requires
        is_table_capacity(cap),
    ensures
        (i.wrapping_add(s) & ((cap - 1) as usize)) as int == ((i as int) + (s as int)) % (cap as int),
{
    lemma_cap_log(cap);
    let m = cap_log(cap);
    let w = i.wrapping_add(s);
    lemma_mask_mod(w, m);
    lemma_pow2_bits(usize::BITS as nat);
    lemma2_to64();
    let big = (usize::MAX + 1) as int;
    assert(pow2(usize::BITS as nat) == big);
    lemma_pow2_adds(m, (usize::BITS - m) as nat);
    assert(big == (cap as int) * pow2((usize::BITS - m) as nat));
    lemma_pow2_pos((usize::BITS - m) as nat);
    if (i as int) + (s as int) > usize::MAX {
        assert(w as int == (i as int) + (s as int) - big);
        lemma_mod_multiples_vanish(-pow2((usize::BITS - m) as nat), (i as int) + (s as int), cap as int);
        assert((cap as int) * (-pow2((usize::BITS - m) as nat)) == -big) by (nonlinear_arith)
            requires big == (cap as int) * pow2((usize::BITS - m) as nat);
    } else {
        assert(w as int == (i as int) + (s as int));
    }
}

/// An odd multiple of a positive number below `2^m` is not divisible by `2^m`.
proof fn lemma_odd_multiple(a: int, s: int, m: nat)
    requires
        0 < a < pow2(m),
        s % 2 == 1,
        s > 0,
    ensures
        (a * s) % (pow2(m) as int) != 0,
    decreases m,
{
    lemma_pow2_pos(m);
    if m == 0 {
        lemma2_to64();
    } else {
        lemma_pow2_unfold(m);
        let p = pow2((m - 1) as nat) as int;
        lemma_pow2_pos((m - 1) as nat);
        if a % 2 == 1 {
            // a * s is odd while 2^m is even
            lemma_fundamental_div_mod(a, 2);
            lemma_fundamental_div_mod(s, 2);
            let qa = a / 2;
            let qs = s / 2;
            assert(a * s == 2 * (2 * qa * qs + qa + qs) + 1) by (nonlinear_arith)
                requires
                    a == 2 * qa + 1,
                    s == 2 * qs + 1,
            ;
            lemma_mod_multiples_vanish(2 * qa * qs + qa + qs, 1, 2);
            if (a * s) % (2 * p) == 0 {
                lemma_mod_mod(a * s, 2, p);
            }
        } else {
            let b = a / 2;
            assert(a == 2 * b);
            assert(0 < b < p);
            lemma_odd_multiple(b, s, (m - 1) as nat);
            if (a * s) % (2 * p) == 0 {
                lemma_fundamental_div_mod(a * s, 2 * p);
                let q = (a * s) / (2 * p);
                assert(b * s == p * q) by (nonlinear_arith)
                    requires a * s == (2 * p) * q + 0, a == 2 * b;
                lemma_mod_multiples_basic(q, p);
                assert((b * s) % p == 0) by (nonlinear_arith)
                    requires b * s == p * q, (q * p) % p == 0;
            }
        }
    }
}

/// The first `cap` probes of a hash visit pairwise distinct slots.
pub proof fn lemma_probes_distinct(h: u64, cap: nat, j1: int, j2: int)
    requires
        is_table_capacity(cap),
        0 <= j1 < cap,
        0 <= j2 < cap,
        j1 != j2,
    ensures
        probe_pos(h, cap, j1) != probe_pos(h, cap, j2),
{
    lemma_cap_log(cap);
    lemma_stride_odd(h, cap);
    let c = cap as int;
    let s = stride_of(h, cap);
    let hm = home_slot(h, cap);
    let (lo, hi) = if j1 < j2 { (j1, j2) } else { (j2, j1) };
    if probe_pos(h, cap, lo) == probe_pos(h, cap, hi) {
        lemma_mod_equivalence(hm + hi * s, hm + lo * s, c);
        assert((hm + hi * s) - (hm + lo * s) == (hi - lo) * s) by (nonlinear_arith);
        lemma_odd_multiple(hi - lo, s, cap_log(cap));
    }
}

/// If the probes `0..=k` of a hash all land in a set of fewer than `cap` slots,
/// then that set has more than `k` slots.
pub proof fn lemma_probe_walk_bound(h: u64, cap: nat, k: int, slots: Set<int>)
    requires
        is_table_capacity(cap),
        slots.finite(),
        slots.len() < cap,
        0 <= k,
        forall|j: int| 0 <= j <= k ==> slots.contains(#[trigger] probe_pos(h, cap, j)),
    ensures
        k + 1 <= slots.len(),
{
    let n = if k < cap { k + 1 } else { cap as int };
    let walk = Seq::new(n as nat, |j: int| probe_pos(h, cap, j));
    assert forall|a: int, b: int| 0 <= a < walk.len() && 0 <= b < walk.len() && a != b implies walk[a]
        != walk[b] by {
        lemma_probes_distinct(h, cap, a, b);
    }
    assert(walk.no_duplicates());
    walk.unique_seq_to_set();
    assert(walk.to_set().subset_of(slots));
    lemma_len_subset(walk.to_set(), slots);
}

} // verus!
