//! Unbounded non-negative integers with the operations the proof-of-work
//! engine needs: squaring modulo `2^1279 - 1`, negation modulo the same
//! prime, toggling the lowest bit, and big-endian byte conversion.

use vstd::prelude::*;
use vstd::arithmetic::power2::*;
use vstd::arithmetic::div_mod::*;
use crate::limbs::{
    limbs_val, limb_at_spec, ext_take, normalized, strip_limbs, limb_at, add_limbs, mul_limbs,
    split_1279, bit_1279_set, clear_bit_1279, lemma_limbs_val_nonneg, lemma_limbs_val_push,
    lemma_limbs_val_bound, lemma_limbs_val_split, lemma_limbs_val_injective, lemma_ext_take_full,
    lemma_limbs_val_update, lemma_normalized_len_bound, lemma_bit_1279, lemma_limbs_val_singleton,
};
use crate::bytes::{be_bytes_val, min_be_bytes};

verus! {

/// The modulus: the Mersenne prime `2^1279 - 1`.
pub open spec fn modulus() -> int {
    pow2(1279) - 1
}

/// One squaring step: the full square, folded once at bit 1279 (valid
/// because `2^1279 == 1` modulo the Mersenne prime), then a single
/// correction pass that clears bit 1279 and adds 1 if that bit is set.
pub open spec fn sq_fold(x: int) -> int {
    let p = x * x;
    let s = p % pow2(1279) as int + p / pow2(1279) as int;
    if (s / pow2(1279) as int) % 2 == 1 {
        s - pow2(1279) + 1
    } else {
        s
    }
}

/// Toggling the lowest bit: adds 1 to an even value, subtracts 1 from an
/// odd one.
pub open spec fn xor1(x: int) -> int {
    if x % 2 == 0 {
        x + 1
    } else {
        x - 1
    }
}

/// An unbounded non-negative integer, as little-endian 64-bit limbs with
/// no trailing zero limb.
#[derive(Clone, Debug)]
pub struct BigInt {
    pub limbs: Vec<u64>,
}

impl View for BigInt {
    type V = int;

    open spec fn view(&self) -> int {
        limbs_val(self.limbs@)
    }
}

/// The 20 limbs of the modulus itself: 1279 one bits.
spec fn modulus_limbs() -> Seq<u64> {
    Seq::new(20, |i: int| if i < 19 { 0xFFFF_FFFF_FFFF_FFFFu64 } else { 0x7FFF_FFFF_FFFF_FFFFu64 })
}

/// The modulus is a positive odd number well above 2.
pub proof fn lemma_modulus_bounds()
    ensures
        modulus() > 2,
        modulus() % 2 == 1,
        modulus() + 1 == pow2(1279),
{
    lemma2_to64();
    lemma_pow2_strictly_increases(2, 1279);
    lemma_pow2_unfold(1279);
    lemma_pow2_pos(1278);
    lemma_mod_multiples_vanish(pow2(1278) as int - 1, 1, 2);
    assert(2 * (pow2(1278) as int - 1) + 1 == modulus());
}

/// A sequence of all-ones limbs represents `2^(64n) - 1`.
proof fn lemma_all_ones_val(s: Seq<u64>)
    requires
        forall|i: int| 0 <= i < s.len() ==> s[i] == 0xFFFF_FFFF_FFFF_FFFF,
    ensures
        limbs_val(s) == pow2((64 * s.len()) as nat) - 1,
    decreases s.len(),
{
    lemma2_to64();
    if s.len() == 0 {
    } else {
        let r = s.drop_first();
        lemma_all_ones_val(r);
        lemma_pow2_adds(64, (64 * r.len()) as nat);
        assert(0xFFFF_FFFF_FFFF_FFFF + pow2(64) * (pow2((64 * r.len()) as nat) - 1) == pow2(64)
            * pow2((64 * r.len()) as nat) - 1) by (nonlinear_arith)
            requires
                pow2(64) == 0x1_0000_0000_0000_0000,
        ;
        assert(64 + 64 * r.len() == 64 * s.len());
    }
}

/// The limb sequence of the modulus represents the modulus.
proof fn lemma_modulus_limbs_val()
    ensures
        limbs_val(modulus_limbs()) == modulus(),
{
    lemma2_to64();
    lemma2_to64_rest();
    let m = modulus_limbs();
    lemma_limbs_val_split(m, 19);
    lemma_all_ones_val(m.take(19));
    lemma_limbs_val_singleton(m.skip(19));
    assert(m.skip(19)[0] == m[19]);
    assert(limbs_val(m.skip(19)) == 0x7FFF_FFFF_FFFF_FFFF);
    lemma_pow2_adds(1216, 63);
    assert(64 * m.take(19).len() == 1216);
    assert((pow2(1216) - 1) + pow2(1216) * (pow2(63) - 1) == pow2(1216) * pow2(63) - 1)
        by (nonlinear_arith);
}

/// Adding two limb sequences digit by digit (when no digit overflows)
/// adds their values.
proof fn lemma_limbs_val_pointwise_sum(a: Seq<u64>, b: Seq<u64>, c: Seq<u64>)
    requires
        a.len() == b.len() == c.len(),
        forall|i: int| 0 <= i < a.len() ==> a[i] + b[i] == c[i],
    ensures
        limbs_val(a) + limbs_val(b) == limbs_val(c),
    decreases a.len(),
{
    if a.len() > 0 {
        assert forall|i: int| 0 <= i < a.drop_first().len() implies a.drop_first()[i]
            + b.drop_first()[i] == c.drop_first()[i] by {
            assert(a[i + 1] + b[i + 1] == c[i + 1]);
        }
        lemma_limbs_val_pointwise_sum(a.drop_first(), b.drop_first(), c.drop_first());
        assert(pow2(64) * limbs_val(a.drop_first()) + pow2(64) * limbs_val(b.drop_first()) == pow2(
            64,
        ) * limbs_val(c.drop_first())) by (nonlinear_arith)
            requires
                limbs_val(a.drop_first()) + limbs_val(b.drop_first()) == limbs_val(c.drop_first()),
        ;
    }
}

/// A normalized non-empty limb vector represents a positive value.
proof fn lemma_normalized_pos(s: Seq<u64>)
    requires
        normalized(s),
        s.len() > 0,
    ensures
        limbs_val(s) >= pow2((64 * (s.len() - 1)) as nat),
{
    let j = s.len() - 1;
    lemma_limbs_val_split(s, j);
    lemma_limbs_val_nonneg(s.take(j));
    lemma_limbs_val_singleton(s.skip(j));
    assert(s.skip(j)[0] == s[j]);
    assert(limbs_val(s.skip(j)) == s[j]);
    lemma_pow2_pos((64 * j) as nat);
    assert(pow2((64 * j) as nat) * s[j] >= pow2((64 * j) as nat)) by (nonlinear_arith)
        requires
            s[j] >= 1,
            pow2((64 * j) as nat) > 0,
    ;
}

/// A normalized vector for a value within the modulus has at most 20
/// limbs, and bit 63 of limb 19 clear.
proof fn lemma_le_modulus_shape(s: Seq<u64>)
    requires
        normalized(s),
        limbs_val(s) <= modulus(),
    ensures
        s.len() <= 20,
        limb_at_spec(s, 19) < 0x8000_0000_0000_0000,
{
    lemma_pow2_strictly_increases(1279, 1280);
    lemma_normalized_len_bound(s, 20);
    if s.len() == 20 && s[19] >= 0x8000_0000_0000_0000 {
        lemma2_to64_rest();
        lemma_limbs_val_split(s, 19);
        lemma_limbs_val_nonneg(s.take(19));
        lemma_limbs_val_singleton(s.skip(19));
        assert(s.skip(19)[0] == s[19]);
        assert(limbs_val(s.skip(19)) == s[19]);
        lemma_pow2_adds(1216, 63);
        assert(pow2(1216) * limbs_val(s.skip(19)) >= pow2(1216) * pow2(63)) by (nonlinear_arith)
            requires
                limbs_val(s.skip(19)) >= pow2(63),
                pow2(1216) > 0,
        ;
        lemma_pow2_pos(1216);
        assert(false);
    }
}

/// The folded square of a value within the modulus stays within it.
/// The whole range `[0, 2^1279 - 1]` is closed under the operation.
pub proof fn lemma_sq_fold_range(x: int)
    requires
        0 <= x <= modulus(),
    ensures
        0 <= sq_fold(x) <= modulus(),
{
    let k = pow2(1279) as int;
    lemma_pow2_pos(1279);
    lemma_modulus_bounds();
    assert(k > 3);
    let p = x * x;
    assert(x * x >= 0) by (nonlinear_arith);
    assert(x * x <= (k - 1) * (k - 1)) by (nonlinear_arith)
        requires
            0 <= x <= k - 1,
    ;
    let low = p % k;
    let high = p / k;
    lemma_mod_bound(p, k);
    lemma_div_is_ordered(p, (k - 1) * (k - 1), k);
    assert((k - 1) * (k - 1) == (k - 2) * k + 1) by (nonlinear_arith);
    lemma_fundamental_div_mod_converse((k - 2) * k + 1, k, k - 2, 1);
    lemma_div_pos_is_pos(p, k);
    let s = low + high;
    assert(0 <= s <= 2 * k - 3);
    if (s / k) % 2 == 1 {
        if s < k {
            lemma_basic_div(s, k);
            assert(false);
        }
        assert(1 <= s - k + 1 <= k - 2);
    } else {
        if s >= k {
            lemma_fundamental_div_mod_converse(s, k, 1, s - k);
            assert(s / k == 1);
            assert(false);
        }
    }
}

/// The folded square is congruent to the true square modulo the prime:
/// folding at bit 1279 is a genuine modular reduction.
pub proof fn lemma_sq_fold_congruence(x: int)
    requires
        x >= 0,
    ensures
        sq_fold(x) % modulus() == (x * x) % modulus(),
{
    let k = pow2(1279) as int;
    let m = modulus();
    lemma_pow2_pos(1279);
    lemma_modulus_bounds();
    let p = x * x;
    assert(x * x >= 0) by (nonlinear_arith);
    let low = p % k;
    let high = p / k;
    let s = low + high;
    lemma_fundamental_div_mod(p, k);
    assert(p == k * high + low);
    assert(p == m * high + s) by (nonlinear_arith)
        requires
            p == k * high + low,
            m == k - 1,
            s == low + high,
    ;
    lemma_div_pos_is_pos(p, k);
    lemma_mod_bound(p, k);
    lemma_mod_multiples_vanish(high, s, m);
    if (s / k) % 2 == 1 {
        lemma_mod_sub_multiples_vanish(s, m);
        assert((s - m) % m == s % m);
        assert(sq_fold(x) == s - m);
    }
}

/// Toggling the lowest bit keeps a value within the modulus, because the
/// modulus is odd.
pub proof fn lemma_xor1_range(x: int)
    requires
        0 <= x <= modulus(),
    ensures
        0 <= xor1(x) <= modulus(),
{
    lemma_modulus_bounds();
    let m = modulus();
    if x % 2 == 0 {
        if x == m {
            assert(false);
        }
    } else {
        lemma_mod_bound(x, 2);
        assert(x >= 1);
    }
}

/// Negation modulo the prime is an involution away from the fixed points:
/// for `x` in `[1, modulus() - 1]`, negating twice gives `x` back.
pub proof fn lemma_negate_mod_involution(x: int)
    requires
        1 <= x <= modulus() - 1,
    ensures
        modulus() - (modulus() - x) == x,
        1 <= modulus() - x <= modulus() - 1,
{
}

impl BigInt {
    /// The representation carries no trailing zero limb, so equal values
    /// have equal representations.
    pub open spec fn wf(&self) -> bool {
        normalized(self.limbs@)
    }

    pub proof fn lemma_nonneg(&self)
        ensures
            self@ >= 0,
    {
        lemma_limbs_val_nonneg(self.limbs@);
    }

    /// Constructs a BigInt from a slice of big endian bytes.
    pub fn from_be_bytes(bytes: &[u8]) -> (r: BigInt)
        ensures
            r.wf(),
            r@ == be_bytes_val(bytes@),
    {
        let n = bytes.len();
        let mut limbs: Vec<u64> = Vec::new();
        let mut p: usize = n;
        proof {
            assert(bytes@.skip(n as int) =~= Seq::<u8>::empty());
        }
        while p >= 8
            invariant
                p <= n,
                n == bytes@.len(),
                n - p == 8 * limbs@.len(),
                limbs_val(limbs@) == be_bytes_val(bytes@.skip(p as int)),
            decreases p,
        {
            let b = read_be_chunk(bytes, p - 8, p);
            proof {
                assert(bytes@.skip(p - 8) =~= bytes@.subrange(p - 8, p as int) + bytes@.skip(
                    p as int,
                ));
                crate::bytes::lemma_be_bytes_val_append(
                    bytes@.subrange(p - 8, p as int),
                    bytes@.skip(p as int),
                );
                lemma_limbs_val_push(limbs@, b);
                assert(8 * bytes@.skip(p as int).len() == 64 * limbs@.len());
            }
            limbs.push(b);
            p = p - 8;
        }
        if p > 0 {
            let b = read_be_chunk(bytes, 0, p);
            proof {
                assert(bytes@.skip(0) =~= bytes@.subrange(0, p as int) + bytes@.skip(p as int));
                crate::bytes::lemma_be_bytes_val_append(
                    bytes@.subrange(0, p as int),
                    bytes@.skip(p as int),
                );
                lemma_limbs_val_push(limbs@, b);
                assert(8 * bytes@.skip(p as int).len() == 64 * limbs@.len());
            }
            limbs.push(b);
        }
        proof {
            assert(bytes@.skip(0) =~= bytes@);
        }
        strip_limbs(&mut limbs);
        BigInt { limbs }
    }

    /// Converts a BigInt to its minimal array of big endian bytes: no
    /// leading zero byte, and zero becomes the empty array.
    pub fn to_be_bytes(&self) -> (r: Vec<u8>)
        requires
            self.wf(),
        ensures
            r@ == min_be_bytes(self@),
    {
        let mut v = copy_limbs(&self.limbs);
        let mut r: Vec<u8> = Vec::new();
        proof {
            assert(min_be_bytes(self@) =~= min_be_bytes(limbs_val(v@)) + r@);
        }
        while v.len() > 0
            invariant
                normalized(v@),
                min_be_bytes(self@) == min_be_bytes(limbs_val(v@)) + r@,
            decreases limbs_val(v@),
        {
            let ghost val_old = limbs_val(v@);
            proof {
                lemma_normalized_pos(v@);
                lemma_pow2_pos((64 * (v@.len() - 1)) as nat);
            }
            let rem = divmod_256_limbs(&mut v);
            let ghost r_old = r@;
            r.insert(0, rem);
            proof {
                lemma_div_is_strictly_smaller(val_old, 256);
                lemma_div_pos_is_pos(val_old, 256);
                lemma_limbs_val_nonneg(v@);
                assert(min_be_bytes(val_old) == min_be_bytes(val_old / 256).push(
                    (val_old % 256) as u8,
                ));
                assert(r@ =~= seq![rem] + r_old);
                assert(min_be_bytes(val_old / 256).push(rem) + r_old =~= min_be_bytes(
                    val_old / 256,
                ) + (seq![rem] + r_old));
            }
        }
        proof {
            assert(min_be_bytes(limbs_val(v@)) =~= Seq::<u8>::empty());
            assert(min_be_bytes(self@) =~= r@);
        }
        r
    }

    /// Whether two values are equal, whatever their representations.
    pub fn eq_value(&self, other: &BigInt) -> (r: bool)
        ensures
            r == (self@ == other@),
    {
        let n: usize = if self.limbs.len() > other.limbs.len() {
            self.limbs.len()
        } else {
            other.limbs.len()
        };
        let mut i: usize = 0;
        while i < n
            invariant
                i <= n,
                n >= self.limbs@.len(),
                n >= other.limbs@.len(),
                forall|k: int|
                    0 <= k < i ==> limb_at_spec(self.limbs@, k) == limb_at_spec(other.limbs@, k),
            decreases n - i,
        {
            if limb_at(&self.limbs, i) != limb_at(&other.limbs, i) {
                proof {
                    if limbs_val(self.limbs@) == limbs_val(other.limbs@) {
                        lemma_limbs_val_injective(self.limbs@, other.limbs@);
                        assert(limb_at_spec(self.limbs@, i as int) == limb_at_spec(
                            other.limbs@,
                            i as int,
                        ));
                        assert(false);
                    }
                }
                return false;
            }
            i = i + 1;
        }
        proof {
            assert(ext_take(self.limbs@, n as int) =~= ext_take(other.limbs@, n as int));
            lemma_ext_take_full(self.limbs@, n as int);
            lemma_ext_take_full(other.limbs@, n as int);
        }
        true
    }

    /// Whether the value lies in `[0, modulus()]`.
    pub fn le_modulus(&self) -> (r: bool)
        requires
            self.wf(),
        ensures
            r == (self@ <= modulus()),
    {
        let n = self.limbs.len();
        if n < 20 {
            proof {
                lemma_limbs_val_bound(self.limbs@);
                if n > 0 {
                    lemma_pow2_strictly_increases((64 * n) as nat, 1279);
                } else {
                    lemma_pow2_pos(1279);
                }
            }
            true
        } else if n > 20 {
            proof {
                lemma_normalized_pos(self.limbs@);
                lemma_pow2_strictly_increases(1279, (64 * (n - 1)) as nat);
            }
            false
        } else {
            let top = self.limbs[19];
            proof {
                lemma2_to64_rest();
                lemma_limbs_val_split(self.limbs@, 19);
                lemma_limbs_val_bound(self.limbs@.take(19));
                lemma_limbs_val_nonneg(self.limbs@.take(19));
                lemma_limbs_val_singleton(self.limbs@.skip(19));
                assert(self.limbs@.skip(19)[0] == top);
                assert(limbs_val(self.limbs@.skip(19)) == top);
                lemma_pow2_adds(1216, 63);
                lemma_pow2_pos(1216);
                if top >= 0x8000_0000_0000_0000 {
                    assert(pow2(1216) * top >= pow2(1216) * pow2(63)) by (nonlinear_arith)
                        requires
                            top >= pow2(63),
                            pow2(1216) > 0,
                    ;
                } else {
                    assert(pow2(1216) * top <= pow2(1216) * (pow2(63) - 1)) by (nonlinear_arith)
                        requires
                            top <= pow2(63) - 1,
                            pow2(1216) > 0,
                    ;
                }
            }
            top < 0x8000_0000_0000_0000
        }
    }

    /// Squares the value in place modulo `2^1279 - 1`, by one full square,
    /// one fold at bit 1279, and one correction pass.
    pub fn square_mod(&mut self)
        requires
            old(self).wf(),
            old(self)@ <= modulus(),
        ensures
            final(self).wf(),
            final(self)@ == sq_fold(old(self)@),
            0 <= final(self)@ <= modulus(),
    {
        proof {
            lemma_limbs_val_nonneg(self.limbs@);
            lemma_pow2_strictly_increases(1279, 1280);
            lemma_normalized_len_bound(self.limbs@, 20);
            lemma_sq_fold_range(self@);
        }
        let p = mul_limbs(&self.limbs, &self.limbs);
        let (low, high) = split_1279(&p);
        let mut s = add_limbs(&low, &high);
        if bit_1279_set(&s) {
            proof {
                let vs = limbs_val(s@);
                lemma_pow2_pos(1279);
                lemma_limbs_val_nonneg(s@);
                if vs < pow2(1279) {
                    lemma_basic_div(vs, pow2(1279) as int);
                }
                assert(vs >= pow2(1279));
                if s@.len() < 20 {
                    lemma_limbs_val_bound(s@);
                    lemma_pow2_strictly_increases((64 * s@.len()) as nat, 1279);
                    assert(false);
                }
                lemma_bit_1279(s@);
            }
            clear_bit_1279(&mut s);
            let mut one: Vec<u64> = Vec::new();
            one.push(1);
            proof {
                lemma_limbs_val_singleton(one@);
                assert(limbs_val(one@) == 1);
            }
            s = add_limbs(&s, &one);
        }
        strip_limbs(&mut s);
        self.limbs = s;
        proof {
            lemma_limbs_val_nonneg(self.limbs@);
        }
    }

    /// Negates the value modulo `2^1279 - 1`: every one of the 1279 bits
    /// of the modulus is flipped, so no borrows occur.
    pub fn negate_mod(&self) -> (r: BigInt)
        requires
            self.wf(),
            self@ <= modulus(),
        ensures
            r.wf(),
            r@ == modulus() - self@,
            r@ <= modulus(),
    {
        proof {
            lemma_le_modulus_shape(self.limbs@);
            lemma_limbs_val_nonneg(self.limbs@);
        }
        let mut out: Vec<u64> = Vec::new();
        let mut i: usize = 0;
        while i < 19
            invariant
                i <= 19,
                out@.len() == i,
                forall|k: int|
                    0 <= k < i ==> out@[k] + limb_at_spec(self.limbs@, k) == modulus_limbs()[k],
            decreases 19 - i,
        {
            out.push(0xFFFF_FFFF_FFFF_FFFF - limb_at(&self.limbs, i));
            i = i + 1;
        }
        let top = limb_at(&self.limbs, 19);
        out.push(0x7FFF_FFFF_FFFF_FFFF - top);
        proof {
            let e = ext_take(self.limbs@, 20);
            assert forall|k: int| 0 <= k < 20 implies out@[k] + e[k] == modulus_limbs()[k] by {
                assert(e[k] == limb_at_spec(self.limbs@, k));
            }
            lemma_limbs_val_pointwise_sum(out@, e, modulus_limbs());
            lemma_modulus_limbs_val();
            lemma_ext_take_full(self.limbs@, 20);
        }
        strip_limbs(&mut out);
        let r = BigInt { limbs: out };
        proof {
            lemma_limbs_val_nonneg(self.limbs@);
        }
        r
    }

    /// Toggles the lowest bit of the value in place.
    pub fn xor_one(&mut self)
        requires
            old(self).wf(),
        ensures
            final(self).wf(),
            final(self)@ == xor1(old(self)@),
    {
        if self.limbs.len() == 0 {
            self.limbs.push(1);
            proof {
                lemma_limbs_val_singleton(self.limbs@);
                assert(limbs_val(self.limbs@) == 1);
            }
        } else {
            let l0 = self.limbs[0];
            let nl = l0 ^ 1;
            proof {
                lemma2_to64();
                lemma2_to64_rest();
                let w = self.limbs@;
                lemma_limbs_val_update(w, 0, nl);
                assert((nl - l0) * pow2(0) == nl - l0) by (nonlinear_arith)
                    requires
                        pow2(0) == 1,
                ;
                assert((l0 % 2 == 0 ==> (l0 ^ 1) == l0 + 1) && (l0 % 2 != 0 ==> (l0 ^ 1) == l0
                    - 1)) by (bit_vector);
                let rest = limbs_val(w.drop_first());
                lemma_limbs_val_nonneg(w.drop_first());
                assert(limbs_val(w) == l0 + 2 * (pow2(63) * rest)) by (nonlinear_arith)
                    requires
                        limbs_val(w) == l0 + pow2(64) * rest,
                        pow2(64) == 2 * pow2(63),
                ;
                lemma_mod_multiples_vanish(pow2(63) as int * rest, l0 as int, 2);
                assert(limbs_val(w) % 2 == l0 % 2);
                lemma_mod_bound(l0 as int, 2);
            }
            self.limbs[0] = nl;
            proof {
                if self.limbs@.len() > 1 {
                    assert(self.limbs@.last() == old(self).limbs@.last());
                }
            }
            strip_limbs(&mut self.limbs);
        }
    }
}

/// Reads up to eight big-endian bytes as a 64-bit value.
fn read_be_chunk(bytes: &[u8], lo: usize, hi: usize) -> (b: u64)
    requires
        lo <= hi <= bytes@.len(),
        hi - lo <= 8,
    ensures
        b == be_bytes_val(bytes@.subrange(lo as int, hi as int)),
{
    let mut b: u64 = 0;
    let mut k = lo;
    proof {
        lemma2_to64();
        assert(bytes@.subrange(lo as int, lo as int) =~= Seq::<u8>::empty());
    }
    while k < hi
        invariant
            lo <= k <= hi <= bytes@.len(),
            hi - lo <= 8,
            b == be_bytes_val(bytes@.subrange(lo as int, k as int)),
            b < pow2((8 * (k - lo)) as nat),
        decreases hi - k,
    {
        let byte = bytes[k];
        proof {
            lemma2_to64();
            lemma2_to64_rest();
            let d = k - lo;
            if d < 7 {
                lemma_pow2_strictly_increases((8 * d) as nat, 56);
            }
            assert(pow2(56) == 0x0100_0000_0000_0000);
            assert(b < 0x0100_0000_0000_0000);
            assert(((b << 8) | (byte as u64)) == b * 256 + byte && b * 256 + byte
                < 0x1_0000_0000_0000_0000) by (bit_vector)
                requires
                    b < 0x0100_0000_0000_0000u64,
                    byte < 0x100u64,
            ;
            assert(bytes@.subrange(lo as int, k + 1).drop_last() =~= bytes@.subrange(
                lo as int,
                k as int,
            ));
            assert(bytes@.subrange(lo as int, k + 1).last() == bytes@[k as int]);
            lemma_pow2_adds((8 * d) as nat, 8);
            assert(b * 256 + byte < pow2((8 * d) as nat) * 256) by (nonlinear_arith)
                requires
                    b <= pow2((8 * d) as nat) - 1,
                    byte < 256,
            ;
        }
        b = (b << 8) | (byte as u64);
        k = k + 1;
    }
    b
}

/// Copies a limb vector.
fn copy_limbs(v: &Vec<u64>) -> (r: Vec<u64>)
    ensures
        r@ == v@,
{
    let mut r: Vec<u64> = Vec::new();
    let mut i: usize = 0;
    while i < v.len()
        invariant
            i <= v@.len(),
            r@ == v@.take(i as int),
        decreases v@.len() - i,
    {
        r.push(v[i]);
        proof {
            assert(r@ =~= v@.take(i + 1));
        }
        i = i + 1;
    }
    proof {
        assert(r@ =~= v@);
    }
    r
}

/// Divides a normalized limb vector by 256 in place, returning the
/// remainder, by short division from the most significant limb down.
fn divmod_256_limbs(v: &mut Vec<u64>) -> (rem: u8)
    requires
        normalized(old(v)@),
    ensures
        normalized(final(v)@),
        limbs_val(final(v)@) == limbs_val(old(v)@) / 256,
        rem == limbs_val(old(v)@) % 256,
{
    let n = v.len();
    let mut carry: u8 = 0;
    let mut j = n;
    proof {
        assert(old(v)@.skip(n as int) =~= Seq::<u64>::empty());
        assert(v@.skip(n as int) =~= Seq::<u64>::empty());
    }
    while j > 0
        invariant
            j <= n,
            n == v@.len(),
            n == old(v)@.len(),
            v@.take(j as int) == old(v)@.take(j as int),
            limbs_val(old(v)@.skip(j as int)) == 256 * limbs_val(v@.skip(j as int)) + carry,
        decreases j,
    {
        let l = v[j - 1];
        proof {
            assert(old(v)@[j - 1] == old(v)@.take(j as int)[j - 1]);
            assert(l == old(v)@[j - 1]);
        }
        let w = ((carry as u64) << 56) | (l >> 8);
        let c2 = (l & 0xFF) as u8;
        proof {
            lemma2_to64();
            lemma2_to64_rest();
            let cg = carry as u64;
            assert(((cg << 56) | (l >> 8)) == cg * 0x0100_0000_0000_0000 + (l >> 8) && (l >> 8)
                * 256 + (l & 0xFF) == l && (l & 0xFF) < 256 && (l >> 8) < 0x0100_0000_0000_0000)
                by (bit_vector)
                requires
                    cg < 0x100u64,
            ;
            let prev = v@;
            lemma_limbs_val_update(prev, j - 1, w);
            let vold = limbs_val(old(v)@.skip(j - 1));
            let vs = limbs_val(v@.skip(j as int));
            assert(old(v)@.skip(j - 1)[0] == old(v)@[j - 1]);
            assert(old(v)@.skip(j - 1).drop_first() =~= old(v)@.skip(j as int));
            assert(vold == l + pow2(64) * limbs_val(old(v)@.skip(j as int)));
            let upd = prev.update(j - 1, w);
            assert(upd.skip(j - 1)[0] == w);
            assert(upd.skip(j - 1).drop_first() =~= prev.skip(j as int));
            assert(upd.skip(j as int) =~= prev.skip(j as int));
            assert(limbs_val(upd.skip(j - 1)) == w + pow2(64) * vs) by {
                assert(limbs_val(upd.skip(j - 1)) == upd.skip(j - 1)[0] + pow2(64) * limbs_val(
                    upd.skip(j - 1).drop_first(),
                ));
            }
            assert(upd.take(j - 1) =~= old(v)@.take(j - 1));
            assert(vold == 256 * (w + pow2(64) * vs) + c2) by (nonlinear_arith)
                requires
                    vold == l + pow2(64) * (256 * vs + carry),
                    w == carry * 0x0100_0000_0000_0000 + (l >> 8),
                    l == (l >> 8) * 256 + (l & 0xFF),
                    c2 == l & 0xFF,
                    pow2(64) == 256 * 0x0100_0000_0000_0000,
            ;
        }
        v[j - 1] = w;
        carry = c2;
        j = j - 1;
    }
    proof {
        assert(v@.skip(0) =~= v@);
        assert(old(v)@.skip(0) =~= old(v)@);
        lemma_limbs_val_nonneg(v@);
        lemma_fundamental_div_mod_converse(
            limbs_val(old(v)@),
            256,
            limbs_val(v@),
            carry as int,
        );
    }
    strip_limbs(v);
    carry
}

} // verus!
