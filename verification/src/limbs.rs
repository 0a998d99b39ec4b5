//! Unbounded non-negative integers as little-endian vectors of 64-bit limbs.
//!
//! The mathematical value of a limb vector is given by [`limbs_val`]; all
//! arithmetic contracts in the crate are stated over that value.

use vstd::prelude::*;
use vstd::arithmetic::power2::*;
use vstd::arithmetic::div_mod::*;

verus! {

/// The value represented by a little-endian sequence of 64-bit limbs:
/// `s[0] + 2^64 * s[1] + 2^128 * s[2] + ...`.
pub open spec fn limbs_val(s: Seq<u64>) -> int
    decreases s.len(),
{
    if s.len() == 0 {
        0
    } else {
        s[0] + pow2(64) * limbs_val(s.drop_first())
    }
}

/// The limb at position `i`, with positions past the end reading as zero.
pub open spec fn limb_at_spec(s: Seq<u64>, i: int) -> u64 {
    if 0 <= i < s.len() {
        s[i]
    } else {
        0
    }
}

/// The first `n` limbs of `s`, zero-extended past the end of `s`.
pub open spec fn ext_take(s: Seq<u64>, n: int) -> Seq<u64>
    recommends
        n >= 0,
{
    Seq::new(n as nat, |j: int| limb_at_spec(s, j))
}

pub broadcast proof fn lemma_limbs_val_nonneg(s: Seq<u64>)
    ensures
        #[trigger] limbs_val(s) >= 0,
    decreases s.len(),
{
    if s.len() > 0 {
        lemma_limbs_val_nonneg(s.drop_first());
        broadcast use lemma_pow2_pos;

        assert(pow2(64) * limbs_val(s.drop_first()) >= 0) by (nonlinear_arith)
            requires
                limbs_val(s.drop_first()) >= 0,
                pow2(64) > 0,
        ;
    }
}

/// Appending a limb adds its value scaled by the weight of its position.
pub proof fn lemma_limbs_val_push(s: Seq<u64>, x: u64)
    ensures
        limbs_val(s.push(x)) == limbs_val(s) + x * pow2(64 * s.len()),
    decreases s.len(),
{
    if s.len() == 0 {
        assert(s.push(x).drop_first() =~= Seq::<u64>::empty());
        assert(limbs_val(s.push(x)) == x + pow2(64) * limbs_val(Seq::<u64>::empty()));
        lemma2_to64();
        assert(x * pow2(0) == x) by (nonlinear_arith)
            requires
                pow2(0) == 1,
        ;
    } else {
        assert(s.push(x).drop_first() =~= s.drop_first().push(x));
        lemma_limbs_val_push(s.drop_first(), x);
        let r = s.drop_first();
        assert(limbs_val(s.push(x)) == s[0] + pow2(64) * (limbs_val(r) + x * pow2(
            64 * r.len(),
        )));
        assert(pow2(64) * (limbs_val(r) + x * pow2(64 * r.len())) == pow2(64) * limbs_val(r) + x * (
        pow2(64) * pow2(64 * r.len()))) by (nonlinear_arith);
        lemma_pow2_adds(64, 64 * r.len());
        assert(64 + 64 * r.len() == 64 * s.len());
    }
}

/// A sequence of `n` limbs represents a value below `2^(64n)`.
pub proof fn lemma_limbs_val_bound(s: Seq<u64>)
    ensures
        limbs_val(s) < pow2(64 * s.len()),
    decreases s.len(),
{
    broadcast use lemma_pow2_pos;

    if s.len() == 0 {
        lemma2_to64();
    } else {
        let r = s.drop_first();
        lemma_limbs_val_bound(r);
        lemma2_to64();
        assert(pow2(64) * limbs_val(r) <= pow2(64) * (pow2(64 * r.len()) - 1))
            by (nonlinear_arith)
            requires
                limbs_val(r) <= pow2(64 * r.len()) - 1,
                pow2(64) > 0,
        ;
        lemma_pow2_adds(64, 64 * r.len());
        assert(64 + 64 * r.len() == 64 * s.len());
    }
}

/// The value of a limb sequence splits at any position `i`.
pub proof fn lemma_limbs_val_split(s: Seq<u64>, i: int)
    requires
        0 <= i <= s.len(),
    ensures
        limbs_val(s) == limbs_val(s.take(i)) + pow2((64 * i) as nat) * limbs_val(s.skip(i)),
    decreases i,
{
    if i == 0 {
        assert(s.take(0) =~= Seq::<u64>::empty());
        assert(s.skip(0) =~= s);
        lemma2_to64();
        assert(pow2(0) * limbs_val(s.skip(0)) == limbs_val(s)) by (nonlinear_arith)
            requires
                pow2(0) == 1,
                s.skip(0) == s,
        ;
    } else {
        let r = s.drop_first();
        assert(s.take(i).drop_first() =~= r.take(i - 1));
        assert(s.skip(i) =~= r.skip(i - 1));
        lemma_limbs_val_split(r, i - 1);
        assert(limbs_val(s.take(i)) == s[0] + pow2(64) * limbs_val(r.take(i - 1)));
        assert(pow2(64) * (limbs_val(r.take(i - 1)) + pow2((64 * (i - 1)) as nat) * limbs_val(
            r.skip(i - 1),
        )) == pow2(64) * limbs_val(r.take(i - 1)) + (pow2(64) * pow2((64 * (i - 1)) as nat))
            * limbs_val(r.skip(i - 1))) by (nonlinear_arith);
        lemma_pow2_adds(64, (64 * (i - 1)) as nat);
        assert(64 + 64 * (i - 1) == 64 * i);
    }
}

/// A value of zero forces every limb to be zero.
proof fn lemma_limbs_val_zero(s: Seq<u64>)
    requires
        limbs_val(s) == 0,
    ensures
        forall|i: int| 0 <= i < s.len() ==> s[i] == 0,
    decreases s.len(),
{
    if s.len() > 0 {
        let r = s.drop_first();
        lemma_limbs_val_nonneg(r);
        broadcast use lemma_pow2_pos;

        assert(pow2(64) * limbs_val(r) >= 0) by (nonlinear_arith)
            requires
                limbs_val(r) >= 0,
                pow2(64) > 0,
        ;
        assert(s[0] == 0);
        assert(pow2(64) * limbs_val(r) == 0);
        assert(limbs_val(r) == 0) by (nonlinear_arith)
            requires
                pow2(64) * limbs_val(r) == 0,
                pow2(64) > 0,
        ;
        lemma_limbs_val_zero(r);
        assert forall|i: int| 0 <= i < s.len() implies s[i] == 0 by {
            if i > 0 {
                assert(s[i] == r[i - 1]);
            }
        }
    }
}

/// Two limb sequences with the same value agree limb by limb
/// (reading positions past the end as zero).
pub proof fn lemma_limbs_val_injective(a: Seq<u64>, b: Seq<u64>)
    requires
        limbs_val(a) == limbs_val(b),
    ensures
        forall|i: int| #[trigger] limb_at_spec(a, i) == limb_at_spec(b, i),
    decreases a.len() + b.len(),
{
    broadcast use lemma_pow2_pos;

    if a.len() == 0 && b.len() == 0 {
    } else if a.len() == 0 {
        lemma_limbs_val_zero(b);
    } else if b.len() == 0 {
        lemma_limbs_val_zero(a);
    } else {
        let ra = a.drop_first();
        let rb = b.drop_first();
        lemma_limbs_val_nonneg(ra);
        lemma_limbs_val_nonneg(rb);
        lemma2_to64();
        assert(a[0] == b[0] && limbs_val(ra) == limbs_val(rb)) by (nonlinear_arith)
            requires
                a[0] + pow2(64) * limbs_val(ra) == b[0] + pow2(64) * limbs_val(rb),
                0 <= a[0] < pow2(64),
                0 <= b[0] < pow2(64),
                limbs_val(ra) >= 0,
                limbs_val(rb) >= 0,
        ;
        lemma_limbs_val_injective(ra, rb);
        assert forall|i: int| #[trigger] limb_at_spec(a, i) == limb_at_spec(b, i) by {
            if i > 0 {
                assert(limb_at_spec(a, i) == limb_at_spec(ra, i - 1));
                assert(limb_at_spec(b, i) == limb_at_spec(rb, i - 1));
            }
        }
    }
}

/// Replacing one limb changes the value by the weighted difference.
pub proof fn lemma_limbs_val_update(s: Seq<u64>, k: int, y: u64)
    requires
        0 <= k < s.len(),
    ensures
        limbs_val(s.update(k, y)) == limbs_val(s) + (y - s[k]) * pow2((64 * k) as nat),
    decreases k,
{
    if k == 0 {
        assert(s.update(0, y).drop_first() =~= s.drop_first());
        lemma2_to64();
        assert((y - s[0]) * pow2(0) == y - s[0]) by (nonlinear_arith)
            requires
                pow2(0) == 1,
        ;
    } else {
        let r = s.drop_first();
        assert(s.update(k, y).drop_first() =~= r.update(k - 1, y));
        lemma_limbs_val_update(r, k - 1, y);
        assert(pow2(64) * (limbs_val(r) + (y - r[k - 1]) * pow2((64 * (k - 1)) as nat)) == pow2(64)
            * limbs_val(r) + (y - r[k - 1]) * (pow2(64) * pow2((64 * (k - 1)) as nat)))
            by (nonlinear_arith);
        lemma_pow2_adds(64, (64 * (k - 1)) as nat);
        assert(64 + 64 * (k - 1) == 64 * k);
    }
}

/// A limb vector is normalized when it carries no trailing zero limb.
pub open spec fn normalized(s: Seq<u64>) -> bool {
    s.len() == 0 || s[s.len() - 1] != 0
}

/// A normalized vector for a value below `2^(64k)` has at most `k` limbs.
pub proof fn lemma_normalized_len_bound(s: Seq<u64>, k: int)
    requires
        normalized(s),
        k >= 0,
        limbs_val(s) < pow2((64 * k) as nat),
    ensures
        s.len() <= k,
{
    if s.len() > k {
        let j = s.len() - 1;
        lemma_limbs_val_split(s, j);
        lemma_limbs_val_nonneg(s.take(j));
        assert(limbs_val(s.skip(j)) == s[j] + pow2(64) * limbs_val(s.skip(j).drop_first()));
        assert(s.skip(j).drop_first() =~= Seq::<u64>::empty());
        assert(limbs_val(s.skip(j)) == s[j]);
        assert(limbs_val(s) >= pow2((64 * j) as nat) * s[j]) by (nonlinear_arith)
            requires
                limbs_val(s) == limbs_val(s.take(j)) + pow2((64 * j) as nat) * limbs_val(s.skip(j)),
                limbs_val(s.take(j)) >= 0,
                limbs_val(s.skip(j)) == s[j],
        ;
        assert(s[j] >= 1);
        lemma_pow2_pos((64 * j) as nat);
        assert(pow2((64 * j) as nat) * s[j] >= pow2((64 * j) as nat)) by (nonlinear_arith)
            requires
                s[j] >= 1,
                pow2((64 * j) as nat) > 0,
        ;
        if k < j {
            lemma_pow2_strictly_increases((64 * k) as nat, (64 * j) as nat);
        }
        assert(false);
    }
}

/// Removes trailing zero limbs, preserving the value.
pub fn strip_limbs(v: &mut Vec<u64>)
    ensures
        normalized(final(v)@),
        limbs_val(final(v)@) == limbs_val(old(v)@),
        final(v)@.len() <= old(v)@.len(),
{
    while v.len() > 0 && v[v.len() - 1] == 0
        invariant
            limbs_val(v@) == limbs_val(old(v)@),
            v@.len() <= old(v)@.len(),
        decreases v@.len(),
    {
        let ghost prev = v@;
        v.pop();
        proof {
            assert(prev =~= v@.push(0u64));
            lemma_limbs_val_push(v@, 0u64);
        }
    }
}

/// Reads limb `i`, with positions past the end reading as zero.
pub fn limb_at(v: &Vec<u64>, i: usize) -> (r: u64)
    ensures
        r == limb_at_spec(v@, i as int),
{
    if i < v.len() {
        v[i]
    } else {
        0
    }
}

/// Adds two limb vectors as non-negative integers.
pub fn add_limbs(a: &Vec<u64>, b: &Vec<u64>) -> (r: Vec<u64>)
    ensures
        limbs_val(r@) == limbs_val(a@) + limbs_val(b@),
        r@.len() <= (if a@.len() > b@.len() { a@.len() } else { b@.len() }) + 1,
{
    let n: usize = if a.len() > b.len() {
        a.len()
    } else {
        b.len()
    };
    let mut r: Vec<u64> = Vec::new();
    let mut carry: u64 = 0;
    let mut i: usize = 0;
    while i < n
        invariant
            i <= n,
            n >= a@.len(),
            n >= b@.len(),
            carry <= 1,
            r@.len() == i,
            limbs_val(r@) + carry * pow2((64 * i) as nat) == limbs_val(ext_take(a@, i as int))
                + limbs_val(ext_take(b@, i as int)),
        decreases n - i,
    {
        let ai = limb_at(a, i);
        let bi = limb_at(b, i);
        let s: u128 = ai as u128 + bi as u128 + carry as u128;
        let limb: u64 = (s & 0xFFFF_FFFF_FFFF_FFFF) as u64;
        let c2: u64 = (s >> 64) as u64;
        proof {
            assert(s == (s & 0xFFFF_FFFF_FFFF_FFFF) + (s >> 64) * 0x1_0000_0000_0000_0000_u128
                && (s & 0xFFFF_FFFF_FFFF_FFFF) <= 0xFFFF_FFFF_FFFF_FFFF_u128 && (s >> 64) <= 1)
                by (bit_vector)
                requires
                    s < 0x2_0000_0000_0000_0000_u128,
            ;
            lemma2_to64();
            assert(ext_take(a@, i + 1) =~= ext_take(a@, i as int).push(limb_at_spec(
                a@,
                i as int,
            )));
            assert(ext_take(b@, i + 1) =~= ext_take(b@, i as int).push(limb_at_spec(
                b@,
                i as int,
            )));
            lemma_limbs_val_push(ext_take(a@, i as int), limb_at_spec(a@, i as int));
            lemma_limbs_val_push(ext_take(b@, i as int), limb_at_spec(b@, i as int));
            lemma_limbs_val_push(r@, limb);
            lemma_pow2_adds(64, (64 * i) as nat);
            let p = pow2((64 * i) as nat) as int;
            assert(limbs_val(r@.push(limb)) + c2 * (pow2(64) * p) == limbs_val(r@) + carry * p + ai
                * p + bi * p) by (nonlinear_arith)
                requires
                    limbs_val(r@.push(limb)) == limbs_val(r@) + limb * p,
                    limb + c2 * 0x1_0000_0000_0000_0000 == ai + bi + carry,
                    pow2(64) == 0x1_0000_0000_0000_0000,
            ;
            assert(64 * (i + 1) == 64 + 64 * i);
        }
        r.push(limb);
        carry = c2;
        i = i + 1;
    }
    proof {
        lemma_ext_take_full(a@, n as int);
        lemma_ext_take_full(b@, n as int);
    }
    if carry > 0 {
        proof {
            lemma_limbs_val_push(r@, carry);
        }
        r.push(carry);
    }
    r
}

/// A single limb represents its own value.
pub proof fn lemma_limbs_val_singleton(s: Seq<u64>)
    requires
        s.len() == 1,
    ensures
        limbs_val(s) == s[0],
{
    assert(s.drop_first() =~= Seq::<u64>::empty());
    assert(limbs_val(s) == s[0] + pow2(64) * limbs_val(s.drop_first()));
}

/// An all-zero limb sequence represents zero.
pub proof fn lemma_limbs_val_all_zero(s: Seq<u64>)
    requires
        forall|i: int| 0 <= i < s.len() ==> s[i] == 0,
    ensures
        limbs_val(s) == 0,
    decreases s.len(),
{
    if s.len() > 0 {
        lemma_limbs_val_all_zero(s.drop_first());
    }
}

/// A vector of `n` zero limbs.
fn zero_limbs(n: usize) -> (r: Vec<u64>)
    ensures
        r@.len() == n,
        forall|i: int| 0 <= i < n ==> r@[i] == 0,
        limbs_val(r@) == 0,
{
    let mut r: Vec<u64> = Vec::new();
    let mut i: usize = 0;
    while i < n
        invariant
            i <= n,
            r@.len() == i,
            forall|k: int| 0 <= k < i ==> r@[k] == 0,
        decreases n - i,
    {
        r.push(0);
        i = i + 1;
    }
    proof {
        lemma_limbs_val_all_zero(r@);
    }
    r
}

/// Multiplies two limb vectors as non-negative integers, by the schoolbook
/// method with 64-bit limbs and 128-bit intermediate products.
pub fn mul_limbs(a: &Vec<u64>, b: &Vec<u64>) -> (r: Vec<u64>)
    requires
        a@.len() + b@.len() < usize::MAX,
    ensures
        limbs_val(r@) == limbs_val(a@) * limbs_val(b@),
        r@.len() == a@.len() + b@.len(),
{
    let n = a.len();
    let m = b.len();
    let mut r = zero_limbs(n + m);
    let mut i: usize = 0;
    proof {
        assert(a@.take(0) =~= Seq::<u64>::empty());
    }
    while i < n
        invariant
            i <= n,
            n == a@.len(),
            m == b@.len(),
            n + m < usize::MAX,
            r@.len() == n + m,
            limbs_val(r@) == limbs_val(a@.take(i as int)) * limbs_val(b@),
            forall|k: int| i + m <= k < n + m ==> r@[k] == 0,
        decreases n - i,
    {
        let ai = a[i];
        let mut carry: u64 = 0;
        let mut j: usize = 0;
        proof {
            assert(b@.take(0) =~= Seq::<u64>::empty());
        }
        while j < m
            invariant
                j <= m,
                i < n,
                n == a@.len(),
                m == b@.len(),
                n + m < usize::MAX,
                ai == a@[i as int],
                r@.len() == n + m,
                limbs_val(r@) + (carry * pow2((64 * (i + j)) as nat)) == limbs_val(a@.take(
                    i as int,
                )) * limbs_val(b@) + (ai * limbs_val(b@.take(j as int))) * pow2((64 * i) as nat),
                forall|k: int| i + m <= k < n + m ==> r@[k] == 0,
            decreases m - j,
        {
            let bj = b[j];
            let rij = r[i + j];
            proof {
                assert((ai as u128) * (bj as u128) <= 0xFFFF_FFFF_FFFF_FFFE_0000_0000_0000_0001_u128)
                    by (nonlinear_arith)
                    requires
                        ai as u128 <= 0xFFFF_FFFF_FFFF_FFFF_u128,
                        bj as u128 <= 0xFFFF_FFFF_FFFF_FFFF_u128,
                ;
            }
            let t: u128 = rij as u128 + (ai as u128) * (bj as u128) + carry as u128;
            let lo: u64 = (t & 0xFFFF_FFFF_FFFF_FFFF) as u64;
            let hi: u64 = (t >> 64) as u64;
            proof {
                assert(t == (t & 0xFFFF_FFFF_FFFF_FFFF) + (t >> 64) * 0x1_0000_0000_0000_0000_u128
                    && (t & 0xFFFF_FFFF_FFFF_FFFF) <= 0xFFFF_FFFF_FFFF_FFFF_u128) by (bit_vector);
                let ghost prev = r@;
                lemma_limbs_val_update(prev, i + j, lo);
                lemma_pow2_adds((64 * (i + j)) as nat, 64);
                lemma_pow2_adds((64 * i) as nat, (64 * j) as nat);
                lemma2_to64();
                assert(b@.take(j + 1) =~= b@.take(j as int).push(bj));
                lemma_limbs_val_push(b@.take(j as int), bj);
                let p_ij = pow2((64 * (i + j)) as nat) as int;
                let p_i = pow2((64 * i) as nat) as int;
                let p_j = pow2((64 * j) as nat) as int;
                let va = limbs_val(a@.take(i as int));
                let vb = limbs_val(b@);
                let vbj = limbs_val(b@.take(j as int));
                assert(limbs_val(prev.update(i + j, lo)) + hi * (p_ij
                    * 0x1_0000_0000_0000_0000) == va * vb + (ai * (vbj + bj * p_j)) * p_i)
                    by (nonlinear_arith)
                    requires
                        limbs_val(prev.update(i + j, lo)) == limbs_val(prev) + (lo - prev[i + j])
                            * p_ij,
                        limbs_val(prev) + carry * p_ij == va * vb + (ai * vbj) * p_i,
                        lo + hi * 0x1_0000_0000_0000_0000 == prev[i + j] + ai * bj + carry,
                        p_ij == p_i * p_j,
                ;
                assert(64 * (i + j) + 64 == 64 * (i + (j + 1)));
            }
            r[i + j] = lo;
            carry = hi;
            j = j + 1;
        }
        proof {
            assert(b@.take(m as int) =~= b@);
            let ghost prev = r@;
            lemma_limbs_val_update(prev, i + m, carry);
            lemma_pow2_adds((64 * i) as nat, (64 * m) as nat);
            assert(a@.take(i + 1) =~= a@.take(i as int).push(ai));
            lemma_limbs_val_push(a@.take(i as int), ai);
            let p_im = pow2((64 * (i + m)) as nat) as int;
            let p_i = pow2((64 * i) as nat) as int;
            let va = limbs_val(a@.take(i as int));
            let vb = limbs_val(b@);
            assert(limbs_val(prev.update(i + m, carry)) == (va + ai * p_i) * vb)
                by (nonlinear_arith)
                requires
                    limbs_val(prev.update(i + m, carry)) == limbs_val(prev) + (carry - prev[i
                        + m]) * p_im,
                    prev[i + m] == 0,
                    limbs_val(prev) + carry * p_im == va * vb + (ai * limbs_val(b@)) * p_i,
                    limbs_val(b@) == vb,
                    p_im == p_i * pow2((64 * m) as nat),
            ;
            assert(64 * (i + m) == 64 * i + 64 * m);
        }
        r[i + m] = carry;
        i = i + 1;
    }
    proof {
        assert(a@.take(n as int) =~= a@);
    }
    r
}

/// The limbs of a value shifted right by 63 bits: limb `j` of the result
/// takes the top bit of limb `j` and the low 63 bits of limb `j + 1`.
spec fn shr63_seq(y: Seq<u64>) -> Seq<u64> {
    Seq::new(y.len(), |j: int| (y[j] >> 63) | (limb_at_spec(y, j + 1) << 1))
}

/// Shifting the limbs right by 63 bits divides the value by `2^63`.
proof fn lemma_shr63_val(y: Seq<u64>)
    ensures
        limbs_val(shr63_seq(y)) == limbs_val(y) / pow2(63) as int,
    decreases y.len(),
{
    lemma2_to64();
    lemma2_to64_rest();
    if y.len() == 0 {
        assert(shr63_seq(y) =~= Seq::<u64>::empty());
    } else {
        let y0 = y[0];
        let yr = y.drop_first();
        let y1 = limb_at_spec(y, 1);
        let z = shr63_seq(y);
        assert(z.drop_first() =~= shr63_seq(yr));
        lemma_shr63_val(yr);
        lemma_limbs_val_nonneg(yr);
        assert((y0 >> 63) | (y1 << 1) == (y0 >> 63) + (y1 & 0x7FFF_FFFF_FFFF_FFFF) * 2 && (y0
            >> 63) <= 1 && (y0 >> 63) * 0x8000_0000_0000_0000 + (y0 & 0x7FFF_FFFF_FFFF_FFFF) == y0
            && (y0 & 0x7FFF_FFFF_FFFF_FFFF) < 0x8000_0000_0000_0000 && (y1 >> 63)
            * 0x8000_0000_0000_0000 + (y1 & 0x7FFF_FFFF_FFFF_FFFF) == y1 && (y1
            & 0x7FFF_FFFF_FFFF_FFFF) < 0x8000_0000_0000_0000) by (bit_vector);
        let h0 = (y0 >> 63) as int;
        let lo0 = (y0 & 0x7FFF_FFFF_FFFF_FFFF) as int;
        let vy = limbs_val(y);
        let vyr = limbs_val(yr);
        assert(vy == lo0 + pow2(63) * (h0 + 2 * vyr)) by (nonlinear_arith)
            requires
                vy == y0 + pow2(64) * vyr,
                y0 == lo0 + h0 * pow2(63),
                pow2(64) == 2 * pow2(63),
        ;
        lemma_pow2_pos(63);
        lemma_fundamental_div_mod_converse(
            vy,
            pow2(63) as int,
            h0 + 2 * vyr,
            lo0,
        );
        if yr.len() == 0 {
            assert(z =~= seq![(y0 >> 63) | (0u64 << 1)]);
            assert((y0 >> 63) | (0u64 << 1) == y0 >> 63) by (bit_vector);
            assert(limbs_val(z) == (y0 >> 63) + pow2(64) * limbs_val(z.drop_first()));
            assert(limbs_val(z) == h0);
        } else {
            let y1b = yr[0];
            assert(y1b == y1);
            let vyrr = limbs_val(yr.drop_first());
            lemma_limbs_val_nonneg(yr.drop_first());
            let c1 = (y1 >> 63) as int;
            let lo1 = (y1 & 0x7FFF_FFFF_FFFF_FFFF) as int;
            assert(vyr == lo1 + pow2(63) * (c1 + 2 * vyrr)) by (nonlinear_arith)
                requires
                    vyr == y1 + pow2(64) * vyrr,
                    y1 == lo1 + c1 * pow2(63),
                    pow2(64) == 2 * pow2(63),
            ;
            lemma_fundamental_div_mod_converse(
                vyr,
                pow2(63) as int,
                c1 + 2 * vyrr,
                lo1,
            );
            assert(limbs_val(z) == z[0] + pow2(64) * limbs_val(z.drop_first()));
            assert(limbs_val(z) == (h0 + lo1 * 2) + pow2(64) * (c1 + 2 * vyrr));
            assert((h0 + lo1 * 2) + pow2(64) * (c1 + 2 * vyrr) == h0 + 2 * vyr)
                by (nonlinear_arith)
                requires
                    vyr == lo1 + c1 * pow2(63) + pow2(63) * (2 * vyrr),
                    pow2(64) == 2 * pow2(63),
            ;
        }
    }
}

/// Splits a value into its low 1279 bits and the rest shifted down by
/// 1279 positions. 1279 bits are 19 whole limbs and 63 bits of limb 19.
pub fn split_1279(p: &Vec<u64>) -> (res: (Vec<u64>, Vec<u64>))
    ensures
        limbs_val(res.0@) == limbs_val(p@) % pow2(1279) as int,
        limbs_val(res.1@) == limbs_val(p@) / pow2(1279) as int,
{
    proof {
        lemma2_to64();
        lemma2_to64_rest();
        lemma_pow2_pos(1279);
    }
    if p.len() <= 19 {
        let mut low: Vec<u64> = Vec::new();
        let mut i: usize = 0;
        while i < p.len()
            invariant
                i <= p@.len(),
                low@ == p@.take(i as int),
            decreases p@.len() - i,
        {
            let ghost prev = low@;
            low.push(p[i]);
            proof {
                assert(low@ =~= p@.take(i + 1));
            }
            i = i + 1;
        }
        let high: Vec<u64> = Vec::new();
        proof {
            assert(low@ =~= p@);
            lemma_limbs_val_bound(p@);
            lemma_limbs_val_nonneg(p@);
            lemma_pow2_strictly_increases((64 * p@.len()) as nat, 1279);
            lemma_basic_div(limbs_val(p@), pow2(1279) as int);
            lemma_small_mod(limbs_val(p@) as nat, pow2(1279));
        }
        (low, high)
    } else {
        let mut low: Vec<u64> = Vec::new();
        let mut i: usize = 0;
        while i < 19
            invariant
                i <= 19,
                p@.len() > 19,
                low@ == p@.take(i as int),
            decreases 19 - i,
        {
            low.push(p[i]);
            proof {
                assert(low@ =~= p@.take(i + 1));
            }
            i = i + 1;
        }
        let p19 = p[19];
        let lo19 = p19 & 0x7FFF_FFFF_FFFF_FFFF;
        low.push(lo19);
        let mut high: Vec<u64> = Vec::new();
        let hn = p.len() - 19;
        let ghost y = p@.skip(19);
        let mut j: usize = 0;
        while j < hn
            invariant
                j <= hn,
                19 < p@.len() <= usize::MAX,
                hn == p@.len() - 19,
                y == p@.skip(19),
                high@ == shr63_seq(y).take(j as int),
            decreases hn - j,
        {
            proof {
                assert(19 + j < p@.len());
            }
            let k = 19 + j;
            let w: u64 = if k + 1 < p.len() {
                p[k + 1]
            } else {
                0
            };
            let zj = (p[k] >> 63) | (w << 1);
            high.push(zj);
            proof {
                assert(y[j as int] == p@[19 + j]);
                assert(limb_at_spec(y, j + 1) == w);
                assert(high@ =~= shr63_seq(y).take(j + 1));
            }
            j = j + 1;
        }
        proof {
            assert(high@ =~= shr63_seq(y));
            let a = limbs_val(p@.take(19));
            let vy = limbs_val(y);
            let vz = limbs_val(shr63_seq(y));
            let yr = y.drop_first();
            let vyr = limbs_val(yr);
            lemma_limbs_val_split(p@, 19);
            lemma_limbs_val_push(p@.take(19), lo19);
            lemma_limbs_val_bound(p@.take(19));
            lemma_limbs_val_nonneg(yr);
            lemma_shr63_val(y);
            assert(y[0] == p19);
            assert(vy == p19 + pow2(64) * vyr);
            let h = (p19 >> 63) as int;
            assert((p19 >> 63) * 0x8000_0000_0000_0000 + (p19 & 0x7FFF_FFFF_FFFF_FFFF) == p19
                && (p19 & 0x7FFF_FFFF_FFFF_FFFF) < 0x8000_0000_0000_0000 && (p19 >> 63) <= 1)
                by (bit_vector);
            assert(vy == lo19 + pow2(63) * (h + 2 * vyr)) by (nonlinear_arith)
                requires
                    vy == p19 + pow2(64) * vyr,
                    p19 == lo19 + h * pow2(63),
                    pow2(64) == 2 * pow2(63),
            ;
            lemma_pow2_pos(63);
            lemma_fundamental_div_mod_converse(vy, pow2(63) as int, h + 2 * vyr, lo19 as int);
            assert(vz == h + 2 * vyr);
            lemma_pow2_adds(1216, 63);
            assert(limbs_val(low@) == a + lo19 * pow2(1216));
            assert(limbs_val(p@) == (a + lo19 * pow2(1216)) + pow2(1279) * vz)
                by (nonlinear_arith)
                requires
                    limbs_val(p@) == a + pow2(1216) * vy,
                    vy == lo19 + pow2(63) * vz,
                    pow2(1279) == pow2(1216) * pow2(63),
            ;
            assert(a + lo19 * pow2(1216) < pow2(1279)) by (nonlinear_arith)
                requires
                    a < pow2(1216),
                    lo19 < pow2(63),
                    pow2(1279) == pow2(1216) * pow2(63),
                    pow2(1216) > 0,
            ;
            lemma_pow2_pos(1216);
            lemma_limbs_val_nonneg(p@.take(19));
            assert(a + lo19 * pow2(1216) >= 0) by (nonlinear_arith)
                requires
                    a >= 0,
                    lo19 >= 0,
                    pow2(1216) > 0,
            ;
            lemma_fundamental_div_mod_converse(
                limbs_val(p@),
                pow2(1279) as int,
                vz,
                a + lo19 * pow2(1216),
            );
        }
        (low, high)
    }
}

/// Bit 1279 of a value sits in bit 63 of limb 19.
pub proof fn lemma_bit_1279(s: Seq<u64>)
    requires
        s.len() >= 20,
    ensures
        ((limbs_val(s) / pow2(1279) as int) % 2 == 1) <==> s[19] >= 0x8000_0000_0000_0000,
{
    lemma2_to64();
    lemma2_to64_rest();
    lemma_pow2_pos(1216);
    lemma_pow2_pos(63);
    lemma_pow2_pos(1279);
    lemma_pow2_adds(1216, 63);
    let v = limbs_val(s);
    let a = limbs_val(s.take(19));
    let t = limbs_val(s.skip(19));
    lemma_limbs_val_split(s, 19);
    lemma_limbs_val_bound(s.take(19));
    lemma_limbs_val_nonneg(s.take(19));
    lemma_limbs_val_nonneg(s.skip(19));
    assert(s.take(19).len() == 19);
    assert(a < pow2(1216));
    assert(v == a + pow2(1216) * t);
    assert(v == t * pow2(1216) + a) by (nonlinear_arith)
        requires
            v == a + pow2(1216) * t,
    ;
    lemma_fundamental_div_mod_converse(v, pow2(1216) as int, t, a);
    lemma_div_denominator(v, pow2(1216) as int, pow2(63) as int);
    assert(v / pow2(1279) as int == t / pow2(63) as int);
    let s19 = s[19];
    assert(s.skip(19)[0] == s19);
    let tr = limbs_val(s.skip(19).drop_first());
    lemma_limbs_val_nonneg(s.skip(19).drop_first());
    assert(t == s19 + pow2(64) * tr);
    let h = (s19 >> 63) as int;
    let lo = (s19 & 0x7FFF_FFFF_FFFF_FFFF) as int;
    assert((s19 >> 63) * 0x8000_0000_0000_0000 + (s19 & 0x7FFF_FFFF_FFFF_FFFF) == s19 && (s19
        & 0x7FFF_FFFF_FFFF_FFFF) < 0x8000_0000_0000_0000 && (s19 >> 63) <= 1 && ((s19 >> 63) == 1
        <==> s19 >= 0x8000_0000_0000_0000)) by (bit_vector);
    assert(t == lo + pow2(63) * (h + 2 * tr)) by (nonlinear_arith)
        requires
            t == s19 + pow2(64) * tr,
            s19 == lo + h * pow2(63),
            pow2(64) == 2 * pow2(63),
    ;
    lemma_fundamental_div_mod_converse(t, pow2(63) as int, h + 2 * tr, lo);
    lemma_mod_multiples_vanish(tr, h, 2);
    assert((h + 2 * tr) % 2 == h % 2);
    assert(h % 2 == h);
}

/// Tests whether bit 1279 of the value is set.
pub fn bit_1279_set(v: &Vec<u64>) -> (r: bool)
    ensures
        r == ((limbs_val(v@) / pow2(1279) as int) % 2 == 1),
{
    if v.len() < 20 {
        proof {
            lemma_limbs_val_bound(v@);
            lemma_limbs_val_nonneg(v@);
            lemma_pow2_strictly_increases((64 * v@.len()) as nat, 1279);
            lemma_pow2_pos(1279);
            lemma_basic_div(limbs_val(v@), pow2(1279) as int);
        }
        false
    } else {
        let x = v[19];
        proof {
            lemma_bit_1279(v@);
            assert((x >> 63) == 1 <==> x >= 0x8000_0000_0000_0000) by (bit_vector);
        }
        (x >> 63) == 1
    }
}

/// Clears bit 1279 of the value, which must be set.
pub fn clear_bit_1279(v: &mut Vec<u64>)
    requires
        old(v)@.len() >= 20,
        old(v)@[19] >= 0x8000_0000_0000_0000,
    ensures
        limbs_val(final(v)@) == limbs_val(old(v)@) - pow2(1279),
{
    let x = v[19];
    let y = x - 0x8000_0000_0000_0000;
    v[19] = y;
    proof {
        lemma2_to64_rest();
        lemma_limbs_val_update(old(v)@, 19, y);
        lemma_pow2_adds(1216, 63);
        assert((y - x) * pow2(1216) == 0 - pow2(1279)) by (nonlinear_arith)
            requires
                y == x - pow2(63),
                pow2(1279) == pow2(1216) * pow2(63),
        ;
    }
}

/// Zero-extension does not change the value.
pub proof fn lemma_ext_take_full(s: Seq<u64>, n: int)
    requires
        n >= s.len(),
    ensures
        limbs_val(ext_take(s, n)) == limbs_val(s),
    decreases n,
{
    if n == s.len() {
        assert(ext_take(s, n) =~= s);
    } else {
        lemma_ext_take_full(s, n - 1);
        assert(ext_take(s, n) =~= ext_take(s, n - 1).push(0u64));
        lemma_limbs_val_push(ext_take(s, n - 1), 0u64);
    }
}

} // verus!
