//! Big-endian byte sequences as non-negative integers.
//!
//! The wire format carries both the difficulty and the modular value as
//! big-endian bytes; [`be_bytes_val`] gives their mathematical value and
//! [`min_be_bytes`] the shortest encoding of a value.

use vstd::prelude::*;
use vstd::arithmetic::power2::*;

verus! {

/// The value of a big-endian byte sequence: the first byte is the most
/// significant.
pub open spec fn be_bytes_val(s: Seq<u8>) -> int
    decreases s.len(),
{
    if s.len() == 0 {
        0
    } else {
        be_bytes_val(s.drop_last()) * 256 + s.last()
    }
}

/// The shortest big-endian encoding of a non-negative value: no leading
/// zero byte, and zero encodes as the empty sequence.
pub open spec fn min_be_bytes(v: int) -> Seq<u8>
    recommends
        v >= 0,
    decreases v,
{
    if v <= 0 {
        Seq::empty()
    } else {
        min_be_bytes(v / 256).push((v % 256) as u8)
    }
}

pub broadcast proof fn lemma_be_bytes_val_nonneg(s: Seq<u8>)
    ensures
        #[trigger] be_bytes_val(s) >= 0,
    decreases s.len(),
{
    if s.len() > 0 {
        lemma_be_bytes_val_nonneg(s.drop_last());
    }
}

/// A sequence of `n` bytes represents a value below `2^(8n)`.
pub proof fn lemma_be_bytes_val_bound(s: Seq<u8>)
    ensures
        be_bytes_val(s) < pow2((8 * s.len()) as nat),
    decreases s.len(),
{
    lemma2_to64();
    if s.len() == 0 {
    } else {
        let r = s.drop_last();
        lemma_be_bytes_val_bound(r);
        lemma_pow2_adds((8 * r.len()) as nat, 8);
        assert(be_bytes_val(r) * 256 + s.last() < pow2((8 * r.len()) as nat) * 256)
            by (nonlinear_arith)
            requires
                be_bytes_val(r) <= pow2((8 * r.len()) as nat) - 1,
                s.last() < 256,
        ;
        assert(8 * r.len() + 8 == 8 * s.len());
    }
}

/// Concatenation weighs the left part by the width of the right part.
pub proof fn lemma_be_bytes_val_append(a: Seq<u8>, b: Seq<u8>)
    ensures
        be_bytes_val(a + b) == be_bytes_val(a) * pow2((8 * b.len()) as nat) + be_bytes_val(b),
    decreases b.len(),
{
    lemma2_to64();
    if b.len() == 0 {
        assert(a + b =~= a);
        assert(pow2(0) == 1);
        assert(be_bytes_val(a) * 1 == be_bytes_val(a)) by (nonlinear_arith);
    } else {
        let br = b.drop_last();
        assert((a + b).drop_last() =~= a + br);
        lemma_be_bytes_val_append(a, br);
        lemma_pow2_adds((8 * br.len()) as nat, 8);
        assert((be_bytes_val(a) * pow2((8 * br.len()) as nat) + be_bytes_val(br)) * 256
            == be_bytes_val(a) * (pow2((8 * br.len()) as nat) * 256) + be_bytes_val(br) * 256)
            by (nonlinear_arith);
        assert(8 * br.len() + 8 == 8 * b.len());
    }
}

/// A byte sequence represents zero exactly when every byte is zero.
pub proof fn lemma_be_bytes_val_zero(s: Seq<u8>)
    ensures
        (be_bytes_val(s) == 0) <==> (forall|i: int| 0 <= i < s.len() ==> s[i] == 0),
    decreases s.len(),
{
    if s.len() > 0 {
        let r = s.drop_last();
        lemma_be_bytes_val_zero(r);
        lemma_be_bytes_val_nonneg(r);
        if be_bytes_val(s) == 0 {
            assert(be_bytes_val(r) == 0);
            assert forall|i: int| 0 <= i < s.len() implies s[i] == 0 by {
                if i < s.len() - 1 {
                    assert(s[i] == r[i]);
                }
            }
        }
        if forall|i: int| 0 <= i < s.len() ==> s[i] == 0 {
            assert forall|i: int| 0 <= i < r.len() implies r[i] == 0 by {
                assert(r[i] == s[i]);
            }
            assert(be_bytes_val(r) == 0);
            assert(s.last() == 0);
        }
    }
}

/// The shortest encoding evaluates back to the value it encodes.
pub proof fn lemma_min_be_bytes_val(v: int)
    requires
        v >= 0,
    ensures
        be_bytes_val(min_be_bytes(v)) == v,
        min_be_bytes(v).len() > 0 ==> min_be_bytes(v)[0] != 0,
    decreases v,
{
    if v > 0 {
        vstd::arithmetic::div_mod::lemma_div_is_strictly_smaller(v, 256);
        vstd::arithmetic::div_mod::lemma_div_pos_is_pos(v, 256);
        lemma_min_be_bytes_val(v / 256);
        let m = min_be_bytes(v / 256);
        assert(min_be_bytes(v).drop_last() =~= m);
        vstd::arithmetic::div_mod::lemma_fundamental_div_mod(v, 256);
        if m.len() > 0 {
            assert(min_be_bytes(v)[0] == m[0]);
        } else {
            assert(v / 256 == 0);
            assert(v % 256 != 0);
        }
    }
}

/// A value below `2^(8n)` needs at most `n` bytes.
pub proof fn lemma_min_be_bytes_len(v: int, n: nat)
    requires
        0 <= v < pow2(8 * n),
    ensures
        min_be_bytes(v).len() <= n,
    decreases n,
{
    lemma2_to64();
    if v > 0 {
        if n == 0 {
            assert(pow2(0) == 1);
        } else {
            lemma_pow2_adds((8 * (n - 1)) as nat, 8);
            assert(v / 256 < pow2((8 * (n - 1)) as nat)) by (nonlinear_arith)
                requires
                    0 <= v < pow2((8 * (n - 1)) as nat) * 256,
            ;
            vstd::arithmetic::div_mod::lemma_div_pos_is_pos(v, 256);
            lemma_min_be_bytes_len(v / 256, (n - 1) as nat);
        }
    }
}

} // verus!
