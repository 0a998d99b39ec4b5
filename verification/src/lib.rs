//! A library to solve, check, and generate proof-of-work challenges based on
//! repeated modular square-root extraction over the Mersenne prime
//! `2^1279 - 1`, in the kCTF wire format.
//!
//! A challenge is the string `s.<difficulty-b64>.<value-b64>`; a solution is
//! `s.<value-b64>`. Solving applies 1277 modular squarings (one square-root
//! extraction) and one low-bit toggle per round; checking undoes one round
//! with a single squaring, so it is about 1277 times cheaper.

pub mod bigint;
pub mod bytes;
pub mod limbs;

use vstd::prelude::*;
use vstd::arithmetic::power2::{pow2, lemma2_to64, lemma_pow2_strictly_increases};
use vstd::string::{StrSliceExecFns, StringExecFns};
use crate::bigint::{BigInt, modulus, sq_fold, xor1, lemma_xor1_range};
use crate::bytes::{
    be_bytes_val, min_be_bytes, lemma_be_bytes_val_append, lemma_be_bytes_val_bound,
    lemma_be_bytes_val_nonneg, lemma_be_bytes_val_zero, lemma_min_be_bytes_val,
    lemma_min_be_bytes_len,
};

verus! {

/// What the base64 standard engine encodes a byte sequence to.
pub uninterp spec fn b64_of(b: Seq<u8>) -> Seq<char>;

/// What the base64 standard engine decodes a character sequence to, or
/// `None` when the input is not valid base64.
pub uninterp spec fn b64_decoded(s: Seq<char>) -> Option<Seq<u8>>;

/// Relies on base64's `Engine::encode` with the `STANDARD` engine: the
/// output depends on the bytes alone, is four characters for every three
/// bytes (padded), draws on an alphabet without `'.'`, and `Engine::decode`
/// inverts it.
#[verifier::external_body]
fn b64_encode(b: &Vec<u8>) -> (r: String)
    ensures
        r@ == b64_of(b@),
        b64_decoded(r@) == Some(b@),
        r@.len() == 4 * ((b@.len() + 2) / 3),
        forall|i: int| 0 <= i < r@.len() ==> r@[i] != '.',
{
    base64::Engine::encode(&base64::engine::general_purpose::STANDARD, b.as_slice())
}

/// Relies on base64's `Engine::decode` with the `STANDARD` engine: the
/// result depends on the characters alone.
#[verifier::external_body]
fn b64_decode(s: &str) -> (r: Option<Vec<u8>>)
    ensures
        (match r {
            Some(v) => b64_decoded(s@) == Some(v@),
            None => b64_decoded(s@) is None,
        }),
{
    base64::Engine::decode(&base64::engine::general_purpose::STANDARD, s).ok()
}

/// Relies on `rand::random`, which draws from the thread-local
/// cryptographically secure generator; nothing is assumed of the values.
#[verifier::external_body]
fn random_bytes_16() -> (r: Vec<u8>)
    ensures
        r@.len() == 16,
{
    rand::random::<[u8; 16]>().to_vec()
}

/// The version tag is the first field and must be exactly `"s"`: the
/// string starts with `'s'` followed by the end of the string or a dot.
pub open spec fn version_ok(s: Seq<char>) -> bool {
    s.len() >= 1 && s[0] == 's' && (s.len() == 1 || s[1] == '.')
}

/// `d` is the one dot after position 1, so the string splits into exactly
/// three fields.
pub open spec fn is_second_dot(s: Seq<char>, d: int) -> bool {
    1 < d < s.len() && s[d] == '.' && (forall|j: int|
        1 < j < s.len() && #[trigger] s[j] == '.' ==> j == d)
}

/// The challenge shape: a dot at position 1 and exactly one more dot.
pub open spec fn has_two_dots(s: Seq<char>) -> bool {
    s.len() >= 2 && s[1] == '.' && (exists|d: int| is_second_dot(s, d))
}

/// The position of the second dot of a string of challenge shape.
pub open spec fn second_dot(s: Seq<char>) -> int {
    choose|d: int| is_second_dot(s, d)
}

/// The solution shape: a dot at position 1 and no other dot.
pub open spec fn has_one_dot(s: Seq<char>) -> bool {
    s.len() >= 2 && s[1] == '.' && (forall|j: int|
        1 < j < s.len() ==> #[trigger] s[j] != '.')
}

/// How a challenge string parses, step by step in the order the decoder
/// reports errors.
pub enum ChallengeParse {
    BadVersion,
    BadParts,
    BadEncoding,
    BadDifficulty,
    Parsed { difficulty: int, value: int },
}

/// Parses a challenge string: version tag, field count, base64 of both
/// fields, then the difficulty bound. A difficulty field longer than four
/// bytes is accepted exactly when the extra leading bytes are zero.
pub open spec fn parse_challenge(s: Seq<char>) -> ChallengeParse {
    if !version_ok(s) {
        ChallengeParse::BadVersion
    } else if !has_two_dots(s) {
        ChallengeParse::BadParts
    } else {
        let d2 = second_dot(s);
        match (b64_decoded(s.subrange(2, d2)), b64_decoded(s.subrange(d2 + 1, s.len() as int))) {
            (Some(db), Some(vb)) => if db.len() > 4 && be_bytes_val(db) >= 0x1_0000_0000 {
                ChallengeParse::BadDifficulty
            } else {
                ChallengeParse::Parsed { difficulty: be_bytes_val(db), value: be_bytes_val(vb) }
            },
            _ => ChallengeParse::BadEncoding,
        }
    }
}

/// How a solution string parses.
pub enum SolutionParse {
    BadVersion,
    BadParts,
    BadEncoding,
    Value { value: int },
}

/// Parses a solution string: version tag, exactly two fields, base64 of
/// the value field.
pub open spec fn parse_solution(s: Seq<char>) -> SolutionParse {
    if !version_ok(s) {
        SolutionParse::BadVersion
    } else if !has_one_dot(s) {
        SolutionParse::BadParts
    } else {
        match b64_decoded(s.subrange(2, s.len() as int)) {
            Some(vb) => SolutionParse::Value { value: be_bytes_val(vb) },
            None => SolutionParse::BadEncoding,
        }
    }
}

/// `n` applications of the folded squaring.
pub open spec fn iter_square(x: int, n: nat) -> int
    decreases n,
{
    if n == 0 {
        x
    } else {
        sq_fold(iter_square(x, (n - 1) as nat))
    }
}

/// One solving round: 1277 squarings (a modular square root, since the
/// exponent `(modulus + 1) / 4` is `2^1277`), then a low-bit toggle to
/// break the two-root symmetry between rounds.
pub open spec fn solve_round(x: int) -> int {
    xor1(iter_square(x, 1277))
}

/// `n` solving rounds.
pub open spec fn solve_iter(x: int, n: nat) -> int
    decreases n,
{
    if n == 0 {
        x
    } else {
        solve_round(solve_iter(x, (n - 1) as nat))
    }
}

/// One checking round, the inverse of a solving round: undo the toggle,
/// then square once.
pub open spec fn check_round(x: int) -> int {
    sq_fold(xor1(x))
}

/// `n` checking rounds.
pub open spec fn check_iter(x: int, n: nat) -> int
    decreases n,
{
    if n == 0 {
        x
    } else {
        check_round(check_iter(x, (n - 1) as nat))
    }
}

/// The low-bit toggles of a solving round and of the checking round that
/// follows cancel each other: checking one solved round squares the
/// round's input 1278 times in all. What a full round trip then rests on
/// is that the 1278-fold square of a value is the value or its negation
/// modulo the prime — the square-root property of the prime `2^1279 - 1`,
/// which no arithmetic identity here supplies.
pub proof fn lemma_check_round_inverts_toggle(x: int)
    ensures
        check_round(solve_round(x)) == iter_square(x, 1278),
{
    let y = iter_square(x, 1277);
    if y % 2 == 0 {
        vstd::arithmetic::div_mod::lemma_fundamental_div_mod(y, 2);
        vstd::arithmetic::div_mod::lemma_fundamental_div_mod_converse(y + 1, 2, y / 2, 1);
        assert((y + 1) % 2 == 1);
    } else {
        vstd::arithmetic::div_mod::lemma_fundamental_div_mod(y, 2);
        vstd::arithmetic::div_mod::lemma_fundamental_div_mod_converse(y - 1, 2, y / 2, 0);
        assert((y - 1) % 2 == 0);
    }
    assert(xor1(xor1(y)) == y);
    assert(iter_square(x, 1278) == sq_fold(y));
}

/// Whether a decoded solution value passes a challenge: after `n` checking
/// rounds it must equal the challenge value or its negation modulo the
/// prime, since a square root is determined only up to sign.
pub open spec fn check_accepts(val: int, sol_val: int, n: nat) -> bool {
    check_iter(sol_val, n) == val || check_iter(sol_val, n) == modulus() - val
}

/// The wire form of a challenge: version tag, then the difficulty as
/// exactly four big-endian bytes, then the value as its minimal bytes,
/// each base64-encoded, dot-separated.
pub open spec fn encode_string(difficulty: u32, value: int) -> Seq<char> {
    "s."@ + b64_of(be4(difficulty)) + "."@ + b64_of(min_be_bytes(value))
}

/// A 32-bit value as exactly four big-endian bytes.
pub open spec fn be4(d: u32) -> Seq<u8> {
    seq![
        ((d >> 24) & 0xFF) as u8,
        ((d >> 16) & 0xFF) as u8,
        ((d >> 8) & 0xFF) as u8,
        (d & 0xFF) as u8,
    ]
}

proof fn lemma_be4_val(d: u32)
    ensures
        be_bytes_val(be4(d)) == d,
{
    reveal_with_fuel(be_bytes_val, 5);
    let s = be4(d);
    let b0: u32 = (d >> 24) & 0xFF;
    let b1: u32 = (d >> 16) & 0xFF;
    let b2: u32 = (d >> 8) & 0xFF;
    let b3: u32 = d & 0xFF;
    assert(((d >> 24) & 0xFF) < 256 && ((d >> 16) & 0xFF) < 256 && ((d >> 8) & 0xFF) < 256 && (d
        & 0xFF) < 256) by (bit_vector);
    assert(s.drop_last().drop_last().drop_last().drop_last() =~= Seq::<u8>::empty());
    assert(s.drop_last().drop_last().drop_last() =~= seq![(b0 as u8)]);
    assert(s.drop_last().drop_last() =~= seq![(b0 as u8), (b1 as u8)]);
    assert(s.drop_last() =~= seq![(b0 as u8), (b1 as u8), (b2 as u8)]);
    assert(((d >> 24) & 0xFF) * 256 + ((d >> 16) & 0xFF) == (d >> 16)) by (bit_vector);
    assert((d >> 16) * 256 + ((d >> 8) & 0xFF) == (d >> 8)) by (bit_vector);
    assert((d >> 8) * 256 + (d & 0xFF) == d) by (bit_vector);
    assert(be_bytes_val(s) == ((b0 * 256 + b1) * 256 + b2) * 256 + b3);
}

/// The result of scanning a string for dots: how many there are, and
/// where the first three stand.
struct DotScan {
    count: usize,
    d1: usize,
    d2: usize,
    d3: usize,
}

/// Finds the dots of a string, keeping the positions of the first three.
fn scan_dots(s: &str) -> (r: DotScan)
    ensures
        r.count == 0 ==> (forall|j: int| 0 <= j < s@.len() ==> s@[j] != '.'),
        r.count >= 1 ==> r.d1 < s@.len() && s@[r.d1 as int] == '.' && (forall|j: int|
            0 <= j < r.d1 ==> s@[j] != '.'),
        r.count == 1 ==> (forall|j: int| 0 <= j < s@.len() && j != r.d1 ==> s@[j] != '.'),
        r.count >= 2 ==> r.d1 < r.d2 < s@.len() && s@[r.d2 as int] == '.',
        r.count == 2 ==> (forall|j: int|
            0 <= j < s@.len() && j != r.d1 && j != r.d2 ==> s@[j] != '.'),
        r.count >= 3 ==> r.d2 < r.d3 < s@.len() && s@[r.d3 as int] == '.',
{
    let n = s.unicode_len();
    let mut count: usize = 0;
    let mut d1: usize = 0;
    let mut d2: usize = 0;
    let mut d3: usize = 0;
    let mut i: usize = 0;
    while i < n
        invariant
            i <= n,
            n == s@.len(),
            count <= i,
            count == 0 ==> (forall|j: int| 0 <= j < i ==> s@[j] != '.'),
            count >= 1 ==> d1 < i && s@[d1 as int] == '.' && (forall|j: int|
                0 <= j < d1 ==> s@[j] != '.'),
            count == 1 ==> (forall|j: int| 0 <= j < i && j != d1 ==> s@[j] != '.'),
            count >= 2 ==> d1 < d2 < i && s@[d2 as int] == '.',
            count == 2 ==> (forall|j: int| 0 <= j < i && j != d1 && j != d2 ==> s@[j] != '.'),
            count >= 3 ==> d2 < d3 < i && s@[d3 as int] == '.',
        decreases n - i,
    {
        let c = s.get_char(i);
        if c == '.' {
            if count == 0 {
                d1 = i;
            } else if count == 1 {
                d2 = i;
            } else if count == 2 {
                d3 = i;
            }
            count = count + 1;
        }
        i = i + 1;
    }
    DotScan { count, d1, d2, d3 }
}

/// Whether the first `m` bytes are all zero.
fn all_zero_prefix(bytes: &Vec<u8>, m: usize) -> (r: bool)
    requires
        m <= bytes@.len(),
    ensures
        r == (forall|j: int| 0 <= j < m ==> bytes@[j] == 0),
{
    let mut k: usize = 0;
    while k < m
        invariant
            k <= m <= bytes@.len(),
            forall|j: int| 0 <= j < k ==> bytes@[j] == 0,
        decreases m - k,
    {
        if bytes[k] != 0 {
            return false;
        }
        k = k + 1;
    }
    true
}

/// Reads up to four big-endian bytes as a 32-bit value.
fn read_be_u32(bytes: &Vec<u8>, lo: usize, hi: usize) -> (d: u32)
    requires
        lo <= hi <= bytes@.len(),
        hi - lo <= 4,
    ensures
        d == be_bytes_val(bytes@.subrange(lo as int, hi as int)),
{
    let mut d: u32 = 0;
    let mut k = lo;
    proof {
        lemma2_to64();
        assert(bytes@.subrange(lo as int, lo as int) =~= Seq::<u8>::empty());
    }
    while k < hi
        invariant
            lo <= k <= hi <= bytes@.len(),
            hi - lo <= 4,
            d == be_bytes_val(bytes@.subrange(lo as int, k as int)),
            d < pow2((8 * (k - lo)) as nat),
        decreases hi - k,
    {
        let byte = bytes[k];
        proof {
            lemma2_to64();
            let g = k - lo;
            if g < 3 {
                lemma_pow2_strictly_increases((8 * g) as nat, 24);
            }
            assert(d < 0x0100_0000);
            assert(((d << 8) | (byte as u32)) == d * 256 + byte && d * 256 + byte < 0x1_0000_0000)
                by (bit_vector)
                requires
                    d < 0x0100_0000u32,
                    byte < 0x100u32,
            ;
            assert(bytes@.subrange(lo as int, k + 1).drop_last() =~= bytes@.subrange(
                lo as int,
                k as int,
            ));
            assert(bytes@.subrange(lo as int, k + 1).last() == bytes@[k as int]);
            vstd::arithmetic::power2::lemma_pow2_adds((8 * g) as nat, 8);
            assert(d * 256 + byte < pow2((8 * g) as nat) * 256) by (nonlinear_arith)
                requires
                    d <= pow2((8 * g) as nat) - 1,
                    byte < 256,
            ;
        }
        d = (d << 8) | (byte as u32);
        k = k + 1;
    }
    d
}

/// The parameters of a proof-of-work challenge: how many rounds to run,
/// and the starting value.
#[derive(Clone, Debug)]
pub struct ChallengeParams {
    /// The difficulty of the challenge: the number of rounds.
    pub difficulty: u32,
    /// The starting value of the challenge.
    pub val: BigInt,
}

impl ChallengeParams {
    /// A well-formed challenge holds a well-formed value.
    pub open spec fn wf(&self) -> bool {
        self.val.wf()
    }

    /// Decodes a challenge from a string: version tag `s`, then the
    /// difficulty and the starting value, base64-encoded, dot-separated.
    /// The difficulty must fit in 32 bits, though it may be zero-padded.
    pub fn decode_challenge(chall_string: &str) -> (r: Result<ChallengeParams, &'static str>)
        ensures
            (match r {
                Ok(c) => c.wf() && parse_challenge(chall_string@) == (ChallengeParse::Parsed {
                    difficulty: c.difficulty as int,
                    value: c.val@,
                }),
                Err(e) => (parse_challenge(chall_string@) is BadVersion && e@
                    == "Incorrect version"@) || (parse_challenge(chall_string@) is BadParts && e@
                    == "Incorrect number of parts"@) || (parse_challenge(chall_string@)
                    is BadEncoding && e@ == "Parts aren't valid base64"@) || (parse_challenge(
                    chall_string@,
                ) is BadDifficulty && e@ == "Difficulty is too large"@),
            }),
    {
        let n = chall_string.unicode_len();
        let sc = scan_dots(chall_string);
        let version_good: bool = n >= 1 && chall_string.get_char(0) == 's' && (n == 1
            || chall_string.get_char(1) == '.');
        if !version_good {
            return Err("Incorrect version");
        }
        if !(sc.count == 2 && sc.d1 == 1) {
            proof {
                if has_two_dots(chall_string@) {
                    let d = second_dot(chall_string@);
                    assert(is_second_dot(chall_string@, d));
                    assert(chall_string@[1] == '.');
                    if sc.count == 0 {
                        assert(false);
                    } else if sc.count == 1 {
                        assert(sc.d1 == 1);
                        assert(false);
                    } else if sc.count == 2 {
                        assert(sc.d1 != 1);
                        assert(sc.d1 == 1);
                        assert(false);
                    } else {
                        assert(sc.d2 != sc.d3);
                        assert(1 < sc.d2 < chall_string@.len());
                        assert(1 < sc.d3 < chall_string@.len());
                        assert(false);
                    }
                }
            }
            return Err("Incorrect number of parts");
        }
        proof {
            assert(is_second_dot(chall_string@, sc.d2 as int));
            assert(has_two_dots(chall_string@));
            let d = second_dot(chall_string@);
            assert(is_second_dot(chall_string@, d));
            assert(d == sc.d2 as int);
        }
        let part1 = chall_string.substring_char(2, sc.d2);
        let part2 = chall_string.substring_char(sc.d2 + 1, n);
        let db = match b64_decode(part1) {
            Some(v) => v,
            None => {
                return Err("Parts aren't valid base64");
            },
        };
        let vb = match b64_decode(part2) {
            Some(v) => v,
            None => {
                return Err("Parts aren't valid base64");
            },
        };
        let dlen = db.len();
        let lo: usize = if dlen > 4 {
            if !all_zero_prefix(&db, dlen - 4) {
                proof {
                    let pre = db@.subrange(0, dlen - 4);
                    let suf = db@.subrange(dlen - 4, dlen as int);
                    assert(db@ =~= pre + suf);
                    lemma_be_bytes_val_append(pre, suf);
                    lemma_be_bytes_val_zero(pre);
                    lemma_be_bytes_val_nonneg(pre);
                    lemma_be_bytes_val_nonneg(suf);
                    let j = choose|j: int| 0 <= j < dlen - 4 && db@[j] != 0;
                    assert(pre[j] != 0);
                    assert(be_bytes_val(pre) >= 1);
                    lemma2_to64();
                    assert(8 * suf.len() == 32);
                    assert(be_bytes_val(pre) * pow2(32) >= pow2(32)) by (nonlinear_arith)
                        requires
                            be_bytes_val(pre) >= 1,
                            pow2(32) > 0,
                    ;
                }
                return Err("Difficulty is too large");
            }
            proof {
                let pre = db@.subrange(0, dlen - 4);
                let suf = db@.subrange(dlen - 4, dlen as int);
                assert(db@ =~= pre + suf);
                lemma_be_bytes_val_append(pre, suf);
                lemma_be_bytes_val_zero(pre);
                lemma_be_bytes_val_bound(suf);
                lemma_be_bytes_val_nonneg(suf);
                lemma2_to64();
                assert(8 * suf.len() == 32);
                assert(be_bytes_val(db@) == be_bytes_val(suf));
            }
            dlen - 4
        } else {
            proof {
                lemma_be_bytes_val_bound(db@);
                lemma_be_bytes_val_nonneg(db@);
                if 8 * db@.len() < 32 {
                    lemma_pow2_strictly_increases((8 * db@.len()) as nat, 32);
                }
                lemma2_to64();
            }
            0
        };
        let difficulty = read_be_u32(&db, lo, dlen);
        proof {
            if lo == 0 {
                assert(db@.subrange(0, dlen as int) =~= db@);
            }
        }
        let val = BigInt::from_be_bytes(vb.as_slice());
        Ok(ChallengeParams { difficulty, val })
    }

    /// Generates a random challenge of the given difficulty. The starting
    /// value is 16 bytes of secure randomness: deliberately far below the
    /// modulus, enough entropy for a starting point while keeping the
    /// encoded challenge short.
    pub fn generate_challenge(difficulty: u32) -> (r: ChallengeParams)
        ensures
            r.wf(),
            r.difficulty == difficulty,
            0 <= r.val@ < pow2(128),
            r.val@ <= modulus(),
    {
        let bytes = random_bytes_16();
        let val = BigInt::from_be_bytes(bytes.as_slice());
        proof {
            lemma_be_bytes_val_bound(bytes@);
            lemma_be_bytes_val_nonneg(bytes@);
            lemma_pow2_strictly_increases(128, 1279);
        }
        ChallengeParams { difficulty, val }
    }

    /// Encodes the challenge as its wire string. Decoding the result gives
    /// the same difficulty and value back: the round trip is part of the
    /// contract.
    pub fn encode(&self) -> (r: String)
        requires
            self.wf(),
        ensures
            r@ == encode_string(self.difficulty, self.val@),
            parse_challenge(r@) == (ChallengeParse::Parsed {
                difficulty: self.difficulty as int,
                value: self.val@,
            }),
            self.val@ < pow2(128) ==> r@.len() <= 35,
    {
        let mut dbytes: Vec<u8> = Vec::new();
        let d = self.difficulty;
        dbytes.push(((d >> 24) & 0xFF) as u8);
        dbytes.push(((d >> 16) & 0xFF) as u8);
        dbytes.push(((d >> 8) & 0xFF) as u8);
        dbytes.push((d & 0xFF) as u8);
        proof {
            assert(dbytes@ =~= be4(d));
        }
        let vbytes = self.val.to_be_bytes();
        let db64 = b64_encode(&dbytes);
        let vb64 = b64_encode(&vbytes);
        let mut out = String::from_str("s.");
        out.append(db64.as_str());
        out.append(".");
        out.append(vb64.as_str());
        proof {
            let s = out@;
            let a = b64_of(be4(d));
            let b = b64_of(min_be_bytes(self.val@));
            reveal_strlit("s.");
            reveal_strlit(".");
            assert(s =~= "s."@ + a + "."@ + b);
            assert("s."@.len() == 2);
            assert("."@.len() == 1);
            assert("s."@[0] == 's' && "s."@[1] == '.' && "."@[0] == '.');
            assert(a.len() == 8);
            assert(s.len() == 11 + b.len());
            assert(s[0] == 's');
            assert(s[1] == '.');
            assert(version_ok(s));
            assert(s[10] == '.');
            assert forall|j: int| 1 < j < s.len() && #[trigger] s[j] == '.' implies j == 10 by {
                if j < 10 {
                    assert(s[j] == a[j - 2]);
                } else if j > 10 {
                    assert(s[j] == b[j - 11]);
                }
            }
            assert(is_second_dot(s, 10));
            assert(has_two_dots(s));
            let dd = second_dot(s);
            assert(is_second_dot(s, dd));
            assert(dd == 10);
            assert(s.subrange(2, 10) =~= a);
            assert(s.subrange(11, s.len() as int) =~= b);
            lemma_be4_val(d);
            self.val.lemma_nonneg();
            lemma_min_be_bytes_val(self.val@);
            assert(be4(d).len() == 4);
            if self.val@ < pow2(128) {
                lemma_min_be_bytes_len(self.val@, 16);
                assert(b.len() == 4 * ((min_be_bytes(self.val@).len() + 2) / 3));
                assert(min_be_bytes(self.val@).len() <= 16);
                vstd::arithmetic::div_mod::lemma_div_is_ordered(
                    min_be_bytes(self.val@).len() as int + 2,
                    18,
                    3,
                );
                assert(18int / 3 == 6);
            }
        }
        out
    }

    /// Solves the challenge: for each round, 1277 squarings extract a
    /// modular square root, then the lowest bit is toggled. The result is
    /// the final value in the solution wire format.
    pub fn solve(self) -> (r: String)
        requires
            self.wf(),
            self.val@ <= modulus(),
        ensures
            r@ == "s."@ + b64_of(
                min_be_bytes(solve_iter(self.val@, self.difficulty as nat)),
            ),
            parse_solution(r@) == (SolutionParse::Value {
                value: solve_iter(self.val@, self.difficulty as nat),
            }),
    {
        let d = self.difficulty;
        let mut val = self.val;
        let ghost v0 = val@;
        proof {
            val.lemma_nonneg();
        }
        let mut round: u32 = 0;
        while round < d
            invariant
                round <= d,
                val.wf(),
                0 <= val@ <= modulus(),
                val@ == solve_iter(v0, round as nat),
            decreases d - round,
        {
            let ghost x = val@;
            let mut k: u16 = 0;
            while k < 1277
                invariant
                    k <= 1277,
                    val.wf(),
                    0 <= val@ <= modulus(),
                    val@ == iter_square(x, k as nat),
                decreases 1277 - k,
            {
                val.square_mod();
                k = k + 1;
            }
            proof {
                lemma_xor1_range(val@);
            }
            val.xor_one();
            round = round + 1;
            proof {
                assert(val@ == solve_round(x));
                assert(val@ == solve_iter(v0, round as nat));
            }
        }
        let bytes = val.to_be_bytes();
        let b64 = b64_encode(&bytes);
        let mut out = String::from_str("s.");
        out.append(b64.as_str());
        proof {
            let s = out@;
            let b = b64_of(min_be_bytes(val@));
            reveal_strlit("s.");
            assert(s =~= "s."@ + b);
            assert("s."@.len() == 2);
            assert("s."@[0] == 's' && "s."@[1] == '.');
            assert(s[0] == 's');
            assert(s[1] == '.');
            assert(version_ok(s));
            assert forall|j: int| 1 < j < s.len() implies #[trigger] s[j] != '.' by {
                assert(s[j] == b[j - 2]);
            }
            assert(has_one_dot(s));
            assert(s.subrange(2, s.len() as int) =~= b);
            val.lemma_nonneg();
            lemma_min_be_bytes_val(val@);
        }
        out
    }

    /// Checks a candidate solution string against the challenge. A
    /// malformed string is an error; a well-formed but wrong solution is
    /// `Ok(false)`. The decoded value must reach the challenge value, or
    /// its negation modulo the prime, after `difficulty` inverse rounds;
    /// a value above the modulus is outside the wire format's value range
    /// and is rejected as wrong.
    pub fn check(&self, sol: &str) -> (r: Result<bool, &'static str>)
        requires
            self.wf(),
        ensures
            (match r {
                Ok(b) => parse_solution(sol@) matches SolutionParse::Value { value } && b == (value
                    <= modulus() && check_accepts(self.val@, value, self.difficulty as nat)),
                Err(e) => (parse_solution(sol@) is BadVersion && e@ == "Incorrect version"@) || (
                parse_solution(sol@) is BadParts && e@ == "Incorrect number of parts"@) || (
                parse_solution(sol@) is BadEncoding && e@ == "Parts aren't valid base64"@),
            }),
    {
        let n = sol.unicode_len();
        let sc = scan_dots(sol);
        let version_good: bool = n >= 1 && sol.get_char(0) == 's' && (n == 1 || sol.get_char(1)
            == '.');
        if !version_good {
            return Err("Incorrect version");
        }
        if sc.count != 1 {
            proof {
                if has_one_dot(sol@) {
                    assert(sol@[1] == '.');
                    if sc.count == 0 {
                        assert(false);
                    } else {
                        assert(1 < sc.d2 < sol@.len());
                        assert(false);
                    }
                }
            }
            return Err("Incorrect number of parts");
        }
        proof {
            assert(sc.d1 == 1);
            assert(has_one_dot(sol@));
        }
        let part = sol.substring_char(2, n);
        let bytes = match b64_decode(part) {
            Some(v) => v,
            None => {
                return Err("Parts aren't valid base64");
            },
        };
        let mut sol_val = BigInt::from_be_bytes(bytes.as_slice());
        let ghost sv = sol_val@;
        if !sol_val.le_modulus() {
            return Ok(false);
        }
        proof {
            sol_val.lemma_nonneg();
        }
        let mut i: u32 = 0;
        while i < self.difficulty
            invariant
                i <= self.difficulty,
                sol_val.wf(),
                0 <= sol_val@ <= modulus(),
                sol_val@ == check_iter(sv, i as nat),
            decreases self.difficulty - i,
        {
            proof {
                lemma_xor1_range(sol_val@);
            }
            sol_val.xor_one();
            sol_val.square_mod();
            i = i + 1;
        }
        proof {
            sol_val.lemma_nonneg();
        }
        if self.val.eq_value(&sol_val) {
            Ok(true)
        } else if self.val.le_modulus() {
            let neg = self.val.negate_mod();
            Ok(neg.eq_value(&sol_val))
        } else {
            proof {
                self.val.lemma_nonneg();
            }
            Ok(false)
        }
    }
}

/// The usage message of the surrounding command-line tool, under a given
/// program name.
pub fn gen_usage(name: &str) -> (r: String)
    ensures
        r@ == "Could not parse arguments\nUsage:\n    To solve a challenge: "@ + name@
            + " solve <challenge>\n    To check a challenge: "@ + name@
            + " check <challenge>\n    To randomly generate a challenge: "@ + name@
            + " gen <difficulty>\n    To chain generation with checking: "@ + name@
            + " ask <difficulty>"@,
{
    let mut out = String::from_str("Could not parse arguments\nUsage:\n    To solve a challenge: ");
    out.append(name);
    out.append(" solve <challenge>\n    To check a challenge: ");
    out.append(name);
    out.append(" check <challenge>\n    To randomly generate a challenge: ");
    out.append(name);
    out.append(" gen <difficulty>\n    To chain generation with checking: ");
    out.append(name);
    out.append(" ask <difficulty>");
    out
}

} // verus!
