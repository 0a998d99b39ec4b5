use kctf_pow::bigint::BigInt;
use kctf_pow::gen_usage;
use kctf_pow::ChallengeParams;

const CHALLENGE: &str = "s.AAAAZA==.KskOPzEduBg+z0cbeBsA1A==";
const VALID_SOL: &str = "s.aNL1WVbhmQGstx2jyfYcYTmguYKzEugAMwYL9LP4Z36Q5CVgAbvbCpZNSfHWclBqUWSBFswrQcHoEGmhFK+QCIFNEdDY5diLBXNQ3CWO8DGceDmMqyVmEU0r7bBUtuXAFfP7c2CPUYHm7FviyUW3PTprzJMk3hjBINvW76j2Vu5pM931Ex0RTTBMYge8/Zjnlz/KuSiqptUDiaRHtbxkqQ==";
const INVALID_SOL: &str = "s.FR4SdG/xcaMJ+AtZyq7uSbc21c2V8oENE1J926og8tBrFmIwWqsOtKUIPbnLffcdYk8n9p2FYX62jjjKVAvIRnrhThjbA0gi5XznkuupMzIoX9BbD/2y5qL0D9L9ZYSMGeYIxvyoZ/9YKnDVnGRdU+PapGA3oo/IDaK1Ev74w+uknalVqj4rnd9PFmlDmOU614H7mfC1gxGBMmlzurhEEQ==";

#[test]
fn test_solve() {
    let chall = ChallengeParams::decode_challenge(CHALLENGE).unwrap();
    let solve = chall.solve();
    assert_eq!(&solve, VALID_SOL);
}

#[test]
fn test_check() {
    let chall = ChallengeParams::decode_challenge(CHALLENGE).unwrap();
    assert!(chall.clone().check(VALID_SOL).unwrap());
    assert!(!chall.check(INVALID_SOL).unwrap());
}

#[test]
fn test_gen() {
    let chall = ChallengeParams::generate_challenge(100);
    assert!(chall.encode().len() <= 35);
    assert!(chall.difficulty == 100);
    assert!(chall.check(&chall.clone().solve()).unwrap());
}

#[test]
fn test_encode_round_trips_exactly() {
    let chall = ChallengeParams::decode_challenge(CHALLENGE).unwrap();
    assert_eq!(chall.encode(), CHALLENGE);
}

#[test]
fn test_decode_encode_decode_gives_same_challenge() {
    let chall = ChallengeParams::decode_challenge(CHALLENGE).unwrap();
    let again = ChallengeParams::decode_challenge(&chall.encode()).unwrap();
    assert_eq!(again.difficulty, chall.difficulty);
    assert!(again.val.eq_value(&chall.val));
}

#[test]
fn test_decode_wrong_version() {
    assert_eq!(
        ChallengeParams::decode_challenge("x.AAAAZA==.KskOPzEduBg+z0cbeBsA1A==").unwrap_err(),
        "Incorrect version"
    );
    assert_eq!(ChallengeParams::decode_challenge("").unwrap_err(), "Incorrect version");
    assert_eq!(
        ChallengeParams::decode_challenge("sx.AAAAZA==.AA==").unwrap_err(),
        "Incorrect version"
    );
}

#[test]
fn test_decode_wrong_part_count() {
    assert_eq!(ChallengeParams::decode_challenge("s").unwrap_err(), "Incorrect number of parts");
    assert_eq!(
        ChallengeParams::decode_challenge("s.AAAAZA==").unwrap_err(),
        "Incorrect number of parts"
    );
    assert_eq!(
        ChallengeParams::decode_challenge("s.a.b.c").unwrap_err(),
        "Incorrect number of parts"
    );
}

#[test]
fn test_decode_bad_base64() {
    assert_eq!(
        ChallengeParams::decode_challenge("s.!!!.AAAA").unwrap_err(),
        "Parts aren't valid base64"
    );
    assert_eq!(
        ChallengeParams::decode_challenge("s.AAAA.!!!").unwrap_err(),
        "Parts aren't valid base64"
    );
}

#[test]
fn test_difficulty_nonzero_padding_rejected() {
    let diff = base64::Engine::encode(
        &base64::engine::general_purpose::STANDARD,
        [1u8, 0, 0, 0, 100],
    );
    let s = format!("s.{}.KskOPzEduBg+z0cbeBsA1A==", diff);
    assert_eq!(ChallengeParams::decode_challenge(&s).unwrap_err(), "Difficulty is too large");
}

#[test]
fn test_difficulty_zero_padding_accepted() {
    let diff = base64::Engine::encode(
        &base64::engine::general_purpose::STANDARD,
        [0u8, 0, 0, 0, 0, 100],
    );
    let s = format!("s.{}.KskOPzEduBg+z0cbeBsA1A==", diff);
    let padded = ChallengeParams::decode_challenge(&s).unwrap();
    let plain = ChallengeParams::decode_challenge(CHALLENGE).unwrap();
    assert_eq!(padded.difficulty, 100);
    assert_eq!(plain.difficulty, 100);
    assert!(padded.val.eq_value(&plain.val));
}

#[test]
fn test_short_difficulty_field_zero_padded() {
    // "ZA==" is the single byte 100: it reads as difficulty 100.
    let chall = ChallengeParams::decode_challenge("s.ZA==.KskOPzEduBg+z0cbeBsA1A==").unwrap();
    assert_eq!(chall.difficulty, 100);
}

#[test]
fn test_empty_fields_decode_to_zero() {
    let chall = ChallengeParams::decode_challenge("s..").unwrap();
    assert_eq!(chall.difficulty, 0);
    assert!(chall.val.eq_value(&BigInt::from_be_bytes(&[])));
}

#[test]
fn test_byte_conversion_round_trip() {
    let v = BigInt::from_be_bytes(&[0, 0, 1, 2, 3]);
    assert_eq!(v.to_be_bytes(), vec![1, 2, 3]);
    let zero = BigInt::from_be_bytes(&[0, 0, 0]);
    assert_eq!(zero.to_be_bytes(), Vec::<u8>::new());
}

#[test]
fn test_square_mod_stays_in_range() {
    // The modulus itself: all 1279 bits set, the largest in-range value.
    let mut bytes = vec![0xFFu8; 160];
    bytes[0] = 0x7F;
    let mut v = BigInt::from_be_bytes(&bytes);
    assert!(v.le_modulus());
    for _ in 0..5 {
        v.square_mod();
        assert!(v.le_modulus());
    }
}

#[test]
fn test_square_mod_small_values() {
    let mut v = BigInt::from_be_bytes(&[17]);
    v.square_mod();
    assert_eq!(v.to_be_bytes(), vec![0x01, 0x21]);
}

#[test]
fn test_negate_mod_involution() {
    let v = BigInt::from_be_bytes(&[1, 2, 3, 4, 5]);
    let back = v.negate_mod().negate_mod();
    assert!(back.eq_value(&v));
}

#[test]
fn test_negate_mod_value() {
    // The negation of 1 is the modulus minus 1: 1279 bits, the lowest clear.
    let one = BigInt::from_be_bytes(&[1]);
    let neg = one.negate_mod();
    let bytes = neg.to_be_bytes();
    assert_eq!(bytes.len(), 160);
    assert_eq!(bytes[0], 0x7F);
    assert_eq!(bytes[159], 0xFE);
}

#[test]
fn test_xor_one() {
    let mut v = BigInt::from_be_bytes(&[4]);
    v.xor_one();
    assert_eq!(v.to_be_bytes(), vec![5]);
    v.xor_one();
    assert_eq!(v.to_be_bytes(), vec![4]);
    let mut zero = BigInt::from_be_bytes(&[]);
    zero.xor_one();
    assert_eq!(zero.to_be_bytes(), vec![1]);
}

#[test]
fn test_check_rejects_malformed_solutions() {
    let chall = ChallengeParams::decode_challenge(CHALLENGE).unwrap();
    assert_eq!(chall.check("x.AAAA"), Err("Incorrect version"));
    assert_eq!(chall.check("s"), Err("Incorrect number of parts"));
    assert_eq!(chall.check("s.a.b"), Err("Incorrect number of parts"));
    assert_eq!(chall.check("s.!!!"), Err("Parts aren't valid base64"));
}

#[test]
fn test_check_rejects_oversized_solution_value() {
    let chall = ChallengeParams::decode_challenge(CHALLENGE).unwrap();
    let huge = base64::Engine::encode(&base64::engine::general_purpose::STANDARD, [0xFFu8; 161]);
    let sol = format!("s.{}", huge);
    assert_eq!(chall.check(&sol), Ok(false));
}

#[test]
fn test_zero_difficulty_solution_is_the_value_itself() {
    let chall = ChallengeParams::decode_challenge("s..KskOPzEduBg+z0cbeBsA1A==").unwrap();
    let sol = chall.clone().solve();
    assert_eq!(sol, "s.KskOPzEduBg+z0cbeBsA1A==");
    assert!(chall.check(&sol).unwrap());
}

#[test]
fn test_check_accepts_negated_root() {
    // At difficulty zero, checking compares the decoded solution directly
    // with the challenge value or its negation modulo the prime.
    let chall = ChallengeParams::decode_challenge("s..BQ==").unwrap();
    let neg = BigInt::from_be_bytes(&[5]).negate_mod();
    let sol = format!(
        "s.{}",
        base64::Engine::encode(&base64::engine::general_purpose::STANDARD, neg.to_be_bytes())
    );
    assert_eq!(chall.check(&sol), Ok(true));
    assert_eq!(chall.check("s.BQ=="), Ok(true));
    assert_eq!(chall.check("s.Bg=="), Ok(false));
}

#[test]
fn test_gen_usage_message() {
    let msg = gen_usage("kctf-pow");
    assert_eq!(
        msg,
        "Could not parse arguments\nUsage:\n    To solve a challenge: kctf-pow solve <challenge>\n    To check a challenge: kctf-pow check <challenge>\n    To randomly generate a challenge: kctf-pow gen <difficulty>\n    To chain generation with checking: kctf-pow ask <difficulty>"
    );
}
