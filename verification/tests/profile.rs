use spartan_sha::profile::{
    IopInstanceFacts, LegacySha128Design, ProfileError, SHA256_TAU_LOCAL_VARS, bit_length,
    ceil_log2_u32, piop_wrap_bits, pow2_u128, sha256_instance_facts, u128_mul_instance_facts,
};
use spartan_sha::u128_mul::IntEvalParams;

fn facts(lift: u32) -> IopInstanceFacts {
    IopInstanceFacts {
        defect_log2_bound: 0,
        lift_arity_log2: lift,
        opening_t: 1,
        opening_word_bits: 1,
        direct_opening: false,
        tau_arity: 4,
        piop_degree: 3,
        step50_magnitude_log2: 0,
    }
}

#[test]
fn sha256_facts_follow_the_batch_exponent() {
    let f = sha256_instance_facts(9);
    assert_eq!(f.defect_log2_bound, 96);
    assert_eq!(f.lift_arity_log2, 9);
    assert_eq!(f.opening_t, 9);
    assert_eq!(f.opening_word_bits, 1);
    assert!(!f.direct_opening);
    assert_eq!(f.tau_arity, SHA256_TAU_LOCAL_VARS + 9);
    assert_eq!(f.piop_degree, 3);
    assert_eq!(f.step50_magnitude_log2, 0);
}

#[test]
fn u128_facts_use_the_direct_opening() {
    let params = IntEvalParams { t: 14, s: 5, word_bits: 1 };
    let f = u128_mul_instance_facts(&params, 12);
    assert_eq!(f.defect_log2_bound, 258);
    assert_eq!(f.lift_arity_log2, 14);
    assert_eq!(f.opening_t, 14);
    assert!(f.direct_opening);
    assert_eq!(f.tau_arity, 12);
    assert_eq!(u128_mul_instance_facts(&params, 0).tau_arity, 1);
    assert_eq!(u128_mul_instance_facts(&params, 1).tau_arity, 1);
}

#[test]
fn integer_helpers() {
    assert_eq!(bit_length(0), 0);
    assert_eq!(bit_length(1), 1);
    assert_eq!(bit_length(255), 8);
    assert_eq!(bit_length(256), 9);
    assert_eq!(bit_length(u128::MAX), 128);
    assert_eq!(pow2_u128(0), 1);
    assert_eq!(pow2_u128(113), 1 << 113);
    assert_eq!(pow2_u128(127), 1 << 127);
    assert_eq!(ceil_log2_u32(0), 0);
    assert_eq!(ceil_log2_u32(1), 0);
    assert_eq!(ceil_log2_u32(3), 2);
    assert_eq!(ceil_log2_u32(16), 4);
    assert_eq!(ceil_log2_u32(17), 5);
    assert_eq!(ceil_log2_u32(u32::MAX), 32);
}

#[test]
fn legacy_design_intervals_and_grinding() {
    let wide = LegacySha128Design::instantiate(&facts(0)).unwrap();
    assert_eq!(wide.projection_max, (1 << 113) - 1);
    assert_eq!(wide.projection_min, 1 << 112);
    assert_eq!(wide.initial_grinding_bits, 16 + 2);
    assert_eq!(wide.profile_name, "legacy-sha128");
    assert_eq!(wide.lambda, 128);
    assert!(!wide.projection_full_width);
    assert!(wide.reduction.is_none());
    assert!(wide.ood.is_none());
    assert_eq!(wide.ligerito_target_bits, 128);

    let narrow = LegacySha128Design::instantiate(&facts(63)).unwrap();
    assert_eq!(narrow.projection_max, 36893488147419103229);
    assert_eq!(narrow.projection_min, 1 << 64);
    assert_eq!(narrow.initial_grinding_bits, 64 + 2);
    assert_eq!(narrow.piop_round_grinding_bits, 64 + 2);
    assert_eq!(narrow.terminal_grinding_bits, 64);

    for lift in [64, 100, 126, 127, 128, u32::MAX] {
        assert_eq!(
            LegacySha128Design::instantiate(&facts(lift)),
            Err(ProfileError::EmptyProjectionInterval),
            "lift {lift}"
        );
    }
}

#[test]
fn piop_wrap_bits_is_the_larger_schedule() {
    let mut params = LegacySha128Design::instantiate(&sha256_instance_facts(16)).unwrap();
    assert_eq!(piop_wrap_bits(&params), 22);
    params.initial_grinding_bits = 3;
    assert_eq!(piop_wrap_bits(&params), 19);
}
