use spartan_sha::prime::{
    SHA256_MAX_LOG_COMPRESSIONS, SHA256_MIN_LOG_COMPRESSIONS, Sha256ModQContext, Sha256PrimeError,
    Sha256PrimeProfile,
};
use spartan_sha::profile::{LegacySha128Design, OodParams, ReductionParams, sha256_instance_facts};

#[test]
fn paper_intervals_have_the_expected_width_and_no_wrap_bound() {
    for t in SHA256_MIN_LOG_COMPRESSIONS..=SHA256_MAX_LOG_COMPRESSIONS {
        let profile = Sha256PrimeProfile::new(t).unwrap();
        let min_bits = (u128::BITS - profile.min_prime().leading_zeros()) as usize;
        assert_eq!(min_bits, if t == 16 { 112 } else { 113 });
        assert!(profile.max_prime() < (1_u128 << 113));
        assert!(profile.min_prime() <= profile.max_prime());
        assert!(profile.max_prime() - 1 <= u128::MAX / ((1_u128 << t) + 1));
    }

    let t14 = Sha256PrimeProfile::new(14).unwrap();
    assert_eq!(t14.max_prime(), (1_u128 << 113) - 1);
    let t15 = Sha256PrimeProfile::new(15).unwrap();
    assert!(t15.max_prime() < (1_u128 << 113) - 1);
    let t16 = Sha256PrimeProfile::new(16).unwrap();
    assert!(t16.max_prime() < (1_u128 << 112) - 1);
}

#[test]
fn rejects_batch_sizes_outside_the_paper_profile() {
    assert!(matches!(
        Sha256PrimeProfile::new(6),
        Err(Sha256PrimeError::UnsupportedBatchExponent { actual: 6 })
    ));
    assert!(matches!(
        Sha256PrimeProfile::new(17),
        Err(Sha256PrimeError::UnsupportedBatchExponent { actual: 17 })
    ));
}

#[test]
fn prime_profile_rejects_zero_and_huge_exponents() {
    assert_eq!(
        Sha256PrimeProfile::new(0),
        Err(Sha256PrimeError::UnsupportedBatchExponent { actual: 0 })
    );
    assert_eq!(
        Sha256PrimeProfile::new(usize::MAX),
        Err(Sha256PrimeError::UnsupportedBatchExponent { actual: usize::MAX })
    );
}

#[test]
fn prime_profile_grinding_schedule_per_batch() {
    for t in 7..=16 {
        let profile = Sha256PrimeProfile::new(t).unwrap();
        assert_eq!(profile.log_compressions(), t);
        let initial = if t <= 8 {
            20
        } else if t <= 15 {
            21
        } else {
            22
        };
        assert_eq!(profile.initial_grinding_bits(), initial, "t = {t}");
        assert_eq!(profile.outer_round_grinding_bits(), if t <= 15 { 18 } else { 19 });
        let terminal = if t <= 8 {
            19
        } else if t <= 15 {
            20
        } else {
            21
        };
        assert_eq!(profile.terminal_grinding_bits(), terminal, "t = {t}");
    }
}

#[test]
fn prime_profile_exact_interval_endpoints() {
    for t in 7..=14 {
        let profile = Sha256PrimeProfile::new(t).unwrap();
        assert_eq!(profile.min_prime(), 1_u128 << 112);
        assert_eq!(profile.max_prime(), (1_u128 << 113) - 1);
    }
    let t15 = Sha256PrimeProfile::new(15).unwrap();
    assert_eq!(t15.min_prime(), 1_u128 << 112);
    assert_eq!(t15.max_prime(), 10384276814090709617729396912684801);
    let t16 = Sha256PrimeProfile::new(16).unwrap();
    assert_eq!(t16.min_prime(), 1_u128 << 111);
    assert_eq!(t16.max_prime(), 5192217631581220737344928932233216);
    // The upper endpoint is the largest value without wrap.
    assert!(t16.max_prime() - 1 <= u128::MAX / ((1 << 16) + 1));
    assert!(t16.max_prime() > u128::MAX / ((1 << 16) + 1));
}

#[test]
fn accepts_prime_checks_interval_parity_and_no_wrap() {
    let profile = Sha256PrimeProfile::new(7).unwrap();
    let min = profile.min_prime();
    let max = profile.max_prime();
    assert!(!profile.accepts_prime(min));
    assert!(profile.accepts_prime(min + 1));
    assert!(profile.accepts_prime(max));
    assert!(!profile.accepts_prime(max + 2));
    assert!(!profile.accepts_prime(min - 1));
    assert!(!profile.accepts_prime(3));
    assert!(!profile.accepts_prime(0));

    let t16 = Sha256PrimeProfile::new(16).unwrap();
    let top = t16.max_prime();
    assert!(!t16.accepts_prime(top));
    assert!(t16.accepts_prime(top - 1));
    assert!(!t16.accepts_prime(top + 1));
}

#[test]
fn mod_q_context_validates_the_prime() {
    let profile = Sha256PrimeProfile::new(7).unwrap();
    let q = (1_u128 << 112) + 1;
    let context = Sha256ModQContext::new(profile, q).unwrap();
    assert_eq!(context.q(), q);
    assert_eq!(context.q_bits(), 113);
    assert_eq!(context.profile(), profile);

    let t16 = Sha256PrimeProfile::new(16).unwrap();
    let q16 = t16.max_prime() - 1;
    assert_eq!(Sha256ModQContext::new(t16, q16).unwrap().q_bits(), 112);

    let even = 1_u128 << 112;
    assert!(matches!(
        Sha256ModQContext::new(profile, even),
        Err(Sha256PrimeError::PrimeOutsideProfile { q }) if q == even
    ));
    assert!(matches!(
        Sha256ModQContext::new(profile, 7),
        Err(Sha256PrimeError::PrimeOutsideProfile { q: 7 })
    ));
}

#[test]
fn from_security_adopts_single_prime_profiles_only() {
    let params = LegacySha128Design::instantiate(&sha256_instance_facts(9)).unwrap();
    let adopted = Sha256PrimeProfile::from_security(&params, 9).unwrap();
    assert_eq!(adopted, Sha256PrimeProfile::new(9).unwrap());

    assert_eq!(
        Sha256PrimeProfile::from_security(&params, 17),
        Err(Sha256PrimeError::UnsupportedBatchExponent { actual: 17 })
    );

    let mut full_width = params;
    full_width.projection_full_width = true;
    assert_eq!(
        Sha256PrimeProfile::from_security(&full_width, 9),
        Err(Sha256PrimeError::ProfileStrategyMismatch)
    );

    let mut reduced = params;
    reduced.reduction = Some(ReductionParams { min: 5, max: 11, grinding_bits: 3 });
    assert_eq!(
        Sha256PrimeProfile::from_security(&reduced, 9),
        Err(Sha256PrimeError::ProfileStrategyMismatch)
    );

    // An out-of-domain round does not change the single-prime policy.
    let mut with_ood = params;
    with_ood.ood = Some(OodParams { grinding_bits: 4 });
    with_ood.initial_grinding_bits = 30;
    let custom = Sha256PrimeProfile::from_security(&with_ood, 9).unwrap();
    assert_eq!(custom.initial_grinding_bits(), 30);
    assert_eq!(custom.min_prime(), params.projection_min);
    assert_eq!(custom.max_prime(), params.projection_max);
}
