use ledger_state::account::{
    parse_private_key_bytes, seed_from_base58, ComputeKey, PrivateKey, Scalar, MODULUS_L0,
    MODULUS_L1, MODULUS_L2, MODULUS_L3,
};
use ledger_state::errors::StateError;

fn small_scalar(n: u64) -> Scalar {
    Scalar::new(n, 0, 0, 0).unwrap()
}

fn sample_key() -> PrivateKey {
    let compute_key = ComputeKey {
        pk_sig: vec![7; 32],
        pr_sig: vec![9; 32],
        sk_prf: small_scalar(3),
    };
    PrivateKey::from_components((0u8..32).collect(), small_scalar(1), small_scalar(2), compute_key)
        .unwrap()
}

#[test]
fn scalar_rejects_values_at_or_above_the_order() {
    assert!(Scalar::new(MODULUS_L0, MODULUS_L1, MODULUS_L2, MODULUS_L3).is_err());
    assert!(Scalar::new(u64::MAX, u64::MAX, u64::MAX, u64::MAX).is_err());
    // One below the order is canonical.
    assert!(Scalar::new(MODULUS_L0 - 1, MODULUS_L1, MODULUS_L2, MODULUS_L3).is_ok());
    assert!(Scalar::new(0, 0, 0, 0).is_ok());
}

#[test]
fn private_key_requires_full_seed() {
    let compute_key = ComputeKey {
        pk_sig: vec![],
        pr_sig: vec![],
        sk_prf: small_scalar(3),
    };
    assert_eq!(
        PrivateKey::from_components(vec![1; 31], small_scalar(1), small_scalar(2), compute_key)
            .unwrap_err(),
        StateError::MalformedKey
    );
}

#[test]
fn compute_key_carries_the_prf_secret() {
    let key = sample_key();
    assert!(key.is_valid());
    let compute_key = key.to_compute_key().unwrap();
    assert_eq!(compute_key.sk_prf, small_scalar(3));
    assert_eq!(compute_key.pk_sig, vec![7; 32]);
    assert_eq!(compute_key.pr_sig, vec![9; 32]);
}

#[test]
fn key_string_round_trips_through_base58() {
    let key = sample_key();
    let encoded = key.to_base58_string();
    let seed = seed_from_base58(&encoded).unwrap();
    assert_eq!(seed, (0u8..32).collect::<Vec<u8>>());
}

#[test]
fn parse_rejects_wrong_length_and_prefix() {
    assert_eq!(
        parse_private_key_bytes(&vec![0; 42]).unwrap_err(),
        StateError::MalformedKey
    );
    assert_eq!(
        parse_private_key_bytes(&vec![0; 43]).unwrap_err(),
        StateError::MalformedKey
    );
}

#[test]
fn malformed_base58_is_rejected() {
    assert_eq!(
        seed_from_base58("0OIl!").unwrap_err(),
        StateError::MalformedKey
    );
}
