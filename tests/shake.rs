use homomorphic_transistor::shake::sample_seeds;
use homomorphic_transistor::shake_keygen;
use homomorphic_transistor::ConfigError;

#[test]
fn keygen_is_deterministic() {
    let a = shake_keygen(b"0123456789abcdef", 64, 32, b"").unwrap();
    let b = shake_keygen(b"0123456789abcdef", 64, 32, b"").unwrap();
    assert_eq!(a, b);
    assert_eq!(a.0.len(), 32);
    assert_eq!(a.1.len(), 64);
    assert!(a.0.iter().chain(a.1.iter()).all(|v| *v < 17));
}

#[test]
fn keygen_depends_on_key_and_iv() {
    let a = shake_keygen(b"0123456789abcdef", 64, 32, b"").unwrap();
    let b = shake_keygen(b"0123456789abcdeg", 64, 32, b"").unwrap();
    let c = shake_keygen(b"0123456789abcdef", 64, 32, b"iv").unwrap();
    assert_ne!(a, b);
    assert_ne!(a, c);
}

#[test]
fn keygen_rejects_short_and_long_keys() {
    assert_eq!(shake_keygen(b"0123456789abcde", 64, 32, b""), Err(ConfigError::MasterKeyLength));
    assert_eq!(shake_keygen(b"0123456789abcdef0", 64, 32, b""), Err(ConfigError::MasterKeyLength));
}

#[test]
fn sampling_skips_255_and_divides_by_15() {
    let stream = vec![255u8, 0, 15, 254, 30, 255, 200];
    let (w, k) = sample_seeds(&stream, 2, 2).unwrap();
    assert_eq!(k, vec![0, 1]);
    assert_eq!(w, vec![16, 2]);
}

#[test]
fn sampling_reports_exhaustion() {
    let stream = vec![255u8, 255, 3, 255];
    assert_eq!(sample_seeds(&stream, 1, 1), Err(ConfigError::SampleExhausted));
    assert_eq!(sample_seeds(&stream, 1, 0).unwrap(), (vec![], vec![0]));
}

#[test]
fn keygen_known_answer() {
    let (w, k) = shake_keygen(b"0123456789abcdef", 64, 32, b"").unwrap();
    assert_eq!(
        w,
        vec![15, 4, 4, 6, 7, 12, 9, 2, 7, 9, 8, 6, 12, 7, 11, 4, 13, 10, 15, 14, 7, 5, 16, 12, 11,
            8, 15, 0, 5, 10, 7, 6]
    );
    assert_eq!(
        k,
        vec![3, 8, 16, 1, 8, 16, 14, 4, 16, 7, 12, 16, 5, 10, 9, 11, 6, 9, 0, 5, 1, 3, 2, 9, 16, 3,
            7, 12, 2, 8, 5, 4, 9, 11, 12, 9, 10, 6, 11, 14, 4, 3, 7, 2, 11, 11, 2, 9, 2, 8, 2, 15,
            15, 15, 6, 11, 12, 11, 9, 9, 8, 8, 5, 13]
    );
}

#[test]
fn keygen_known_answer_with_iv() {
    let (w, k) = shake_keygen(b"0123456789abcdef", 4, 3, b"iv").unwrap();
    assert_eq!(w, vec![14, 10, 1]);
    assert_eq!(k, vec![10, 3, 11, 14]);
}
