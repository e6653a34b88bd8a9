use kli::seed::SEED_SIZE;
use kli::{Identity, Seed, SeedError};
use rand_core::RngCore;

#[test]
fn seed_to_hex_is_lowercase_pairs() {
    let s = Seed::from_bytes((0u8..32).map(|b| b * 8).collect()).unwrap();
    let hex = s.to_hex();
    assert_eq!(hex.len(), 64);
    assert!(hex.starts_with("0008101820"));
    assert!(hex.ends_with("f8"));
}

#[test]
fn seed_hex_round_trip() {
    let bytes: Vec<u8> = (0u8..32).map(|b| 255 - b).collect();
    let s = Seed::from_bytes(bytes.clone()).unwrap();
    let back = Seed::from_hex(&s.to_hex()).unwrap();
    assert_eq!(back.as_bytes(), &bytes);
}

#[test]
fn seed_from_hex_accepts_uppercase() {
    let text = "AB".repeat(32);
    let s = Seed::from_hex(&text).unwrap();
    assert_eq!(s.as_bytes(), &vec![0xab; 32]);
}

#[test]
fn seed_from_hex_errors() {
    assert!(matches!(Seed::from_hex("abc"), Err(SeedError::InvalidHex)));
    assert!(matches!(Seed::from_hex(&"zz".repeat(32)), Err(SeedError::InvalidHex)));
    assert!(matches!(Seed::from_hex("abcd"), Err(SeedError::InvalidLength)));
    assert!(matches!(Seed::from_hex(&"00".repeat(33)), Err(SeedError::InvalidLength)));
}

#[test]
fn seed_from_bytes_needs_exact_size() {
    assert!(Seed::from_bytes(vec![0; 31]).is_none());
    assert!(Seed::from_bytes(vec![0; SEED_SIZE]).is_some());
}

#[test]
fn random_seeds_have_fixed_size() {
    assert_eq!(Seed::random().unwrap().as_bytes().len(), SEED_SIZE);
    assert_eq!(Seed::try_random().unwrap().as_bytes().len(), SEED_SIZE);
}

#[test]
fn cha_cha_rng_is_deterministic() {
    let mut x = Seed::from_bytes(vec![3; 32]).unwrap().into_cha_cha_rng();
    let mut y = Seed::from_bytes(vec![3; 32]).unwrap().into_cha_cha_rng();
    let mut z = Seed::from_bytes(vec![4; 32]).unwrap().into_cha_cha_rng();
    let (a, b, c) = (x.next_u64(), y.next_u64(), z.next_u64());
    assert_eq!(a, b);
    assert_ne!(a, c);
}

#[test]
fn identity_exports_seed_hex() {
    let seed = Seed::from_bytes(vec![0x5a; 32]).unwrap();
    let identity = Identity::generate_new(seed);
    assert_eq!(identity.export(), "5a".repeat(32));
    assert_eq!(identity.seed().to_hex(), "5a".repeat(32));
}

#[test]
fn identity_import_round_trip() {
    let identity = Identity::generate_new(Seed::from_bytes(vec![0x11; 32]).unwrap());
    let back = Identity::import(&identity.export()).unwrap();
    assert_eq!(back.public_id(), identity.public_id());
    assert!(matches!(Identity::import("0011"), Err(SeedError::InvalidLength)));
    assert!(matches!(Identity::import(&"g0".repeat(32)), Err(SeedError::InvalidHex)));
}

#[test]
fn public_identity_depends_on_seed() {
    let a = Identity::generate_new(Seed::from_bytes(vec![1; 32]).unwrap());
    let a2 = Identity::generate_new(Seed::from_bytes(vec![1; 32]).unwrap());
    let b = Identity::generate_new(Seed::from_bytes(vec![2; 32]).unwrap());
    assert_eq!(a.public_id().len(), 64);
    assert_eq!(a.public_id(), a2.public_id());
    assert_ne!(a.public_id(), b.public_id());
    assert_ne!(a.public_id(), vec![1; 64]);
}

#[test]
fn signatures_verify_only_for_their_key_and_message() {
    let a = Identity::generate_new(Seed::from_bytes(vec![1; 32]).unwrap());
    let b = Identity::generate_new(Seed::from_bytes(vec![2; 32]).unwrap());
    let mut e = kli::Event::unsigned(2, 5, a.public_id(), kli::EventAction::Repudiation { event: 1 });
    e.force_self_sign(&a);
    assert_eq!(e.proof[0].len(), 64);
    assert_ne!(e.proof[0], e.signing_message()[..64].to_vec());
    assert!(e.verify());
    let mut other = e.duplicate();
    other.author = b.public_id();
    assert!(!other.verify());
    let mut resigned = e.duplicate();
    resigned.force_signature(&b, 0);
    assert!(!resigned.verify());
}
