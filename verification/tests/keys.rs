use ml_dsa::param::ParameterSet;
use ml_dsa::{SigningKey, VerificationKey};
use rand::Rng;

fn key_generation_case(ps: &ParameterSet) {
    let mut rng = rand::thread_rng();
    let mut seed = Vec::new();
    for _ in 0..32 {
        let b: u8 = rng.gen();
        seed.push(b);
    }
    let (pk, sk) = SigningKey::key_gen_internal(&seed, ps).unwrap();
    let _sk_enc = sk.encode(ps);
    let _pk_enc = pk.encode(ps);
}

#[test]
fn key_generation() {
    key_generation_case(&ParameterSet::ml_dsa_44());
    key_generation_case(&ParameterSet::ml_dsa_65());
}

fn fixed_seed(fill: u8) -> Vec<u8> {
    let mut seed = Vec::new();
    for i in 0..32u32 {
        seed.push(fill.wrapping_add(i as u8));
    }
    seed
}

fn assert_vectors_eq(a: &ml_dsa::poly::PolynomialVector, b: &ml_dsa::poly::PolynomialVector) {
    assert_eq!(a.polys.len(), b.polys.len());
    for i in 0..a.polys.len() {
        assert_eq!(a.polys[i].coeffs, b.polys[i].coeffs);
    }
}

fn sk_roundtrip_case(ps: &ParameterSet, fill: u8) {
    let seed = fixed_seed(fill);
    let (_pk, sk) = SigningKey::key_gen_internal(&seed, ps).unwrap();
    let enc = sk.encode(ps);
    assert_eq!(enc.len(), ps.sk_size());
    let sk2 = SigningKey::decode(&enc, ps).unwrap();
    assert_eq!(sk2.rho, sk.rho);
    assert_eq!(sk2.key, sk.key);
    assert_eq!(sk2.tr, sk.tr);
    assert_vectors_eq(&sk2.s1, &sk.s1);
    assert_vectors_eq(&sk2.s2, &sk.s2);
    assert_vectors_eq(&sk2.t0, &sk.t0);
    // the re-encoding is byte-identical
    assert_eq!(sk2.encode(ps), enc);
}

fn vk_roundtrip_case(ps: &ParameterSet, fill: u8) {
    let seed = fixed_seed(fill);
    let (pk, _sk) = SigningKey::key_gen_internal(&seed, ps).unwrap();
    let enc = pk.encode(ps);
    assert_eq!(enc.len(), ps.vk_size());
    let pk2 = VerificationKey::decode(&enc, ps);
    assert_eq!(pk2.rho, pk.rho);
    assert_vectors_eq(&pk2.t1, &pk.t1);
    assert_eq!(pk2.encode(ps), enc);
}


#[test]
fn signing_key_roundtrip() {
    sk_roundtrip_case(&ParameterSet::ml_dsa_44(), 1);
    sk_roundtrip_case(&ParameterSet::ml_dsa_65(), 2);
    sk_roundtrip_case(&ParameterSet::ml_dsa_87(), 3);
}

#[test]
fn verification_key_roundtrip() {
    vk_roundtrip_case(&ParameterSet::ml_dsa_44(), 4);
    vk_roundtrip_case(&ParameterSet::ml_dsa_65(), 5);
    vk_roundtrip_case(&ParameterSet::ml_dsa_87(), 6);
}

#[test]
fn derived_sizes() {
    let p44 = ParameterSet::ml_dsa_44();
    let p65 = ParameterSet::ml_dsa_65();
    let p87 = ParameterSet::ml_dsa_87();
    assert_eq!((p44.sk_size(), p44.vk_size(), p44.sig_size()), (2560, 1312, 2420));
    assert_eq!((p65.sk_size(), p65.vk_size(), p65.sig_size()), (4032, 1952, 3309));
    assert_eq!((p87.sk_size(), p87.vk_size(), p87.sig_size()), (4896, 2592, 4627));
    assert_eq!((p44.beta(), p65.beta(), p87.beta()), (78, 196, 120));
    assert_eq!((p44.m(), p65.m(), p87.m()), (44, 16, 16));
    assert_eq!((p44.eta_bits(), p65.eta_bits(), p87.eta_bits()), (3, 4, 3));
    assert_eq!((p44.gamma1_bits(), p65.gamma1_bits(), p87.gamma1_bits()), (18, 20, 20));
    assert_eq!((p44.w1_bits(), p65.w1_bits(), p87.w1_bits()), (6, 4, 4));
}

#[test]
fn signing_key_decode_rejects_bad_range() {
    // ML-DSA-44 packs s1 at 3 bits with range [-2, 2]; an all-ones byte in
    // the s1 segment decodes to digits of 7 > 4 and must be rejected
    let ps = ParameterSet::ml_dsa_44();
    let seed = fixed_seed(7);
    let (_pk, sk) = SigningKey::key_gen_internal(&seed, &ps).unwrap();
    let mut enc = sk.encode(&ps);
    enc[128] = 0xff;
    assert!(SigningKey::decode(&enc, &ps).is_none());
}
