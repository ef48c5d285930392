use ml_dsa::hint::{hint_decode, hint_encode, Hint};
use ml_dsa::param::ParameterSet;
use ml_dsa::{Signature, SigningKey};

const Q: u32 = 8380417;

fn fixed_seed(fill: u8) -> Vec<u8> {
    let mut seed = Vec::new();
    for i in 0..32u32 {
        seed.push(fill.wrapping_add((3 * i) as u8));
    }
    seed
}

fn zero_rnd() -> Vec<u8> {
    vec![0u8; 32]
}

// the pure-variant message framing: 0x00, |ctx| = 0, then the message
fn framed(msg: &[u8]) -> Vec<u8> {
    let mut m = vec![0u8, 0u8];
    m.extend_from_slice(msg);
    m
}

fn beta(ps: &ParameterSet) -> u32 {
    let eta = match ps.eta {
        ml_dsa::param::Eta::Two => 2,
        ml_dsa::param::Eta::Four => 4,
    };
    ps.tau as u32 * eta
}

fn sign_verify_case(ps: &ParameterSet, fill: u8) {
    let seed = fixed_seed(fill);
    let (pk, sk) = SigningKey::key_gen_internal(&seed, ps).unwrap();
    let mp = framed(b"attested message");
    let sig = sk.sign_internal(&mp, &zero_rnd(), ps).unwrap();

    // deterministic signing: the same inputs give the same signature bytes
    let sig2 = sk.sign_internal(&mp, &zero_rnd(), ps).unwrap();
    assert_eq!(sig.encode(ps), sig2.encode(ps));

    // norm and weight bounds on the signature outputs
    let bound = ps.gamma1 - beta(ps);
    for p in sig.z.polys.iter() {
        for &x in p.coeffs.iter() {
            let norm = if x <= (Q - 1) / 2 { x } else { Q - x };
            assert!(norm < bound);
        }
    }
    let mut weight = 0usize;
    for row in sig.h.rows.iter() {
        for &b in row.iter() {
            if b {
                weight += 1;
            }
        }
    }
    assert!(weight <= ps.omega);

    // the signature verifies
    assert!(pk.verify(&mp, &sig, ps));

    // and fails on any other message
    let other = framed(b"attested message!");
    assert!(!pk.verify(&other, &sig, ps));
}

#[test]
fn sign_verify_44() {
    sign_verify_case(&ParameterSet::ml_dsa_44(), 11);
}

#[test]
fn sign_verify_65() {
    sign_verify_case(&ParameterSet::ml_dsa_65(), 22);
}

#[test]
fn sign_verify_87() {
    sign_verify_case(&ParameterSet::ml_dsa_87(), 33);
}

#[test]
fn signature_roundtrip() {
    for (ps, fill) in [
        (ParameterSet::ml_dsa_44(), 41u8),
        (ParameterSet::ml_dsa_65(), 42),
        (ParameterSet::ml_dsa_87(), 43),
    ] {
        let seed = fixed_seed(fill);
        let (pk, sk) = SigningKey::key_gen_internal(&seed, &ps).unwrap();
        let mp = framed(b"roundtrip");
        let sig = sk.sign_internal(&mp, &zero_rnd(), &ps).unwrap();
        let enc = sig.encode(&ps);
        assert_eq!(enc.len(), ps.sig_size());
        let sig2 = Signature::decode(&enc, &ps).unwrap();
        assert_eq!(sig2.c_tilde, sig.c_tilde);
        assert_eq!(sig2.z.polys.len(), sig.z.polys.len());
        for i in 0..sig.z.polys.len() {
            assert_eq!(sig2.z.polys[i].coeffs, sig.z.polys[i].coeffs);
        }
        assert_eq!(sig2.h.rows, sig.h.rows);
        // the decoded signature still verifies, and re-encodes identically
        assert!(pk.verify(&mp, &sig2, &ps));
        assert_eq!(sig2.encode(&ps), enc);
    }
}

#[test]
fn verify_rejects_flipped_signature_byte() {
    // flip one byte of an encoded ML-DSA-87 signature: either the decode
    // fails or the verification comes back false
    let ps = ParameterSet::ml_dsa_87();
    let seed = fixed_seed(87);
    let (pk, sk) = SigningKey::key_gen_internal(&seed, &ps).unwrap();
    let mp = framed(b"tamper target");
    let sig = sk.sign_internal(&mp, &zero_rnd(), &ps).unwrap();
    let enc = sig.encode(&ps);
    for &pos in [0usize, ps.lambda + 5, enc.len() - ps.k - ps.omega + 1].iter() {
        let mut bad = enc.clone();
        bad[pos] ^= 0x01;
        match Signature::decode(&bad, &ps) {
            Some(s) => assert!(!pk.verify(&mp, &s, &ps)),
            None => {}
        }
    }
}

#[test]
fn verify_rejects_flipped_key_byte() {
    let ps = ParameterSet::ml_dsa_44();
    let seed = fixed_seed(44);
    let (pk, sk) = SigningKey::key_gen_internal(&seed, &ps).unwrap();
    let mp = framed(b"key tamper");
    let sig = sk.sign_internal(&mp, &zero_rnd(), &ps).unwrap();
    let mut pkb = pk.encode(&ps);
    pkb[40] ^= 0x80;
    let pk2 = ml_dsa::VerificationKey::decode(&pkb, &ps);
    assert!(!pk2.verify(&mp, &sig, &ps));
}

fn empty_row() -> Vec<bool> {
    vec![false; 256]
}

#[test]
fn hint_encode_kat() {
    // rows with true bits at {3}, {}, {1, 17}, {} with omega = 80, k = 4:
    // index bytes 03 01 11 then zeros, counts 01 01 03 03
    let mut r0 = empty_row();
    r0[3] = true;
    let r1 = empty_row();
    let mut r2 = empty_row();
    r2[1] = true;
    r2[17] = true;
    let r3 = empty_row();
    let h = Hint { rows: vec![r0, r1, r2, r3] };
    let enc = hint_encode(&h, 80, 4);
    assert_eq!(enc.len(), 84);
    assert_eq!(&enc[0..3], &[0x03, 0x01, 0x11]);
    for i in 3..80 {
        assert_eq!(enc[i], 0x00);
    }
    assert_eq!(&enc[80..84], &[0x01, 0x01, 0x03, 0x03]);

    // and the encoding decodes back to the same hint
    let h2 = hint_decode(&enc, 80, 4).unwrap();
    assert_eq!(h2.rows, h.rows);
}

#[test]
fn hint_decode_rejects_malformed() {
    // counts must be nondecreasing and bounded by omega, indices strictly
    // increasing, padding zero
    let mut bytes = vec![0u8; 84];
    // decreasing counts
    bytes[80] = 2;
    bytes[81] = 1;
    assert!(hint_decode(&bytes, 80, 4).is_none());
    // count above omega
    let mut bytes = vec![0u8; 84];
    bytes[83] = 81;
    assert!(hint_decode(&bytes, 80, 4).is_none());
    // non-increasing indices within a row
    let mut bytes = vec![0u8; 84];
    bytes[0] = 5;
    bytes[1] = 5;
    bytes[80] = 2;
    bytes[81] = 2;
    bytes[82] = 2;
    bytes[83] = 2;
    assert!(hint_decode(&bytes, 80, 4).is_none());
    // nonzero padding after the final count
    let mut bytes = vec![0u8; 84];
    bytes[7] = 1;
    assert!(hint_decode(&bytes, 80, 4).is_none());
    // a well-formed empty hint decodes
    let bytes = vec![0u8; 84];
    assert!(hint_decode(&bytes, 80, 4).is_some());
}

#[test]
fn signature_decode_rejects_bad_hint() {
    let ps = ParameterSet::ml_dsa_44();
    let seed = fixed_seed(99);
    let (_pk, sk) = SigningKey::key_gen_internal(&seed, &ps).unwrap();
    let mp = framed(b"bad hint");
    let sig = sk.sign_internal(&mp, &zero_rnd(), &ps).unwrap();
    let mut enc = sig.encode(&ps);
    let n = enc.len();
    // make the final cumulative count exceed omega
    enc[n - 1] = (ps.omega + 1) as u8;
    assert!(Signature::decode(&enc, &ps).is_none());
}
