use ml_dsa::codec::{bit_unpack, simple_bit_unpack};
use rand::Rng;

const Q: u32 = 8380417;

fn repeat_u32(base: &[u32], n: usize) -> Vec<u32> {
    let mut v = Vec::new();
    for i in 0..n {
        v.push(base[i % base.len()]);
    }
    v
}

fn repeat_u8(base: &[u8], n: usize) -> Vec<u8> {
    let mut v = Vec::new();
    for i in 0..n {
        v.push(base[i % base.len()]);
    }
    v
}

fn simple_bit_pack_case(b: u32, d: usize, decoded: &[u32], encoded: &[u8]) {
    // known answer in both directions
    let actual_encoded = ml_dsa::codec::simple_bit_pack(&decoded.to_vec(), d);
    assert_eq!(actual_encoded, encoded.to_vec());
    let actual_decoded = simple_bit_unpack(&encoded.to_vec(), d);
    assert_eq!(actual_decoded, decoded.to_vec());

    // random decode/encode and encode/decode round trips
    let mut rng = rand::thread_rng();
    let mut random_decoded = Vec::new();
    for _ in 0..256 {
        let x: u32 = rng.gen();
        random_decoded.push(x % (b + 1));
    }
    let enc = ml_dsa::codec::simple_bit_pack(&random_decoded, d);
    let dec = simple_bit_unpack(&enc, d);
    assert_eq!(dec, random_decoded);
    let reenc = ml_dsa::codec::simple_bit_pack(&random_decoded, d);
    assert_eq!(reenc, enc);
}

#[test]
fn simple_bit_pack() {
    // standard test pattern across all the cases
    let decoded = repeat_u32(&[0, 1, 2, 3, 4, 5, 6, 7], 256);

    // 10 bits: b = 2^{bitlen(q-1) - d} - 1 = 2^10 - 1
    let b = (1 << 10) - 1;
    let encoded = repeat_u8(&[0x00, 0x04, 0x20, 0xc0, 0x00, 0x04, 0x14, 0x60, 0xc0, 0x01], 320);
    simple_bit_pack_case(b, 10, &decoded, &encoded);

    // 8 bits: gamma2 = (q - 1) / 88, b = (q - 1) / (2 gamma2) - 1 = 175
    let b = (1 << 8) - 81;
    let encoded = repeat_u8(&[0x00, 0x01, 0x02, 0x03, 0x04, 0x05, 0x06, 0x07], 256);
    simple_bit_pack_case(b, 8, &decoded, &encoded);

    // 6 bits: gamma2 = (q - 1) / 32, b = (q - 1) / (2 gamma2) - 1 = 63
    let b = (1 << 6) - 1;
    let encoded = repeat_u8(&[0x40, 0x20, 0x0c, 0x44, 0x61, 0x1c], 192);
    simple_bit_pack_case(b, 6, &decoded, &encoded);
}

fn bit_pack_case(a: u32, b: u32, d: usize, decoded: &[u32], encoded: &[u8]) {
    // known answer in both directions
    let actual_encoded = ml_dsa::codec::bit_pack(&decoded.to_vec(), a, b, d);
    assert_eq!(actual_encoded, encoded.to_vec());
    let actual_decoded = bit_unpack(&encoded.to_vec(), a, b, d).unwrap();
    assert_eq!(actual_decoded, decoded.to_vec());

    // random decode/encode and encode/decode round trips
    let mut rng = rand::thread_rng();
    let mut random_decoded = Vec::new();
    for _ in 0..256 {
        let x: u32 = rng.gen();
        let y = x % (a + b);
        // b - y as a canonical residue
        random_decoded.push(if b >= y { b - y } else { b + Q - y });
    }
    let enc = ml_dsa::codec::bit_pack(&random_decoded, a, b, d);
    let dec = bit_unpack(&enc, a, b, d).unwrap();
    assert_eq!(dec, random_decoded);
    let reenc = ml_dsa::codec::bit_pack(&random_decoded, a, b, d);
    assert_eq!(reenc, enc);
}

#[test]
fn bit_pack() {
    // standard test pattern: -1, 0, 1, 2 as canonical residues
    // (the eta = 2 range does not cover -2)
    let decoded = repeat_u32(&[Q - 1, 0, 1, 2], 256);

    // BitPack(_, eta, eta), eta = 2, 4
    let encoded = repeat_u8(&[0x53, 0x30, 0x05], 96);
    bit_pack_case(2, 2, 3, &decoded, &encoded);

    let encoded = repeat_u8(&[0x45, 0x23], 128);
    bit_pack_case(4, 4, 4, &decoded, &encoded);

    // BitPack(_, 2^d - 1, 2^d), d = 13
    let encoded = repeat_u8(&[0x01, 0x20, 0x00, 0xf8, 0xff, 0xf9, 0x7f], 448);
    bit_pack_case((1 << 13) - 1, 1 << 13, 14, &decoded, &encoded);

    // BitPack(_, gamma1 - 1, gamma1), gamma1 = 2^17
    let encoded = repeat_u8(&[0x01, 0x00, 0x02, 0x00, 0xf8, 0xff, 0x9f, 0xff, 0x7f], 576);
    bit_pack_case((1 << 17) - 1, 1 << 17, 18, &decoded, &encoded);

    // BitPack(_, gamma1 - 1, gamma1), gamma1 = 2^19, following FIPS 204
    // literally: the entries start at 2^19 + 1
    let encoded = repeat_u8(&[0x01, 0x00, 0x08, 0x00, 0x80, 0xff, 0xff, 0xe7, 0xff, 0x7f], 640);
    bit_pack_case((1 << 19) - 1, 1 << 19, 20, &decoded, &encoded);
}

#[test]
fn simple_bit_pack_roundtrip_13() {
    // width 13 with coefficients 0..255: pack then unpack is the identity
    // and the encoded length is 32 * 13 = 416 bytes
    let mut decoded = Vec::new();
    for i in 0..256u32 {
        decoded.push(i);
    }
    let enc = ml_dsa::codec::simple_bit_pack(&decoded, 13);
    assert_eq!(enc.len(), 416);
    let dec = simple_bit_unpack(&enc, 13);
    assert_eq!(dec, decoded);
}

#[test]
fn bit_unpack_rejects_out_of_range() {
    // at eta = 2 (3-bit width) the digit 7 exceeds a + b = 4
    let bytes = vec![0xffu8; 96];
    assert!(bit_unpack(&bytes, 2, 2, 3).is_none());
    // an all-zero string decodes (every digit is 0 <= 4)
    let bytes = vec![0u8; 96];
    assert!(bit_unpack(&bytes, 2, 2, 3).is_some());
}
