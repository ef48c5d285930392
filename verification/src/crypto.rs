//! The extendable-output hash primitive.  The two SHAKE functions are the
//! only outside code the library relies on; each is reached through one
//! trusted wrapper whose output is named by an uninterpreted spec function,
//! together with the one property FIPS 202 gives an XOF: a longer output
//! extends a shorter one.
use vstd::prelude::*;

verus! {

/// The first `n` bytes of SHAKE128 applied to `input`.
pub uninterp spec fn shake128_of(input: Seq<u8>, n: nat) -> Seq<u8>;

/// The first `n` bytes of SHAKE256 applied to `input`.
pub uninterp spec fn shake256_of(input: Seq<u8>, n: nat) -> Seq<u8>;

/// Relies on sha3's Shake128 (absorb, finalize, squeeze `n` bytes).  The
/// output depends on the input bytes alone; an output of any length is a
/// prefix of every longer one (the defining property of a SHAKE
/// extendable-output function), stated here in both directions: shorter
/// named outputs are prefixes of this result, and longer named outputs
/// extend it.
#[verifier::external_body]
pub(crate) fn shake128(input: &Vec<u8>, n: usize) -> (r: Vec<u8>)
    ensures
        r@ == shake128_of(input@, n as nat),
        r@.len() == n,
        forall|k: nat| k <= n ==> #[trigger] shake128_of(input@, k) == r@.take(k as int),
        forall|m: nat|
            n <= m ==> #[trigger] shake128_of(input@, m) == r@ + shake128_of(input@, m).skip(
                n as int,
            ),
{
    let mut h = sha3::Shake128::default();
    sha3::digest::Update::update(&mut h, input.as_slice());
    let mut reader = sha3::digest::ExtendableOutput::finalize_xof(h);
    let mut out = vec![0u8; n];
    sha3::digest::XofReader::read(&mut reader, out.as_mut_slice());
    out
}

/// Relies on sha3's Shake256, exactly as `shake128` relies on Shake128.
#[verifier::external_body]
pub(crate) fn shake256(input: &Vec<u8>, n: usize) -> (r: Vec<u8>)
    ensures
        r@ == shake256_of(input@, n as nat),
        r@.len() == n,
        forall|k: nat| k <= n ==> #[trigger] shake256_of(input@, k) == r@.take(k as int),
        forall|m: nat|
            n <= m ==> #[trigger] shake256_of(input@, m) == r@ + shake256_of(input@, m).skip(
                n as int,
            ),
{
    let mut h = sha3::Shake256::default();
    sha3::digest::Update::update(&mut h, input.as_slice());
    let mut reader = sha3::digest::ExtendableOutput::finalize_xof(h);
    let mut out = vec![0u8; n];
    sha3::digest::XofReader::read(&mut reader, out.as_mut_slice());
    out
}

} // verus!
