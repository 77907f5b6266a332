//! The byte-level API behind the JavaScript bindings: keys, key pairs and
//! signing states as flat byte strings, checked on the way in.
//!
//! A public key is `seed ‖ root` (32 bytes), a secret key
//! `seed ‖ prf ‖ sf ‖ sl ‖ public key` (96 bytes), a key pair
//! `public key ‖ secret key` (128 bytes) and a state `q` (little-endian
//! `u32`) `‖ valid` (one byte, 0 or 1).
use vstd::prelude::*;

use crate::constants::{
    spec_shrincs_b, spec_shrincs_b32, spec_shrincs_l, ParamSet, Params, SHRINCS_B, SHRINCS_B32,
    SHRINCS_L,
};
use crate::hash::{append_bytes, is_hash_fn};
use crate::shrincs::{
    keys_from_seed, prepared_bytes_ok, prepared_header, prepared_roots, prepared_roots_len,
    sign_stateful_spec, sign_stateless_cached_spec,
    sign_stateless_spec, verify_spec, verify_stateful_spec, Error, PreparedStatelessKey,
    PublicKey, SecretKey, State,
};

verus! {

/// Bytes of a serialized public key.
pub const PUBLIC_KEY_LEN: usize = 32;

/// Bytes of a serialized secret key.
pub const SECRET_KEY_LEN: usize = 96;

/// Bytes of a serialized key pair.
pub const KEYPAIR_LEN: usize = 128;

/// Bytes of a serialized signing state.
pub const STATE_LEN: usize = 5;

/// Bytes of a key-generation seed.
pub const SEED_LEN: usize = 48;

/// The SHRINCS parameter set a call works with.
#[derive(Clone, Copy, Debug, PartialEq, Eq, Structural)]
pub enum ParamsType {
    L,
    B,
    B32,
}

/// The values of a parameter set.
pub open spec fn params_of(pt: ParamsType) -> ParamSet {
    match pt {
        ParamsType::L => spec_shrincs_l(),
        ParamsType::B => spec_shrincs_b(),
        ParamsType::B32 => spec_shrincs_b32(),
    }
}

/// The byte string an input is read as.
#[derive(Clone, Copy, Debug, PartialEq, Eq, Structural)]
pub enum Field {
    Keypair,
    Seed,
    PublicKey,
    SecretKey,
    State,
    StatefulSignResult,
}

impl Field {
    /// The name of the field in error messages.
    pub fn name(&self) -> (r: &'static str)
        ensures
            r@ == match *self {
                Field::Keypair => "keypair"@,
                Field::Seed => "seed"@,
                Field::PublicKey => "public_key"@,
                Field::SecretKey => "secret_key"@,
                Field::State => "state"@,
                Field::StatefulSignResult => "stateful_sign_result"@,
            },
    {
        match self {
            Field::Keypair => "keypair",
            Field::Seed => "seed",
            Field::PublicKey => "public_key",
            Field::SecretKey => "secret_key",
            Field::State => "state",
            Field::StatefulSignResult => "stateful_sign_result",
        }
    }
}

/// Why a call was refused.
#[derive(Clone, Copy, Debug, PartialEq, Eq, Structural)]
pub enum ApiError {
    /// An input does not have the one length it must have.
    Length { field: Field, expected: usize, actual: usize },
    /// An input is shorter than it must be.
    LengthAtLeast { field: Field, expected: usize, actual: usize },
    /// The validity byte of a state is neither 0 nor 1.
    InvalidStateFlag(u8),
    /// The SHRINCS operation itself failed.
    Operation(Error),
    /// A prepared stateless key is not one of this parameter set: its header or
    /// its length is wrong.
    InvalidPreparedKey,
}

// ----------------------------------------------------------------------------
// Layouts
// ----------------------------------------------------------------------------

/// The bytes of a public key: `seed ‖ root`.
pub open spec fn pk_bytes(pk: PublicKey) -> Seq<u8> {
    pk.seed@ + pk.root@
}

/// The bytes of a secret key: `seed ‖ prf ‖ sf ‖ sl ‖ public key`.
pub open spec fn sk_bytes(sk: SecretKey) -> Seq<u8> {
    sk.seed@ + sk.prf@ + sk.sf@ + sk.sl@ + pk_bytes(sk.pk)
}

/// `x` as four little-endian bytes.
pub open spec fn le32(x: u32) -> Seq<u8> {
    seq![x as u8, (x >> 8u32) as u8, (x >> 16u32) as u8, (x >> 24u32) as u8]
}

/// The bytes of a state: `q` little-endian, then 1 for a valid state or 0.
pub open spec fn state_bytes(s: State) -> Seq<u8> {
    le32(s.q) + seq![if s.valid { 1u8 } else { 0u8 }]
}

/// Keys with the same bytes are the same key.
pub proof fn lemma_pk_bytes_injective(a: PublicKey, b: PublicKey)
    requires
        pk_bytes(a) == pk_bytes(b),
    ensures
        a == b,
{
    assert(a.seed@ =~= pk_bytes(a).subrange(0, 16));
    assert(b.seed@ =~= pk_bytes(b).subrange(0, 16));
    assert(a.root@ =~= pk_bytes(a).subrange(16, 32));
    assert(b.root@ =~= pk_bytes(b).subrange(16, 32));
    assert(a.seed =~= b.seed);
    assert(a.root =~= b.root);
}

/// Secret keys with the same bytes are the same key.
pub proof fn lemma_sk_bytes_injective(a: SecretKey, b: SecretKey)
    requires
        sk_bytes(a) == sk_bytes(b),
    ensures
        a == b,
{
    let x = sk_bytes(a);
    assert(a.seed@ =~= x.subrange(0, 16) && b.seed@ =~= x.subrange(0, 16));
    assert(a.prf@ =~= x.subrange(16, 32) && b.prf@ =~= x.subrange(16, 32));
    assert(a.sf@ =~= x.subrange(32, 48) && b.sf@ =~= x.subrange(32, 48));
    assert(a.sl@ =~= x.subrange(48, 64) && b.sl@ =~= x.subrange(48, 64));
    assert(pk_bytes(a.pk) =~= x.subrange(64, 96) && pk_bytes(b.pk) =~= x.subrange(64, 96));
    lemma_pk_bytes_injective(a.pk, b.pk);
    assert(a.seed =~= b.seed);
    assert(a.prf =~= b.prf);
    assert(a.sf =~= b.sf);
    assert(a.sl =~= b.sl);
}

/// States with the same bytes are the same state.
pub proof fn lemma_state_bytes_injective(a: State, b: State)
    requires
        state_bytes(a) == state_bytes(b),
    ensures
        a == b,
{
    let (x, y) = (a.q, b.q);
    assert(state_bytes(a).subrange(0, 4) =~= le32(x));
    assert(state_bytes(b).subrange(0, 4) =~= le32(y));
    assert(le32(x) == le32(y));
    assert(le32(x)[0] == le32(y)[0]);
    assert(le32(x)[1] == le32(y)[1]);
    assert(le32(x)[2] == le32(y)[2]);
    assert(le32(x)[3] == le32(y)[3]);
    assert(state_bytes(a)[4] == state_bytes(b)[4]);
    assert(state_bytes(a)[4] == if a.valid { 1u8 } else { 0u8 });
    assert(state_bytes(b)[4] == if b.valid { 1u8 } else { 0u8 });
    assert(x == y) by (bit_vector)
        requires
            x as u8 == y as u8,
            (x >> 8u32) as u8 == (y >> 8u32) as u8,
            (x >> 16u32) as u8 == (y >> 16u32) as u8,
            (x >> 24u32) as u8 == (y >> 24u32) as u8,
    ;
}

// ----------------------------------------------------------------------------
// Sizes
// ----------------------------------------------------------------------------

/// Bytes of a serialized public key.
pub fn public_key_len() -> (r: usize)
    ensures
        r == PUBLIC_KEY_LEN,
{
    PUBLIC_KEY_LEN
}

/// Bytes of a serialized secret key.
pub fn secret_key_len() -> (r: usize)
    ensures
        r == SECRET_KEY_LEN,
{
    SECRET_KEY_LEN
}

/// Bytes of a serialized key pair.
pub fn keypair_len() -> (r: usize)
    ensures
        r == KEYPAIR_LEN,
{
    KEYPAIR_LEN
}

/// Bytes of a serialized signing state.
pub fn state_len() -> (r: usize)
    ensures
        r == STATE_LEN,
{
    STATE_LEN
}

/// Bytes of a stateless signature of the parameter set.
pub fn stateless_signature_len(params: ParamsType) -> (r: usize)
    ensures
        r == params_of(params).spec_sl_size(),
{
    match params {
        ParamsType::L => SHRINCS_L::params().sl_size(),
        ParamsType::B => SHRINCS_B::params().sl_size(),
        ParamsType::B32 => SHRINCS_B32::params().sl_size(),
    }
}

/// Largest stateful signature of the parameter set.
pub fn stateful_signature_max_len(params: ParamsType) -> (r: usize)
    ensures
        r == params_of(params).spec_max_sf_size(),
{
    match params {
        ParamsType::L => SHRINCS_L::params().max_sf_size(),
        ParamsType::B => SHRINCS_B::params().max_sf_size(),
        ParamsType::B32 => SHRINCS_B32::params().max_sf_size(),
    }
}

// ----------------------------------------------------------------------------
// Writing and reading
// ----------------------------------------------------------------------------

/// Append the bytes of `public_key` to `out`.
pub fn write_public_key(out: &mut Vec<u8>, public_key: &PublicKey)
    ensures
        final(out)@ == old(out)@ + pk_bytes(*public_key),
{
    append_bytes(out, &public_key.seed);
    append_bytes(out, &public_key.root);
    assert(old(out)@ + public_key.seed@ + public_key.root@ =~= old(out)@ + pk_bytes(*public_key));
}

/// Append the bytes of `secret_key` to `out`.
pub fn write_secret_key(out: &mut Vec<u8>, secret_key: &SecretKey)
    ensures
        final(out)@ == old(out)@ + sk_bytes(*secret_key),
{
    append_bytes(out, &secret_key.seed);
    append_bytes(out, &secret_key.prf);
    append_bytes(out, &secret_key.sf);
    append_bytes(out, &secret_key.sl);
    write_public_key(out, &secret_key.pk);
    assert(old(out)@ + secret_key.seed@ + secret_key.prf@ + secret_key.sf@ + secret_key.sl@
        + pk_bytes(secret_key.pk) =~= old(out)@ + sk_bytes(*secret_key));
}

/// Append the bytes of `state` to `out`.
pub fn write_state(out: &mut Vec<u8>, state: &State)
    ensures
        final(out)@ == old(out)@ + state_bytes(*state),
{
    let q = state.q;
    out.push(q as u8);
    out.push((q >> 8u32) as u8);
    out.push((q >> 16u32) as u8);
    out.push((q >> 24u32) as u8);
    out.push(if state.valid { 1u8 } else { 0u8 });
    assert(out@ =~= old(out)@ + state_bytes(*state));
}

/// 16 bytes of `bytes` from `off` on.
fn read_16(bytes: &[u8], off: usize) -> (r: [u8; 16])
    requires
        off + 16 <= bytes@.len(),
    ensures
        r@ == bytes@.subrange(off as int, off + 16),
{
    crate::wots_c::read_node(bytes, off)
}

/// Read a public key from its 32 bytes.
pub fn read_public_key(bytes: &[u8]) -> (r: Result<PublicKey, ApiError>)
    ensures
        match r {
            Ok(pk) => bytes@.len() == PUBLIC_KEY_LEN && pk_bytes(pk) == bytes@,
            Err(e) => bytes@.len() != PUBLIC_KEY_LEN && e == ApiError::Length {
                field: Field::PublicKey,
                expected: PUBLIC_KEY_LEN,
                actual: bytes@.len() as usize,
            },
        },
{
    if bytes.len() != PUBLIC_KEY_LEN {
        return Err(
            ApiError::Length { field: Field::PublicKey, expected: PUBLIC_KEY_LEN, actual: bytes.len() },
        );
    }
    let pk = PublicKey { seed: read_16(bytes, 0), root: read_16(bytes, 16) };
    assert(pk_bytes(pk) =~= bytes@);
    Ok(pk)
}

/// Read a secret key from its 96 bytes.
pub fn read_secret_key(bytes: &[u8]) -> (r: Result<SecretKey, ApiError>)
    ensures
        match r {
            Ok(sk) => bytes@.len() == SECRET_KEY_LEN && sk_bytes(sk) == bytes@,
            Err(e) => bytes@.len() != SECRET_KEY_LEN && e == ApiError::Length {
                field: Field::SecretKey,
                expected: SECRET_KEY_LEN,
                actual: bytes@.len() as usize,
            },
        },
{
    if bytes.len() != SECRET_KEY_LEN {
        return Err(
            ApiError::Length { field: Field::SecretKey, expected: SECRET_KEY_LEN, actual: bytes.len() },
        );
    }
    let pk = PublicKey { seed: read_16(bytes, 64), root: read_16(bytes, 80) };
    let sk = SecretKey {
        seed: read_16(bytes, 0),
        prf: read_16(bytes, 16),
        sf: read_16(bytes, 32),
        sl: read_16(bytes, 48),
        pk,
    };
    assert(sk_bytes(sk) =~= bytes@);
    Ok(sk)
}

/// Read a signing state from its 5 bytes; the validity byte must be 0 or 1.
pub fn read_state(bytes: &[u8]) -> (r: Result<State, ApiError>)
    ensures
        match r {
            Ok(s) => bytes@.len() == STATE_LEN && state_bytes(s) == bytes@,
            Err(e) => if bytes@.len() != STATE_LEN {
                e == ApiError::Length {
                    field: Field::State,
                    expected: STATE_LEN,
                    actual: bytes@.len() as usize,
                }
            } else {
                bytes@[4] > 1 && e == ApiError::InvalidStateFlag(bytes@[4])
            },
        },
{
    if bytes.len() != STATE_LEN {
        return Err(ApiError::Length { field: Field::State, expected: STATE_LEN, actual: bytes.len() });
    }
    let (b0, b1, b2, b3) = (bytes[0], bytes[1], bytes[2], bytes[3]);
    let valid = match bytes[4] {
        0 => false,
        1 => true,
        value => {
            return Err(ApiError::InvalidStateFlag(value));
        },
    };
    let q: u32 = (b0 as u32) | ((b1 as u32) << 8u32) | ((b2 as u32) << 16u32) | ((b3 as u32)
        << 24u32);
    assert(q as u8 == b0 && (q >> 8u32) as u8 == b1 && (q >> 16u32) as u8 == b2 && (q >> 24u32) as u8
        == b3) by (bit_vector)
        requires
            q == (b0 as u32) | ((b1 as u32) << 8u32) | ((b2 as u32) << 16u32) | ((b3 as u32)
                << 24u32),
    ;
    let s = State { q, valid };
    assert(state_bytes(s) =~= bytes@);
    Ok(s)
}

/// Read a 48-byte key-generation seed.
pub fn read_seed(bytes: &[u8]) -> (r: Result<[u8; 48], ApiError>)
    ensures
        match r {
            Ok(seed) => bytes@.len() == SEED_LEN && seed@ == bytes@,
            Err(e) => bytes@.len() != SEED_LEN && e == ApiError::Length {
                field: Field::Seed,
                expected: SEED_LEN,
                actual: bytes@.len() as usize,
            },
        },
{
    if bytes.len() != SEED_LEN {
        return Err(ApiError::Length { field: Field::Seed, expected: SEED_LEN, actual: bytes.len() });
    }
    let mut seed = [0u8; 48];
    let mut i: usize = 0;
    while i < 48
        invariant
            0 <= i <= 48,
            bytes@.len() == 48,
            forall|j: int| 0 <= j < i ==> seed@[j] == bytes@[j],
        decreases 48 - i,
    {
        seed[i] = bytes[i];
        i += 1;
    }
    assert(seed@ =~= bytes@);
    Ok(seed)
}

/// The bytes `from .. to` of `bytes`, copied.
fn copy_range(bytes: &[u8], from: usize, to: usize) -> (v: Vec<u8>)
    requires
        from <= to <= bytes@.len(),
    ensures
        v@ == bytes@.subrange(from as int, to as int),
{
    let mut v: Vec<u8> = Vec::new();
    let mut i: usize = from;
    while i < to
        invariant
            from <= i <= to,
            to <= bytes@.len(),
            v@ == bytes@.subrange(from as int, i as int),
        decreases to - i,
    {
        v.push(bytes[i]);
        i += 1;
        assert(v@ =~= bytes@.subrange(from as int, i as int));
    }
    v
}


/// The public key whose bytes are `b`.
pub open spec fn pk_from_bytes(b: Seq<u8>) -> PublicKey {
    choose|pk: PublicKey| pk_bytes(pk) == b
}

/// The secret key whose bytes are `b`.
pub open spec fn sk_from_bytes(b: Seq<u8>) -> SecretKey {
    choose|sk: SecretKey| sk_bytes(sk) == b
}

/// The state whose bytes are `b`.
pub open spec fn state_from_bytes(b: Seq<u8>) -> State {
    choose|s: State| state_bytes(s) == b
}

/// The key pair restored from `seed`: public key `‖` secret key.
pub open spec fn keypair_from_seed_spec<H: Fn(&[u8]) -> [u8; 32]>(
    h: H,
    p: ParamSet,
    seed: Seq<u8>,
) -> Seq<u8> {
    let sk_seed = seed.subrange(0, 16);
    let sk_prf = seed.subrange(16, 32);
    let pk_seed = seed.subrange(32, 48);
    let sf = crate::shrincs::pk_sf_spec(h, p, sk_seed, pk_seed);
    let sl = crate::shrincs::pk_sl_spec(h, p, sk_seed, pk_seed);
    let pkb = pk_seed + crate::shrincs::root_spec(h, pk_seed, sf, sl);
    pkb + (sk_seed + sk_prf + sf + sl + pkb)
}

/// The key pair bytes restored from a 48-byte seed `sk_seed ‖ sk_prf ‖
/// pk_seed` hold the fields at fixed offsets: the public key is the public
/// seed (seed bytes `32 .. 48`) and its root; the secret key is the secret
/// seed (bytes `0 .. 16`), the PRF key (bytes `16 .. 32`), the two subtree
/// roots, and the public key again.
pub proof fn lemma_keypair_layout<H: Fn(&[u8]) -> [u8; 32]>(h: H, p: ParamSet, seed: Seq<u8>)
    requires
        seed.len() == 48,
    ensures
        ({
            let kp = keypair_from_seed_spec(h, p, seed);
            let sf = crate::shrincs::pk_sf_spec(h, p, seed.subrange(0, 16), seed.subrange(32, 48));
            let sl = crate::shrincs::pk_sl_spec(h, p, seed.subrange(0, 16), seed.subrange(32, 48));
            &&& kp.subrange(0, 16) == seed.subrange(32, 48)
            &&& kp.subrange(16, 32) == crate::shrincs::root_spec(h, seed.subrange(32, 48), sf, sl)
            &&& kp.subrange(32, 48) == seed.subrange(0, 16)
            &&& kp.subrange(48, 64) == seed.subrange(16, 32)
            &&& kp.subrange(64, 80) == sf
            &&& kp.subrange(80, 96) == sl
            &&& kp.subrange(96, 128) == kp.subrange(0, 32)
        }),
{
    let sk_seed = seed.subrange(0, 16);
    let pk_seed = seed.subrange(32, 48);
    let sf = crate::shrincs::pk_sf_spec(h, p, sk_seed, pk_seed);
    let sl = crate::shrincs::pk_sl_spec(h, p, sk_seed, pk_seed);
    let root = crate::shrincs::root_spec(h, pk_seed, sf, sl);
    let ctx = crate::shrincs::base_ctx_spec(pk_seed);
    crate::uxmss::lemma_uxmss_node_len(h, p, ctx, crate::uxmss::sf_prefix(), sk_seed, 0);
    crate::xmss::lemma_xmss_node_len(
        h,
        p,
        ctx,
        crate::shrincs::top_prefix(p),
        sk_seed,
        p.spec_h_prime() as nat,
        0,
    );
    crate::hash::lemma_digest_len(
        h,
        ctx + crate::address::adrs_of(crate::uxmss::sf_prefix(), crate::constants::ROOT, 0, 0, 0) + sf + sl,
    );
    assert(sf.len() == 16 && sl.len() == 16 && root.len() == 16);
    let kp = keypair_from_seed_spec(h, p, seed);
    assert(kp.subrange(0, 16) =~= pk_seed);
    assert(kp.subrange(16, 32) =~= root);
    assert(kp.subrange(32, 48) =~= sk_seed);
    assert(kp.subrange(48, 64) =~= seed.subrange(16, 32));
    assert(kp.subrange(64, 80) =~= sf);
    assert(kp.subrange(80, 96) =~= sl);
    assert(kp.subrange(96, 128) =~= kp.subrange(0, 32));
}

/// What stateful signing gives for the secret key `sk` in state `st`: the
/// new state's bytes followed by the signature.
pub open spec fn sign_stateful_result_spec<H: Fn(&[u8]) -> [u8; 32]>(
    h: H,
    p: ParamSet,
    message: Seq<u8>,
    sk: SecretKey,
    st: State,
) -> Result<Seq<u8>, Error> {
    if !st.valid {
        Err(Error::InvalidState)
    } else if st.q > p.hsf {
        Err(Error::InvalidSignatureNumber)
    } else {
        match sign_stateful_spec(h, p, message, sk, (st.q + 1) as u32) {
            None => Err(Error::WotsGrindFailed),
            Some(sig) => Ok(state_bytes(State { q: (st.q + 1) as u32, valid: true }) + sig),
        }
    }
}

/// The key, secret key or state whose bytes were written is the one a
/// read of those bytes gives back.
pub proof fn lemma_bytes_round_trip(pk: PublicKey, sk: SecretKey, st: State)
    ensures
        pk_from_bytes(pk_bytes(pk)) == pk,
        sk_from_bytes(sk_bytes(sk)) == sk,
        state_from_bytes(state_bytes(st)) == st,
{
    lemma_pk_bytes_injective(pk_from_bytes(pk_bytes(pk)), pk);
    lemma_sk_bytes_injective(sk_from_bytes(sk_bytes(sk)), sk);
    lemma_state_bytes_injective(state_from_bytes(state_bytes(st)), st);
}

/// The bytes of the key pair restored from a seed.
proof fn lemma_keypair_bytes<H: Fn(&[u8]) -> [u8; 32]>(
    h: H,
    p: ParamSet,
    seed: Seq<u8>,
    pk: PublicKey,
    sk: SecretKey,
)
    requires
        keys_from_seed(h, p, seed, pk, sk),
    ensures
        pk_bytes(pk) + sk_bytes(sk) == keypair_from_seed_spec(h, p, seed),
{
    assert(pk_bytes(pk) + sk_bytes(sk) =~= keypair_from_seed_spec(h, p, seed));
}

/// A fresh state, valid for signing, with no signature made yet.
pub fn initial_state() -> (r: Vec<u8>)
    ensures
        r@ == state_bytes(State { q: 0, valid: true }),
{
    let mut state: Vec<u8> = Vec::new();
    write_state(&mut state, &State { q: 0, valid: true });
    assert(state@ =~= state_bytes(State { q: 0, valid: true }));
    state
}

/// The signature counter of a serialized state.
pub fn state_counter(state: &[u8]) -> (r: Result<u32, ApiError>)
    ensures
        match r {
            Ok(q) => state@.len() == STATE_LEN && state@[4] <= 1 && le32(q) == state@.subrange(0, 4),
            Err(e) => if state@.len() != STATE_LEN {
                e == ApiError::Length {
                    field: Field::State,
                    expected: STATE_LEN,
                    actual: state@.len() as usize,
                }
            } else {
                state@[4] > 1 && e == ApiError::InvalidStateFlag(state@[4])
            },
        },
{
    match read_state(state) {
        Ok(s) => {
            assert(le32(s.q) =~= state_bytes(s).subrange(0, 4));
            assert(state@[4] == state_bytes(s)[4]);
            Ok(s.q)
        },
        Err(e) => Err(e),
    }
}

/// The public key of a serialized key pair: its first 32 bytes.
pub fn public_key_from_keypair(keypair: &[u8]) -> (r: Result<Vec<u8>, ApiError>)
    ensures
        match r {
            Ok(v) => keypair@.len() == KEYPAIR_LEN && v@ == keypair@.subrange(0, 32),
            Err(e) => keypair@.len() != KEYPAIR_LEN && e == ApiError::Length {
                field: Field::Keypair,
                expected: KEYPAIR_LEN,
                actual: keypair@.len() as usize,
            },
        },
{
    if keypair.len() != KEYPAIR_LEN {
        return Err(
            ApiError::Length { field: Field::Keypair, expected: KEYPAIR_LEN, actual: keypair.len() },
        );
    }
    Ok(copy_range(keypair, 0, PUBLIC_KEY_LEN))
}

/// The secret key of a serialized key pair: its last 96 bytes.
pub fn secret_key_from_keypair(keypair: &[u8]) -> (r: Result<Vec<u8>, ApiError>)
    ensures
        match r {
            Ok(v) => keypair@.len() == KEYPAIR_LEN && v@ == keypair@.subrange(32, 128),
            Err(e) => keypair@.len() != KEYPAIR_LEN && e == ApiError::Length {
                field: Field::Keypair,
                expected: KEYPAIR_LEN,
                actual: keypair@.len() as usize,
            },
        },
{
    if keypair.len() != KEYPAIR_LEN {
        return Err(
            ApiError::Length { field: Field::Keypair, expected: KEYPAIR_LEN, actual: keypair.len() },
        );
    }
    Ok(copy_range(keypair, PUBLIC_KEY_LEN, KEYPAIR_LEN))
}

/// The new state of a stateful signing result: its first 5 bytes.
pub fn state_from_stateful_sign_result(result: &[u8]) -> (r: Result<Vec<u8>, ApiError>)
    ensures
        match r {
            Ok(v) => result@.len() >= STATE_LEN && v@ == result@.subrange(0, 5),
            Err(e) => result@.len() < STATE_LEN && e == ApiError::LengthAtLeast {
                field: Field::StatefulSignResult,
                expected: STATE_LEN,
                actual: result@.len() as usize,
            },
        },
{
    if result.len() < STATE_LEN {
        return Err(
            ApiError::LengthAtLeast {
                field: Field::StatefulSignResult,
                expected: STATE_LEN,
                actual: result.len(),
            },
        );
    }
    Ok(copy_range(result, 0, STATE_LEN))
}

/// The signature of a stateful signing result: what follows the state.
pub fn signature_from_stateful_sign_result(result: &[u8]) -> (r: Result<Vec<u8>, ApiError>)
    ensures
        match r {
            Ok(v) => result@.len() >= STATE_LEN && v@ == result@.subrange(5, result@.len() as int),
            Err(e) => result@.len() < STATE_LEN && e == ApiError::LengthAtLeast {
                field: Field::StatefulSignResult,
                expected: STATE_LEN,
                actual: result@.len() as usize,
            },
        },
{
    if result.len() < STATE_LEN {
        return Err(
            ApiError::LengthAtLeast {
                field: Field::StatefulSignResult,
                expected: STATE_LEN,
                actual: result.len(),
            },
        );
    }
    Ok(copy_range(result, STATE_LEN, result.len()))
}

/// A stateful signing result splits back into the new state and the
/// signature.
pub proof fn lemma_sign_result_split(st: State, sig: Seq<u8>)
    ensures
        (state_bytes(st) + sig).subrange(0, 5) == state_bytes(st),
        (state_bytes(st) + sig).subrange(5, 5 + sig.len() as int) == sig,
{
    assert((state_bytes(st) + sig).subrange(0, 5) =~= state_bytes(st));
    assert((state_bytes(st) + sig).subrange(5, 5 + sig.len() as int) =~= sig);
}

/// A key pair splits back into its public and its secret key.
pub proof fn lemma_keypair_split(pk: PublicKey, sk: SecretKey)
    ensures
        (pk_bytes(pk) + sk_bytes(sk)).len() == KEYPAIR_LEN,
        (pk_bytes(pk) + sk_bytes(sk)).subrange(0, 32) == pk_bytes(pk),
        (pk_bytes(pk) + sk_bytes(sk)).subrange(32, 128) == sk_bytes(sk),
{
    assert((pk_bytes(pk) + sk_bytes(sk)).subrange(0, 32) =~= pk_bytes(pk));
    assert((pk_bytes(pk) + sk_bytes(sk)).subrange(32, 128) =~= sk_bytes(sk));
}

/// The public and secret key bytes of a key pair restored from a seed read
/// back as the restored keys.
proof fn lemma_keypair_keys<H: Fn(&[u8]) -> [u8; 32]>(
    h: H,
    p: ParamSet,
    seed: Seq<u8>,
    pk: PublicKey,
    sk: SecretKey,
)
    requires
        keys_from_seed(h, p, seed, pk, sk),
    ensures
        pk_from_bytes(keypair_from_seed_spec(h, p, seed).subrange(0, 32)) == pk,
        sk_from_bytes(keypair_from_seed_spec(h, p, seed).subrange(32, 128)) == sk,
{
    lemma_keypair_bytes(h, p, seed, pk, sk);
    lemma_keypair_split(pk, sk);
    lemma_bytes_round_trip(pk, sk, State { q: 0, valid: true });
}

/// Stateless signatures made through the byte-level API with the secret
/// key of a key pair restored from a seed verify through it under the
/// pair's public key.
pub proof fn lemma_api_stateless_sign_verify<H: Fn(&[u8]) -> [u8; 32]>(
    h: H,
    pt: ParamsType,
    seed: Seq<u8>,
    pk: PublicKey,
    sk: SecretKey,
    message: Seq<u8>,
)
    requires
        seed.len() == 48,
        keys_from_seed(h, params_of(pt), seed, pk, sk),
    ensures
        ({
            let p = params_of(pt);
            let kp = keypair_from_seed_spec(h, p, seed);
            sign_stateless_spec(h, p, message, sk_from_bytes(kp.subrange(32, 128))) matches Ok(sig)
                ==> verify_spec(h, p, message, sig, pk_from_bytes(kp.subrange(0, 32)))
        }),
{
    let p = params_of(pt);
    lemma_keypair_keys(h, p, seed, pk, sk);
    crate::shrincs::lemma_sign_verify(h, p, seed, pk, sk, message, 1);
}

/// The stateful signing result made through the byte-level API from the
/// initial state, with the secret key of a key pair restored from a seed,
/// carries the next state (one signature made, still valid) and a signature
/// that verifies under the pair's public key.
pub proof fn lemma_api_stateful_sign_verify<H: Fn(&[u8]) -> [u8; 32]>(
    h: H,
    pt: ParamsType,
    seed: Seq<u8>,
    pk: PublicKey,
    sk: SecretKey,
    message: Seq<u8>,
)
    requires
        seed.len() == 48,
        keys_from_seed(h, params_of(pt), seed, pk, sk),
    ensures
        ({
            let p = params_of(pt);
            let kp = keypair_from_seed_spec(h, p, seed);
            sign_stateful_result_spec(
                h,
                p,
                message,
                sk_from_bytes(kp.subrange(32, 128)),
                state_from_bytes(state_bytes(State { q: 0, valid: true })),
            ) matches Ok(res) ==> res.subrange(0, 5) == state_bytes(State { q: 1, valid: true })
                && verify_stateful_spec(
                h,
                p,
                message,
                res.subrange(5, res.len() as int),
                pk_from_bytes(kp.subrange(0, 32)),
            )
        }),
{
    let p = params_of(pt);
    lemma_keypair_keys(h, p, seed, pk, sk);
    lemma_bytes_round_trip(pk, sk, State { q: 0, valid: true });
    if let Ok(res) = sign_stateful_result_spec(h, p, message, sk, State { q: 0, valid: true }) {
        crate::shrincs::lemma_stateful_sign_verify(h, p, seed, pk, sk, message, 1);
        let sig = sign_stateful_spec(h, p, message, sk, 1)->0;
        lemma_sign_result_split(State { q: 1, valid: true }, sig);
        assert(res.subrange(5, res.len() as int) == sig);
    }
}

fn keygen_for<P: Params, H: Fn(&[u8]) -> [u8; 32]>(h: &H) -> (r: Result<Vec<u8>, ApiError>)
    requires
        is_hash_fn(*h),
    ensures
        match r {
            Ok(kp) => exists|seed: Seq<u8>|
                seed.len() == 48 && kp@ == #[trigger] keypair_from_seed_spec(*h, P::spec_params(), seed),
            Err(e) => e == ApiError::Operation(Error::Random),
        },
{
    let mut public_key = PublicKey::default();
    let mut secret_key = SecretKey::default();
    let mut state = State::default();
    match crate::shrincs::key_gen::<P, H>(h, &mut public_key, &mut secret_key, &mut state) {
        Ok(()) => {},
        Err(e) => {
            return Err(ApiError::Operation(e));
        },
    }
    let mut keypair: Vec<u8> = Vec::new();
    write_public_key(&mut keypair, &public_key);
    write_secret_key(&mut keypair, &secret_key);
    proof {
        let seed = choose|seed: Seq<u8>|
            seed.len() == 48 && #[trigger] keys_from_seed(
                *h,
                P::spec_params(),
                seed,
                public_key,
                secret_key,
            );
        lemma_keypair_bytes(*h, P::spec_params(), seed, public_key, secret_key);
        assert(keypair@ =~= pk_bytes(public_key) + sk_bytes(secret_key));
    }
    Ok(keypair)
}

fn keypair_from_seed_for<P: Params, H: Fn(&[u8]) -> [u8; 32]>(h: &H, seed: &[u8]) -> (r: Result<
    Vec<u8>,
    ApiError,
>)
    requires
        is_hash_fn(*h),
    ensures
        match r {
            Ok(kp) => seed@.len() == SEED_LEN && kp@ == keypair_from_seed_spec(
                *h,
                P::spec_params(),
                seed@,
            ),
            Err(e) => seed@.len() != SEED_LEN && e == ApiError::Length {
                field: Field::Seed,
                expected: SEED_LEN,
                actual: seed@.len() as usize,
            },
        },
{
    let seed = read_seed(seed)?;
    let mut public_key = PublicKey::default();
    let mut secret_key = SecretKey::default();
    let mut state = State::default();
    crate::shrincs::restore::<P, H>(h, &seed, &mut public_key, &mut secret_key, &mut state);
    let mut keypair: Vec<u8> = Vec::new();
    write_public_key(&mut keypair, &public_key);
    write_secret_key(&mut keypair, &secret_key);
    proof {
        lemma_keypair_bytes(*h, P::spec_params(), seed@, public_key, secret_key);
        assert(keypair@ =~= pk_bytes(public_key) + sk_bytes(secret_key));
    }
    Ok(keypair)
}

fn sign_stateless_for<P: Params, H: Fn(&[u8]) -> [u8; 32]>(
    h: &H,
    message: &[u8],
    secret_key: &[u8],
) -> (r: Result<Vec<u8>, ApiError>)
    requires
        is_hash_fn(*h),
    ensures
        secret_key@.len() != SECRET_KEY_LEN ==> r == Err::<Vec<u8>, ApiError>(
            ApiError::Length {
                field: Field::SecretKey,
                expected: SECRET_KEY_LEN,
                actual: secret_key@.len() as usize,
            },
        ),
        secret_key@.len() == SECRET_KEY_LEN ==> match sign_stateless_spec(
            *h,
            P::spec_params(),
            message@,
            sk_from_bytes(secret_key@),
        ) {
            Ok(sig) => r matches Ok(v) && v@ == sig,
            Err(e) => r == Err::<Vec<u8>, ApiError>(ApiError::Operation(e)),
        },
{
    let sk = match read_secret_key(secret_key) {
        Ok(sk) => sk,
        Err(e) => {
            return Err(e);
        },
    };
    proof {
        lemma_bytes_round_trip(PublicKey { seed: sk.pk.seed, root: sk.pk.root }, sk, State { q: 0, valid: false });
    }
    match crate::shrincs::sign_stateless::<P, H>(h, message, &sk) {
        Ok(sig) => Ok(sig),
        Err(e) => Err(ApiError::Operation(e)),
    }
}

fn sign_stateful_for<P: Params, H: Fn(&[u8]) -> [u8; 32]>(
    h: &H,
    message: &[u8],
    secret_key: &[u8],
    state: &[u8],
) -> (r: Result<Vec<u8>, ApiError>)
    requires
        is_hash_fn(*h),
    ensures
        secret_key@.len() != SECRET_KEY_LEN ==> r == Err::<Vec<u8>, ApiError>(
            ApiError::Length {
                field: Field::SecretKey,
                expected: SECRET_KEY_LEN,
                actual: secret_key@.len() as usize,
            },
        ),
        secret_key@.len() == SECRET_KEY_LEN && state@.len() != STATE_LEN ==> r == Err::<
            Vec<u8>,
            ApiError,
        >(ApiError::Length { field: Field::State, expected: STATE_LEN, actual: state@.len() as usize }),
        secret_key@.len() == SECRET_KEY_LEN && state@.len() == STATE_LEN && state@[4] > 1 ==> r
            == Err::<Vec<u8>, ApiError>(ApiError::InvalidStateFlag(state@[4])),
        secret_key@.len() == SECRET_KEY_LEN && state@.len() == STATE_LEN && state@[4] <= 1 ==> match sign_stateful_result_spec(
            *h,
            P::spec_params(),
            message@,
            sk_from_bytes(secret_key@),
            state_from_bytes(state@),
        ) {
            Ok(res) => r matches Ok(v) && v@ == res,
            Err(e) => r == Err::<Vec<u8>, ApiError>(ApiError::Operation(e)),
        },
{
    let mut sk = match read_secret_key(secret_key) {
        Ok(sk) => sk,
        Err(e) => {
            return Err(e);
        },
    };
    let mut st = match read_state(state) {
        Ok(s) => s,
        Err(e) => {
            return Err(e);
        },
    };
    proof {
        lemma_bytes_round_trip(PublicKey { seed: sk.pk.seed, root: sk.pk.root }, sk, st);
        assert(state@[4] == state_bytes(st)[4]);
    }
    let signature = match crate::shrincs::sign_stateful::<P, H>(h, message, &mut sk, &mut st) {
        Ok(sig) => sig,
        Err(e) => {
            return Err(ApiError::Operation(e));
        },
    };
    let mut result: Vec<u8> = Vec::new();
    write_state(&mut result, &st);
    append_bytes(&mut result, signature.as_slice());
    Ok(result)
}

fn verify_for<P: Params, H: Fn(&[u8]) -> [u8; 32]>(
    h: &H,
    message: &[u8],
    signature: &[u8],
    public_key: &[u8],
) -> (r: Result<bool, ApiError>)
    requires
        is_hash_fn(*h),
    ensures
        match r {
            Ok(b) => public_key@.len() == PUBLIC_KEY_LEN && b == verify_spec(
                *h,
                P::spec_params(),
                message@,
                signature@,
                pk_from_bytes(public_key@),
            ),
            Err(e) => public_key@.len() != PUBLIC_KEY_LEN && e == ApiError::Length {
                field: Field::PublicKey,
                expected: PUBLIC_KEY_LEN,
                actual: public_key@.len() as usize,
            },
        },
{
    let pk = read_public_key(public_key)?;
    proof {
        lemma_pk_bytes_injective(pk_from_bytes(public_key@), pk);
    }
    Ok(crate::shrincs::verify::<P, H>(h, message, signature, &pk))
}

fn verify_stateful_for<P: Params, H: Fn(&[u8]) -> [u8; 32]>(
    h: &H,
    message: &[u8],
    signature: &[u8],
    public_key: &[u8],
) -> (r: Result<bool, ApiError>)
    requires
        is_hash_fn(*h),
    ensures
        match r {
            Ok(b) => public_key@.len() == PUBLIC_KEY_LEN && b == verify_stateful_spec(
                *h,
                P::spec_params(),
                message@,
                signature@,
                pk_from_bytes(public_key@),
            ),
            Err(e) => public_key@.len() != PUBLIC_KEY_LEN && e == ApiError::Length {
                field: Field::PublicKey,
                expected: PUBLIC_KEY_LEN,
                actual: public_key@.len() as usize,
            },
        },
{
    let pk = read_public_key(public_key)?;
    proof {
        lemma_pk_bytes_injective(pk_from_bytes(public_key@), pk);
    }
    Ok(crate::shrincs::verify_stateful::<P, H>(h, message, signature, &pk))
}


/// Generate a key pair of the parameter set from fresh OS randomness:
/// public key `‖` secret key.
pub fn keygen<H: Fn(&[u8]) -> [u8; 32]>(h: &H, params: ParamsType) -> (r: Result<Vec<u8>, ApiError>)
    requires
        is_hash_fn(*h),
    ensures
        match r {
            Ok(kp) => exists|seed: Seq<u8>|
                seed.len() == 48 && kp@ == #[trigger] keypair_from_seed_spec(*h, params_of(params), seed),
            Err(e) => e == ApiError::Operation(Error::Random),
        },
{
    let r = match params {
        ParamsType::L => keygen_for::<SHRINCS_L, H>(h),
        ParamsType::B => keygen_for::<SHRINCS_B, H>(h),
        ParamsType::B32 => keygen_for::<SHRINCS_B32, H>(h),
    };
    proof {
        if r is Ok {
            let kp = r->Ok_0;
            let p = params_of(params);
            let seed = choose|seed: Seq<u8>|
                seed.len() == 48 && kp@ == #[trigger] keypair_from_seed_spec(*h, p, seed);
            assert(kp@ == keypair_from_seed_spec(*h, p, seed));
        }
    }
    r
}

/// Restore the key pair of the parameter set from a 48-byte seed: public key
/// `‖` secret key.
pub fn keypair_from_seed<H: Fn(&[u8]) -> [u8; 32]>(h: &H, params: ParamsType, seed: &[u8]) -> (r:
    Result<Vec<u8>, ApiError>)
    requires
        is_hash_fn(*h),
    ensures
        match r {
            Ok(kp) => seed@.len() == SEED_LEN && kp@ == keypair_from_seed_spec(
                *h,
                params_of(params),
                seed@,
            ),
            Err(e) => seed@.len() != SEED_LEN && e == ApiError::Length {
                field: Field::Seed,
                expected: SEED_LEN,
                actual: seed@.len() as usize,
            },
        },
{
    match params {
        ParamsType::L => keypair_from_seed_for::<SHRINCS_L, H>(h, seed),
        ParamsType::B => keypair_from_seed_for::<SHRINCS_B, H>(h, seed),
        ParamsType::B32 => keypair_from_seed_for::<SHRINCS_B32, H>(h, seed),
    }
}

/// Sign `message` statelessly with a serialized secret key.
pub fn sign_stateless<H: Fn(&[u8]) -> [u8; 32]>(
    h: &H,
    params: ParamsType,
    message: &[u8],
    secret_key: &[u8],
) -> (r: Result<Vec<u8>, ApiError>)
    requires
        is_hash_fn(*h),
    ensures
        secret_key@.len() != SECRET_KEY_LEN ==> r == Err::<Vec<u8>, ApiError>(
            ApiError::Length {
                field: Field::SecretKey,
                expected: SECRET_KEY_LEN,
                actual: secret_key@.len() as usize,
            },
        ),
        secret_key@.len() == SECRET_KEY_LEN ==> match sign_stateless_spec(
            *h,
            params_of(params),
            message@,
            sk_from_bytes(secret_key@),
        ) {
            Ok(sig) => r matches Ok(v) && v@ == sig,
            Err(e) => r == Err::<Vec<u8>, ApiError>(ApiError::Operation(e)),
        },
{
    match params {
        ParamsType::L => sign_stateless_for::<SHRINCS_L, H>(h, message, secret_key),
        ParamsType::B => sign_stateless_for::<SHRINCS_B, H>(h, message, secret_key),
        ParamsType::B32 => sign_stateless_for::<SHRINCS_B32, H>(h, message, secret_key),
    }
}

/// Bytes of a serialized prepared stateless key: a 5-byte header and 16
/// for each PORS+FP checkpoint root.
pub fn prepared_stateless_key_len(params: ParamsType) -> (r: usize)
    ensures
        r == 5 + prepared_roots_len(params_of(params)),
{
    match params {
        ParamsType::L => PreparedStatelessKey::<SHRINCS_L>::serialized_len(),
        ParamsType::B => PreparedStatelessKey::<SHRINCS_B>::serialized_len(),
        ParamsType::B32 => PreparedStatelessKey::<SHRINCS_B32>::serialized_len(),
    }
}

fn sign_stateless_prepare_for<P: Params, H: Fn(&[u8]) -> [u8; 32]>(
    h: &H,
    secret_key: &[u8],
) -> (r: Result<Vec<u8>, ApiError>)
    requires
        is_hash_fn(*h),
    ensures
        secret_key@.len() != SECRET_KEY_LEN ==> r == Err::<Vec<u8>, ApiError>(
            ApiError::Length {
                field: Field::SecretKey,
                expected: SECRET_KEY_LEN,
                actual: secret_key@.len() as usize,
            },
        ),
        secret_key@.len() == SECRET_KEY_LEN ==> (r matches Ok(v) && v@ == prepared_header(P::spec_params())
            + prepared_roots(*h, P::spec_params(), sk_from_bytes(secret_key@))),
{
    let sk = match read_secret_key(secret_key) {
        Ok(sk) => sk,
        Err(e) => {
            return Err(e);
        },
    };
    proof {
        lemma_bytes_round_trip(PublicKey { seed: sk.pk.seed, root: sk.pk.root }, sk, State { q: 0, valid: false });
    }
    Ok(crate::shrincs::sign_stateless_prepare::<P, H>(h, &sk).to_bytes())
}

/// Prepare a serialized secret key for stateless signing: the bytes of its
/// PORS+FP checkpoint roots.
pub fn sign_stateless_prepare<H: Fn(&[u8]) -> [u8; 32]>(
    h: &H,
    params: ParamsType,
    secret_key: &[u8],
) -> (r: Result<Vec<u8>, ApiError>)
    requires
        is_hash_fn(*h),
    ensures
        secret_key@.len() != SECRET_KEY_LEN ==> r == Err::<Vec<u8>, ApiError>(
            ApiError::Length {
                field: Field::SecretKey,
                expected: SECRET_KEY_LEN,
                actual: secret_key@.len() as usize,
            },
        ),
        secret_key@.len() == SECRET_KEY_LEN ==> (r matches Ok(v) && v@ == prepared_header(params_of(params))
            + prepared_roots(*h, params_of(params), sk_from_bytes(secret_key@))),
{
    match params {
        ParamsType::L => sign_stateless_prepare_for::<SHRINCS_L, H>(h, secret_key),
        ParamsType::B => sign_stateless_prepare_for::<SHRINCS_B, H>(h, secret_key),
        ParamsType::B32 => sign_stateless_prepare_for::<SHRINCS_B32, H>(h, secret_key),
    }
}

fn sign_stateless_with_prepare_for<P: Params, H: Fn(&[u8]) -> [u8; 32]>(
    h: &H,
    message: &[u8],
    secret_key: &[u8],
    prepared_key: &[u8],
) -> (r: Result<Vec<u8>, ApiError>)
    requires
        is_hash_fn(*h),
    ensures
        secret_key@.len() != SECRET_KEY_LEN ==> r == Err::<Vec<u8>, ApiError>(
            ApiError::Length {
                field: Field::SecretKey,
                expected: SECRET_KEY_LEN,
                actual: secret_key@.len() as usize,
            },
        ),
        secret_key@.len() == SECRET_KEY_LEN && !prepared_bytes_ok(P::spec_params(), prepared_key@) ==> r
            == Err::<Vec<u8>, ApiError>(ApiError::InvalidPreparedKey),
        secret_key@.len() == SECRET_KEY_LEN && prepared_bytes_ok(P::spec_params(), prepared_key@) ==> match sign_stateless_cached_spec(
            *h,
            P::spec_params(),
            message@,
            sk_from_bytes(secret_key@),
            prepared_key@.subrange(5, prepared_key@.len() as int),
        ) {
            Ok(sig) => r matches Ok(v) && v@ == sig,
            Err(e) => r == Err::<Vec<u8>, ApiError>(ApiError::Operation(e)),
        },
{
    let sk = match read_secret_key(secret_key) {
        Ok(sk) => sk,
        Err(e) => {
            return Err(e);
        },
    };
    proof {
        lemma_bytes_round_trip(PublicKey { seed: sk.pk.seed, root: sk.pk.root }, sk, State { q: 0, valid: false });
    }
    let prepared = match PreparedStatelessKey::<P>::from_bytes(prepared_key) {
        Some(k) => k,
        None => {
            return Err(ApiError::InvalidPreparedKey);
        },
    };
    match crate::shrincs::sign_stateless_with_prepare::<P, H>(h, message, &sk, &prepared) {
        Ok(sig) => Ok(sig),
        Err(e) => Err(ApiError::Operation(e)),
    }
}

/// Sign `message` statelessly with a serialized secret key and its prepared
/// key; with the key's own prepared bytes the signature is that of
/// [`sign_stateless`].
pub fn sign_stateless_with_prepare<H: Fn(&[u8]) -> [u8; 32]>(
    h: &H,
    params: ParamsType,
    message: &[u8],
    secret_key: &[u8],
    prepared_key: &[u8],
) -> (r: Result<Vec<u8>, ApiError>)
    requires
        is_hash_fn(*h),
    ensures
        secret_key@.len() != SECRET_KEY_LEN ==> r == Err::<Vec<u8>, ApiError>(
            ApiError::Length {
                field: Field::SecretKey,
                expected: SECRET_KEY_LEN,
                actual: secret_key@.len() as usize,
            },
        ),
        secret_key@.len() == SECRET_KEY_LEN && !prepared_bytes_ok(params_of(params), prepared_key@) ==> r
            == Err::<Vec<u8>, ApiError>(ApiError::InvalidPreparedKey),
        secret_key@.len() == SECRET_KEY_LEN && prepared_bytes_ok(params_of(params), prepared_key@) ==> match sign_stateless_cached_spec(
            *h,
            params_of(params),
            message@,
            sk_from_bytes(secret_key@),
            prepared_key@.subrange(5, prepared_key@.len() as int),
        ) {
            Ok(sig) => r matches Ok(v) && v@ == sig,
            Err(e) => r == Err::<Vec<u8>, ApiError>(ApiError::Operation(e)),
        },
{
    match params {
        ParamsType::L => sign_stateless_with_prepare_for::<SHRINCS_L, H>(h, message, secret_key, prepared_key),
        ParamsType::B => sign_stateless_with_prepare_for::<SHRINCS_B, H>(h, message, secret_key, prepared_key),
        ParamsType::B32 => sign_stateless_with_prepare_for::<SHRINCS_B32, H>(h, message, secret_key, prepared_key),
    }
}

/// Sign `message` statefully with a serialized secret key and state; the
/// result is the new state's bytes followed by the signature.
pub fn sign_stateful<H: Fn(&[u8]) -> [u8; 32]>(
    h: &H,
    params: ParamsType,
    message: &[u8],
    secret_key: &[u8],
    state: &[u8],
) -> (r: Result<Vec<u8>, ApiError>)
    requires
        is_hash_fn(*h),
    ensures
        secret_key@.len() != SECRET_KEY_LEN ==> r == Err::<Vec<u8>, ApiError>(
            ApiError::Length {
                field: Field::SecretKey,
                expected: SECRET_KEY_LEN,
                actual: secret_key@.len() as usize,
            },
        ),
        secret_key@.len() == SECRET_KEY_LEN && state@.len() != STATE_LEN ==> r == Err::<
            Vec<u8>,
            ApiError,
        >(ApiError::Length { field: Field::State, expected: STATE_LEN, actual: state@.len() as usize }),
        secret_key@.len() == SECRET_KEY_LEN && state@.len() == STATE_LEN && state@[4] > 1 ==> r
            == Err::<Vec<u8>, ApiError>(ApiError::InvalidStateFlag(state@[4])),
        secret_key@.len() == SECRET_KEY_LEN && state@.len() == STATE_LEN && state@[4] <= 1 ==> match sign_stateful_result_spec(
            *h,
            params_of(params),
            message@,
            sk_from_bytes(secret_key@),
            state_from_bytes(state@),
        ) {
            Ok(res) => r matches Ok(v) && v@ == res,
            Err(e) => r == Err::<Vec<u8>, ApiError>(ApiError::Operation(e)),
        },
{
    match params {
        ParamsType::L => sign_stateful_for::<SHRINCS_L, H>(h, message, secret_key, state),
        ParamsType::B => sign_stateful_for::<SHRINCS_B, H>(h, message, secret_key, state),
        ParamsType::B32 => sign_stateful_for::<SHRINCS_B32, H>(h, message, secret_key, state),
    }
}

/// Verify a signature of either kind under a serialized public key.
pub fn verify<H: Fn(&[u8]) -> [u8; 32]>(
    h: &H,
    params: ParamsType,
    message: &[u8],
    signature: &[u8],
    public_key: &[u8],
) -> (r: Result<bool, ApiError>)
    requires
        is_hash_fn(*h),
    ensures
        match r {
            Ok(b) => public_key@.len() == PUBLIC_KEY_LEN && b == verify_spec(
                *h,
                params_of(params),
                message@,
                signature@,
                pk_from_bytes(public_key@),
            ),
            Err(e) => public_key@.len() != PUBLIC_KEY_LEN && e == ApiError::Length {
                field: Field::PublicKey,
                expected: PUBLIC_KEY_LEN,
                actual: public_key@.len() as usize,
            },
        },
{
    match params {
        ParamsType::L => verify_for::<SHRINCS_L, H>(h, message, signature, public_key),
        ParamsType::B => verify_for::<SHRINCS_B, H>(h, message, signature, public_key),
        ParamsType::B32 => verify_for::<SHRINCS_B32, H>(h, message, signature, public_key),
    }
}

/// Verify a stateful signature under a serialized public key.
pub fn verify_stateful<H: Fn(&[u8]) -> [u8; 32]>(
    h: &H,
    params: ParamsType,
    message: &[u8],
    signature: &[u8],
    public_key: &[u8],
) -> (r: Result<bool, ApiError>)
    requires
        is_hash_fn(*h),
    ensures
        match r {
            Ok(b) => public_key@.len() == PUBLIC_KEY_LEN && b == verify_stateful_spec(
                *h,
                params_of(params),
                message@,
                signature@,
                pk_from_bytes(public_key@),
            ),
            Err(e) => public_key@.len() != PUBLIC_KEY_LEN && e == ApiError::Length {
                field: Field::PublicKey,
                expected: PUBLIC_KEY_LEN,
                actual: public_key@.len() as usize,
            },
        },
{
    match params {
        ParamsType::L => verify_stateful_for::<SHRINCS_L, H>(h, message, signature, public_key),
        ParamsType::B => verify_stateful_for::<SHRINCS_B, H>(h, message, signature, public_key),
        ParamsType::B32 => verify_stateful_for::<SHRINCS_B32, H>(h, message, signature, public_key),
    }
}

} // verus!
