//! The hex arguments of the on-chain verification benchmark: the verifier
//! reads `<message> <signature> <pubkey>` as hex strings and answers with an
//! exit code; the generator restores a key pair from a 48-byte seed, signs a
//! message and writes the same three hex strings.
use vstd::prelude::*;

use crate::constants::{Params, SHRINCS_B};
use crate::hash::{append_bytes, is_hash_fn};
use crate::shrincs::{
    keys_from_seed, sign_stateful_spec, sign_stateless_spec, verify_spec, Error, PublicKey,
    SecretKey, State,
};
use crate::wasm::{pk_bytes, write_public_key};

verus! {

/// The value of the hex digit `c` (`0-9`, `a-f`, `A-F`).
pub open spec fn hex_digit(c: u8) -> Option<u8> {
    if 0x30 <= c <= 0x39 {
        Some((c - 0x30) as u8)
    } else if 0x61 <= c <= 0x66 {
        Some((c - 0x61 + 10) as u8)
    } else if 0x41 <= c <= 0x46 {
        Some((c - 0x41 + 10) as u8)
    } else {
        None
    }
}

/// The bytes that the hex string `s` spells, two digits (high, low) per
/// byte; `None` for an odd length or a character that is no hex digit.
pub open spec fn decode_hex_spec(s: Seq<u8>) -> Option<Seq<u8>> {
    if s.len() % 2 != 0 || exists|i: int| 0 <= i < s.len() && #[trigger] hex_digit(s[i]) is None {
        None
    } else {
        Some(
            Seq::new(
                s.len() / 2,
                |i: int| (16 * hex_digit(s[2 * i])->0 + hex_digit(s[2 * i + 1])->0) as u8,
            ),
        )
    }
}

/// The lowercase hex digit of `n < 16`.
pub open spec fn hex_char(n: u8) -> u8 {
    if n < 10 {
        (0x30 + n) as u8
    } else {
        (0x61 + n - 10) as u8
    }
}

/// The lowercase hex string of `d`: two digits, high then low, per byte.
pub open spec fn encode_hex_spec(d: Seq<u8>) -> Seq<u8> {
    Seq::new(
        2 * d.len(),
        |i: int| if i % 2 == 0 { hex_char(d[i / 2] >> 4u8) } else { hex_char(d[i / 2] & 15u8) },
    )
}

/// Decode one hex digit.
pub fn hex_val(c: u8) -> (r: Option<u8>)
    ensures
        r == hex_digit(c),
{
    if c >= 0x30 && c <= 0x39 {
        Some(c - 0x30)
    } else if c >= 0x61 && c <= 0x66 {
        Some(c - 0x61 + 10)
    } else if c >= 0x41 && c <= 0x46 {
        Some(c - 0x41 + 10)
    } else {
        None
    }
}

/// Decode an even-length hex string (without a `0x` prefix) into bytes.
pub fn decode_hex(s: &[u8]) -> (r: Option<Vec<u8>>)
    ensures
        match r {
            Some(v) => decode_hex_spec(s@) == Some(v@),
            None => decode_hex_spec(s@) is None,
        },
{
    let len = s.len();
    if len % 2 != 0 {
        return None;
    }
    let n = len / 2;
    let mut out: Vec<u8> = Vec::new();
    let mut k: usize = 0;
    while k < n
        invariant
            0 <= k <= n,
            len == s@.len(),
            n == len / 2,
            len % 2 == 0,
            out@.len() == k,
            forall|i: int| 0 <= i < 2 * k ==> #[trigger] hex_digit(s@[i]) is Some,
            forall|i: int|
                0 <= i < k ==> out@[i] == (16 * hex_digit(s@[2 * i])->0 + hex_digit(
                    s@[2 * i + 1],
                )->0) as u8,
        decreases n - k,
    {
        let hi = match hex_val(s[2 * k]) {
            Some(x) => x,
            None => {
                assert(hex_digit(s@[2 * k as int]) is None);
                return None;
            },
        };
        let lo = match hex_val(s[2 * k + 1]) {
            Some(x) => x,
            None => {
                assert(hex_digit(s@[2 * k + 1]) is None);
                return None;
            },
        };
        assert(hi < 16 && lo < 16);
        assert((hi << 4u8) | lo == (16 * hi + lo) as u8) by (bit_vector)
            requires
                hi < 16,
                lo < 16,
        ;
        out.push((hi << 4u8) | lo);
        k += 1;
    }
    proof {
        assert(forall|i: int| 0 <= i < s@.len() ==> #[trigger] hex_digit(s@[i]) is Some);
        assert(out@ =~= decode_hex_spec(s@)->0);
    }
    Some(out)
}

/// The lowercase hex digit of `n < 16`.
fn hex_char_of(n: u8) -> (r: u8)
    requires
        n < 16,
    ensures
        r == hex_char(n),
{
    if n < 10 {
        0x30 + n
    } else {
        0x61 + n - 10
    }
}

/// Encode `data` as a lowercase hex string.
pub fn encode_hex(data: &[u8]) -> (r: Vec<u8>)
    ensures
        r@ == encode_hex_spec(data@),
{
    let mut s: Vec<u8> = Vec::new();
    let mut k: usize = 0;
    while k < data.len()
        invariant
            0 <= k <= data@.len(),
            s@ == encode_hex_spec(data@.subrange(0, k as int)),
        decreases data@.len() - k,
    {
        let b = data[k];
        assert(b >> 4u8 < 16 && b & 15u8 < 16) by (bit_vector);
        s.push(hex_char_of(b >> 4u8));
        s.push(hex_char_of(b & 15u8));
        k += 1;
        assert(s@ =~= encode_hex_spec(data@.subrange(0, k as int)));
    }
    assert(data@.subrange(0, k as int) =~= data@);
    s
}

/// Decoding the hex string of any bytes gives the bytes back.
pub proof fn lemma_hex_round_trip(d: Seq<u8>)
    ensures
        decode_hex_spec(encode_hex_spec(d)) == Some(d),
{
    let e = encode_hex_spec(d);
    assert forall|i: int| 0 <= i < e.len() implies #[trigger] hex_digit(e[i]) is Some by {
        let b = d[i / 2];
        assert(b >> 4u8 < 16 && b & 15u8 < 16) by (bit_vector);
    }
    assert(e.len() % 2 == 0);
    assert forall|i: int| 0 <= i < d.len() implies (16 * hex_digit(e[2 * i])->0 + hex_digit(
        e[2 * i + 1],
    )->0) as u8 == d[i] by {
        let b = d[i];
        assert((2 * i) / 2 == i && (2 * i) % 2 == 0);
        assert((2 * i + 1) / 2 == i && (2 * i + 1) % 2 == 1);
        assert(b >> 4u8 < 16 && b & 15u8 < 16 && (16 * (b >> 4u8) + (b & 15u8)) as u8 == b)
            by (bit_vector);
    }
    assert(decode_hex_spec(e)->0 =~= d);
}

/// The public key `seed ‖ root` of exactly 32 bytes.
pub fn parse_pk(bytes: &[u8]) -> (r: Option<PublicKey>)
    ensures
        match r {
            Some(pk) => bytes@.len() == 32 && pk_bytes(pk) == bytes@,
            None => bytes@.len() != 32,
        },
{
    if bytes.len() != 32 {
        return None;
    }
    let pk = PublicKey {
        seed: crate::wots_c::read_node(bytes, 0),
        root: crate::wots_c::read_node(bytes, 16),
    };
    assert(pk_bytes(pk) =~= bytes@);
    Some(pk)
}

/// The 48-byte seed that a hex string spells, if it spells 48 bytes.
pub fn parse_seed(hex: &[u8]) -> (r: Option<[u8; 48]>)
    ensures
        match r {
            Some(seed) => decode_hex_spec(hex@) == Some(seed@),
            None => !(decode_hex_spec(hex@) matches Some(b) && b.len() == 48),
        },
{
    let bytes = match decode_hex(hex) {
        Some(b) => b,
        None => {
            return None;
        },
    };
    if bytes.len() != 48 {
        return None;
    }
    let mut seed = [0u8; 48];
    let mut i: usize = 0;
    while i < 48
        invariant
            0 <= i <= 48,
            bytes@.len() == 48,
            forall|j: int| 0 <= j < i ==> seed@[j] == bytes@[j],
        decreases 48 - i,
    {
        seed[i] = bytes[i];
        i += 1;
    }
    assert(seed@ =~= bytes@);
    Some(seed)
}

/// The exit code of the benchmark verifier for its argument list: the
/// three hex fields `<message> <signature> <pubkey>` are the arguments from
/// the second on when there are at least four (the first names the
/// program), else all three of them; 2 when there are fewer than three, 3,
/// 4 or 5 when the message, signature or public key is no hex, 7 when the
/// public key is not 32 bytes, and otherwise 0 when the signature verifies
/// under SHRINCS-B and 1 when it does not.
pub open spec fn verify_argv_spec<H: Fn(&[u8]) -> [u8; 32]>(h: H, args: Seq<Seq<u8>>) -> i8 {
    if args.len() < 3 {
        2
    } else {
        let first: int = if args.len() >= 4 { 1 } else { 0 };
        match decode_hex_spec(args[first]) {
            None => 3,
            Some(message) => match decode_hex_spec(args[first + 1]) {
                None => 4,
                Some(sig) => match decode_hex_spec(args[first + 2]) {
                    None => 5,
                    Some(pkb) => if pkb.len() != 32 {
                        7
                    } else if verify_spec(
                        h,
                        SHRINCS_B::spec_params(),
                        message,
                        sig,
                        crate::wasm::pk_from_bytes(pkb),
                    ) {
                        0
                    } else {
                        1
                    },
                },
            },
        }
    }
}

/// The views of a list of byte strings.
pub open spec fn views(args: Seq<Vec<u8>>) -> Seq<Seq<u8>> {
    Seq::new(args.len(), |i: int| args[i]@)
}

/// Decide the benchmark verifier's exit code for its arguments.
pub fn verify_argv<H: Fn(&[u8]) -> [u8; 32]>(h: &H, args: &Vec<Vec<u8>>) -> (r: i8)
    requires
        is_hash_fn(*h),
    ensures
        r == verify_argv_spec(*h, views(args@)),
{
    let n = args.len();
    if n < 3 {
        return 2;
    }
    let first: usize = if n >= 4 { 1 } else { 0 };
    let message = match decode_hex(args[first].as_slice()) {
        Some(m) => m,
        None => {
            return 3;
        },
    };
    let sig = match decode_hex(args[first + 1].as_slice()) {
        Some(s) => s,
        None => {
            return 4;
        },
    };
    let pk_bytes_v = match decode_hex(args[first + 2].as_slice()) {
        Some(p) => p,
        None => {
            return 5;
        },
    };
    let pk = match parse_pk(pk_bytes_v.as_slice()) {
        Some(p) => p,
        None => {
            return 7;
        },
    };
    proof {
        crate::wasm::lemma_pk_bytes_injective(crate::wasm::pk_from_bytes(pk_bytes_v@), pk);
    }
    if crate::shrincs::verify::<SHRINCS_B, H>(h, message.as_slice(), sig.as_slice(), &pk) {
        0
    } else {
        1
    }
}

/// The signature the generator makes: stateful with signature number `q`,
/// or stateless.
pub open spec fn emit_sig_spec<H: Fn(&[u8]) -> [u8; 32]>(
    h: H,
    p: crate::constants::ParamSet,
    msg: Seq<u8>,
    sk: SecretKey,
    stateful: bool,
    q: u32,
) -> Result<Seq<u8>, Error> {
    if stateful {
        if (q - 1) as u32 > p.hsf {
            Err(Error::InvalidSignatureNumber)
        } else {
            match sign_stateful_spec(h, p, msg, sk, q) {
                None => Err(Error::WotsGrindFailed),
                Some(sig) => Ok(sig),
            }
        }
    } else {
        sign_stateless_spec(h, p, msg, sk)
    }
}

/// The generator's output line: `<message> <signature> <pubkey>` in hex,
/// separated by single spaces.
pub open spec fn emit_line_spec(msg: Seq<u8>, sig: Seq<u8>, pk: PublicKey) -> Seq<u8> {
    encode_hex_spec(msg) + seq![0x20u8] + encode_hex_spec(sig) + seq![0x20u8] + encode_hex_spec(
        pk_bytes(pk),
    )
}

/// Restore the key pair of `seed`, sign `msg` (statefully as signature
/// number `q`, or statelessly) and give the line of the three hex fields.
pub fn emit<P: Params, H: Fn(&[u8]) -> [u8; 32]>(
    h: &H,
    seed: &[u8; 48],
    msg: &[u8],
    stateful: bool,
    q: u32,
) -> (r: Result<Vec<u8>, Error>)
    requires
        is_hash_fn(*h),
        stateful ==> q >= 1,
    ensures
        exists|pk: PublicKey, sk: SecretKey|
            #[trigger] keys_from_seed(*h, P::spec_params(), seed@, pk, sk) && match emit_sig_spec(
                *h,
                P::spec_params(),
                msg@,
                sk,
                stateful,
                q,
            ) {
                Ok(sig) => r matches Ok(line) && line@ == emit_line_spec(msg@, sig, pk),
                Err(e) => r == Err::<Vec<u8>, Error>(e),
            },
{
    let mut pk = PublicKey::default();
    let mut sk = SecretKey::default();
    let mut state = State::default();
    crate::shrincs::restore::<P, H>(h, seed, &mut pk, &mut sk, &mut state);
    state.valid = true;
    let ghost sk0 = sk;
    let sig = if stateful {
        state.q = q - 1;
        crate::shrincs::sign_stateful::<P, H>(h, msg, &mut sk, &mut state)
    } else {
        crate::shrincs::sign_stateless::<P, H>(h, msg, &sk)
    };
    let sig = match sig {
        Ok(s) => s,
        Err(e) => {
            assert(keys_from_seed(*h, P::spec_params(), seed@, pk, sk0));
            return Err(e);
        },
    };
    let mut line = encode_hex(msg);
    line.push(0x20u8);
    let hs = encode_hex(sig.as_slice());
    append_bytes(&mut line, hs.as_slice());
    line.push(0x20u8);
    let mut pkv: Vec<u8> = Vec::new();
    write_public_key(&mut pkv, &pk);
    let hp = encode_hex(pkv.as_slice());
    append_bytes(&mut line, hp.as_slice());
    assert(keys_from_seed(*h, P::spec_params(), seed@, pk, sk0));
    assert(line@ =~= emit_line_spec(msg@, sig@, pk));
    Ok(line)
}


proof fn lemma_emit_sig_verifies<H: Fn(&[u8]) -> [u8; 32]>(
    h: H,
    seed: Seq<u8>,
    pk: PublicKey,
    sk: SecretKey,
    msg: Seq<u8>,
    stateful: bool,
    q: u32,
)
    requires
        seed.len() == 48,
        keys_from_seed(h, SHRINCS_B::spec_params(), seed, pk, sk),
        stateful ==> q >= 1,
    ensures
        emit_sig_spec(h, SHRINCS_B::spec_params(), msg, sk, stateful, q) matches Ok(sig) ==> verify_spec(
            h,
            SHRINCS_B::spec_params(),
            msg,
            sig,
            pk,
        ),
{
    let p = SHRINCS_B::spec_params();
    if !stateful || (q - 1) as u32 <= p.hsf {
        crate::shrincs::lemma_sign_verify(h, p, seed, pk, sk, msg, if stateful { q } else { 1 });
    }
}

/// The three fields the generator writes for SHRINCS-B, handed to the
/// verifier as its arguments, make it answer 0: the signature verifies.
#[verifier::rlimit(100)]
#[verifier::spinoff_prover]
pub proof fn lemma_emit_verify<H: Fn(&[u8]) -> [u8; 32]>(
    h: H,
    seed: Seq<u8>,
    pk: PublicKey,
    sk: SecretKey,
    msg: Seq<u8>,
    stateful: bool,
    q: u32,
)
    requires
        seed.len() == 48,
        keys_from_seed(h, SHRINCS_B::spec_params(), seed, pk, sk),
        stateful ==> q >= 1,
    ensures
        emit_sig_spec(h, SHRINCS_B::spec_params(), msg, sk, stateful, q) matches Ok(sig)
            ==> verify_argv_spec(
            h,
            seq![encode_hex_spec(msg), encode_hex_spec(sig), encode_hex_spec(pk_bytes(pk))],
        ) == 0,
{
    let p = SHRINCS_B::spec_params();
    if let Ok(sig) = emit_sig_spec(h, p, msg, sk, stateful, q) {
        lemma_hex_round_trip(msg);
        lemma_hex_round_trip(sig);
        lemma_hex_round_trip(pk_bytes(pk));
        crate::wasm::lemma_bytes_round_trip(pk, sk, State { q: 0, valid: false });
        lemma_emit_sig_verifies(h, seed, pk, sk, msg, stateful, q);
        let args = seq![encode_hex_spec(msg), encode_hex_spec(sig), encode_hex_spec(pk_bytes(pk))];
        assert(args[0] == encode_hex_spec(msg));
        assert(args[1] == encode_hex_spec(sig));
        assert(args[2] == encode_hex_spec(pk_bytes(pk)));
    }
}

} // verus!
