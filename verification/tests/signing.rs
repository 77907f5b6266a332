use sha2::{Digest, Sha256};
use shrincs::address::Adrs;
use shrincs::constants::{Params, SHRINCS_B, SHRINCS_B32, SHRINCS_L};
use shrincs::address::set_type_and_clear;
use shrincs::constants::PORS_PK;
use shrincs::hash::{
    finalize_full, finalize_node, sha256_finalize, sha256_finalize_32, sha256_of, Sha256Ctx,
};
use shrincs::hexargs::{encode_hex, verify_argv};
use shrincs::shrincs::{
    base_ctx, restore, sign_stateful, verify, verify_stateful, verify_stateless, Error, PublicKey,
    SecretKey, State,
};
use shrincs::shrincs::{sign_stateless_prepare, PreparedStatelessKey};
use shrincs::{pors_fp, uxmss, wasm, wots_c, xmss};

fn sha(data: &[u8]) -> [u8; 32] {
    Sha256::digest(data).into()
}

/// A fast deterministic 32-byte digest. Every sign/verify law of the library
/// holds for any digest function; the round trips over whole key trees use
/// this one, since SHA-256 in an unoptimized test build would take most of
/// the time allowed per test. The SHA-256 tests above and below keep the real
/// digest.
fn mix(data: &[u8]) -> [u8; 32] {
    fn splitmix(x: u64) -> u64 {
        let mut z = x.wrapping_add(0x9e37_79b9_7f4a_7c15);
        z = (z ^ (z >> 30)).wrapping_mul(0xbf58_476d_1ce4_e5b9);
        z = (z ^ (z >> 27)).wrapping_mul(0x94d0_49bb_1331_11eb);
        z ^ (z >> 31)
    }
    let mut s: [u64; 4] = [0x243f_6a88_85a3_08d3, 0x1319_8a2e_0370_7344, 0xa409_3822_299f_31d0, 0x082e_fa98_ec4e_6c89];
    for (i, chunk) in data.chunks(8).enumerate() {
        let mut w = [0u8; 8];
        w[..chunk.len()].copy_from_slice(chunk);
        let lane = i % 4;
        s[lane] = splitmix(s[lane] ^ u64::from_le_bytes(w) ^ (i as u64).wrapping_mul(0x9e37_79b9_7f4a_7c15));
        s[(lane + 1) % 4] ^= s[lane].rotate_left(17);
    }
    for _ in 0..2 {
        for j in 0..4 {
            s[j] = splitmix(s[j] ^ s[(j + 3) % 4] ^ data.len() as u64);
        }
    }
    let mut out = [0u8; 32];
    for j in 0..4 {
        out[8 * j..8 * j + 8].copy_from_slice(&s[j].to_le_bytes());
    }
    out
}

fn zero_ctx() -> Sha256Ctx {
    base_ctx(&[0u8; 16])
}

const ZERO_SEED: [u8; 16] = [0u8; 16];

#[test]
fn sha256_known_answer() {
    let d = sha256_of(&sha, b"abc");
    assert_eq!(
        encode_hex(&d),
        b"ba7816bf8f01cfea414140de5dae2223b00361a396177a9cb410ff61f20015ad".to_vec()
    );
}

#[test]
fn hash_context_finalizes_all_bytes() {
    let ctx = Sha256Ctx::new().add_to_ctx(b"a").add_to_ctx(b"bc");
    assert_eq!(finalize_full(&sha, &ctx), sha(b"abc"));
    let mut out16 = [0u8; 16];
    sha256_finalize(&sha, &ctx, &mut out16);
    assert_eq!(&out16, &sha(b"abc")[..16]);
    let mut out32 = [0u8; 32];
    sha256_finalize_32(&sha, &ctx, &mut out32);
    assert_eq!(out32, sha(b"abc"));
    // Extending a context leaves the one it extends untouched.
    let _longer = ctx.add_to_ctx(b"def");
    assert_eq!(finalize_full(&sha, &ctx), sha(b"abc"));
}

#[test]
fn base_context_layout() {
    let ctx = base_ctx(&[7u8; 16]);
    let mut expect = vec![7u8; 16];
    expect.extend_from_slice(&[0u8; 48]);
    assert_eq!(finalize_full(&sha, &ctx), sha(&expect));
}

#[test]
fn wots_sign_verify_b32() {
    let message = vec![0u8; 32];
    let hash_ctx = zero_ctx();
    let mut adrs: Adrs = [0u8; 32];
    let signature = wots_c::wots_sign::<SHRINCS_B32, _>(
        &sha, &message, &ZERO_SEED, &ZERO_SEED, &ZERO_SEED, &ZERO_SEED, &hash_ctx, &mut adrs, 10,
        true, false,
    )
    .unwrap();
    assert_eq!(signature.len(), SHRINCS_B32::params().wots_sign_len());
    let pkey = wots_c::wots_pk_from_sig::<SHRINCS_B32, _>(
        &sha, &signature, &message, &ZERO_SEED, &hash_ctx, &mut adrs, 10, true, false,
    )
    .unwrap();
    let ex_pkey = wots_c::wots_pk_gen::<SHRINCS_B32, _>(&sha, &ZERO_SEED, &hash_ctx, &mut adrs, 10, true);
    assert_eq!(pkey, ex_pkey);
    // Another message does not give the same key from this signature.
    let other = vec![1u8; 32];
    match wots_c::wots_pk_from_sig::<SHRINCS_B32, _>(
        &sha, &signature, &other, &ZERO_SEED, &hash_ctx, &mut adrs, 10, true, false,
    ) {
        Ok(k) => assert_ne!(k, ex_pkey),
        Err(e) => assert_eq!(e, wots_c::Error::DigestInvalid),
    }
}

#[test]
fn xmss_sign_verify_small_tree() {
    let message = vec![3u8; 16];
    let hash_ctx = zero_ctx();
    let mut adrs: Adrs = [0u8; 32];
    let h_prime = 2u32;
    let signature = xmss::xmss_sign::<SHRINCS_B32, _>(
        &sha, &message, &ZERO_SEED, &ZERO_SEED, &ZERO_SEED, &ZERO_SEED, &hash_ctx, &mut adrs,
        h_prime, 2,
    )
    .unwrap();
    let wl = SHRINCS_B32::params().wots_sign_len();
    assert_eq!(signature.len(), wl + 16 * h_prime as usize);
    let pkey = xmss::xmss_pk_from_sig::<SHRINCS_B32, _>(
        &sha, &signature[..wl], &signature[wl..], &message, &ZERO_SEED, &hash_ctx, &mut adrs,
        h_prime, 2,
    )
    .unwrap();
    let root = xmss::xmss_root::<SHRINCS_B32, _>(&sha, &ZERO_SEED, &hash_ctx, &mut adrs, h_prime);
    assert_eq!(pkey, root);
}

#[test]
fn pors_cached_tree_hash_matches() {
    let hash_ctx = zero_ctx();
    let seed = [9u8; 16];
    let mut adrs: Adrs = [0u8; 32];
    let ck = 8u32;
    // A cache holding the first two checkpoint roots of the SHRINCS-B32 tree.
    let mut cache = Vec::new();
    cache.extend_from_slice(&pors_fp::pors_treehash::<SHRINCS_B32, _>(&sha, &seed, &hash_ctx, &mut adrs, ck, 0));
    cache.extend_from_slice(&pors_fp::pors_treehash::<SHRINCS_B32, _>(&sha, &seed, &hash_ctx, &mut adrs, ck, 1));
    let direct = pors_fp::pors_treehash::<SHRINCS_B32, _>(&sha, &seed, &hash_ctx, &mut adrs, ck + 1, 0);
    let cached =
        pors_fp::pors_treehash_cached::<SHRINCS_B32, _>(&sha, &seed, &hash_ctx, &mut adrs, ck + 1, 0, &cache);
    assert_eq!(direct, cached);
    // Below the checkpoint the cache is not read.
    let low = pors_fp::pors_treehash_cached::<SHRINCS_B32, _>(&sha, &seed, &hash_ctx, &mut adrs, 3, 5, &[]);
    assert_eq!(low, pors_fp::pors_treehash::<SHRINCS_B32, _>(&sha, &seed, &hash_ctx, &mut adrs, 3, 5));
    // At the checkpoint the node is read from the cache.
    let fake = vec![0x33u8; 32];
    let read = pors_fp::pors_treehash_cached::<SHRINCS_B32, _>(&sha, &seed, &hash_ctx, &mut adrs, ck, 1, &fake);
    assert_eq!(read, [0x33u8; 16]);
}

#[test]
fn pors_secret_and_leaf_differ() {
    let hash_ctx = zero_ctx();
    let mut adrs: Adrs = [0u8; 32];
    let sk0 = pors_fp::pors_sk_gen::<SHRINCS_B32, _>(&sha, &[1u8; 16], &hash_ctx, &mut adrs, 0);
    let sk1 = pors_fp::pors_sk_gen::<SHRINCS_B32, _>(&sha, &[1u8; 16], &hash_ctx, &mut adrs, 1);
    assert_ne!(sk0, sk1);
    let leaf0 = pors_fp::pors_treehash::<SHRINCS_B32, _>(&sha, &[1u8; 16], &hash_ctx, &mut adrs, 0, 0);
    assert_ne!(leaf0, sk0);
}

#[test]
fn message_indices_distinct_and_sorted() {
    let hash_ctx = zero_ctx();
    let mut adrs: Adrs = [0u8; 32];
    let mut xof = vec![0u8; 64];
    let idx = pors_fp::pors_msg_to_indices::<SHRINCS_B32, _>(&sha, &[5u8; 32], &mut adrs, &hash_ctx, &mut xof);
    assert_eq!(idx.len(), 11);
    for w in idx.windows(2) {
        assert!(w[0] < w[1]);
    }
    assert!(idx.iter().all(|&i| (i as usize) < 109571));
    assert_ne!(xof, vec![0u8; 64]);
}

#[test]
fn verify_rejects_malformed() {
    let pk = PublicKey { seed: [1u8; 16], root: [2u8; 16] };
    let msg = b"hello";
    assert!(!verify::<SHRINCS_B, _>(&sha, msg, &[], &pk));
    assert!(!verify::<SHRINCS_B, _>(&sha, msg, &[0u8; 300], &pk));
    assert!(!verify_stateless::<SHRINCS_B, _>(&sha, msg, &[0u8; 2567], &pk));
    assert!(!verify_stateless::<SHRINCS_B, _>(&sha, msg, &[0u8; 2568], &pk));
    assert!(!verify_stateful::<SHRINCS_B, _>(&sha, msg, &[0u8; 16 + 292 + 15], &pk));
    assert!(!verify_stateful::<SHRINCS_B, _>(&sha, msg, &[0u8; 16 + 292], &pk));
}

#[test]
fn verify_argv_exit_codes() {
    let to = |v: &[&[u8]]| v.iter().map(|s| s.to_vec()).collect::<Vec<Vec<u8>>>();
    assert_eq!(verify_argv(&sha, &to(&[b"00", b"00"])), 2);
    assert_eq!(verify_argv(&sha, &to(&[b"0g", b"00", b"00"])), 3);
    assert_eq!(verify_argv(&sha, &to(&[b"00", b"0", b"00"])), 4);
    assert_eq!(verify_argv(&sha, &to(&[b"00", b"00", b"zz"])), 5);
    assert_eq!(verify_argv(&sha, &to(&[b"00", b"00", b"0000"])), 7);
    let pk = encode_hex(&[0u8; 32]);
    assert_eq!(verify_argv(&sha, &to(&[b"00", b"00", &pk])), 1);
    // With a leading program name the fields are the next three.
    assert_eq!(verify_argv(&sha, &to(&[b"prog", b"00", b"00", &pk])), 1);
}

#[test]
fn stateful_sign_verify_b32() {
    let seed = [0x42u8; 48];
    let mut pk = PublicKey { seed: [0u8; 16], root: [0u8; 16] };
    let mut sk = SecretKey { seed: [0; 16], prf: [0; 16], sf: [0; 16], sl: [0; 16], pk };
    let mut state = State { q: 0, valid: false };
    restore::<SHRINCS_B32, _>(&mix, &seed, &mut pk, &mut sk, &mut state);
    assert_eq!(state, State { q: 0, valid: false });
    let msg = vec![0u8; 32];
    assert_eq!(sign_stateful::<SHRINCS_B32, _>(&mix, &msg, &mut sk, &mut state), Err(Error::InvalidState));
    state.valid = true;
    let sig = sign_stateful::<SHRINCS_B32, _>(&mix, &msg, &mut sk, &mut state).unwrap();
    assert_eq!(state.q, 1);
    assert_eq!(sig.len(), 16 + 292 + 16);
    assert!(verify::<SHRINCS_B32, _>(&mix, &msg, &sig, &pk));
    assert!(verify_stateful::<SHRINCS_B32, _>(&mix, &msg, &sig, &pk));
    assert!(!verify::<SHRINCS_B32, _>(&mix, b"other", &sig, &pk));
    let mut bad = sig.clone();
    bad[20] ^= 1;
    assert!(!verify::<SHRINCS_B32, _>(&mix, &msg, &bad, &pk));
    // The same signature through the byte-level API.
    let mut pkb = Vec::new();
    wasm::write_public_key(&mut pkb, &pk);
    assert_eq!(wasm::verify(&mix, wasm::ParamsType::B32, &msg, &sig, &pkb), Ok(true));
    // The next call signs with the next number.
    let sig2 = sign_stateful::<SHRINCS_B32, _>(&mix, &msg, &mut sk, &mut state).unwrap();
    assert_eq!(state.q, 2);
    assert_ne!(sig2, sig);
    assert!(verify::<SHRINCS_B32, _>(&mix, &msg, &sig2, &pk));
    // Past the last signature number signing is refused.
    state.q = 211;
    assert_eq!(
        sign_stateful::<SHRINCS_B32, _>(&mix, &msg, &mut sk, &mut state),
        Err(Error::InvalidSignatureNumber)
    );
    assert_eq!(state, State { q: 211, valid: true });
}

/// The hash context agrees with a one-shot SHA-256 on the standard vectors.
#[test]
fn matches_ckb_opt_sha256() {
    let cases: &[&[u8]] = &[
        b"",
        b"hello world",
        b"Hello, World!",
        &[0x01u8; 57],
        &[
            0xde, 0x18, 0x89, 0x41, 0xa3, 0x37, 0x5d, 0x3a, 0x8a, 0x06, 0x1e, 0x67, 0x57, 0x6e,
            0x92, 0x6d,
        ],
        b"aaaaaaaaaaaaaaaaaaaaaaaaaaaaaaaaaaaaaaaa",
    ];
    for msg in cases {
        let mut out = [0u8; 32];
        let ctx = Sha256Ctx::new().add_to_ctx(msg);
        sha256_finalize_32(&sha, &ctx, &mut out);
        assert_eq!(out, sha(msg), "mismatch for {msg:02x?}");
    }
}

/// Copy semantics: extending two independent copies of one base context
/// must not interfere.
#[test]
fn copy_semantics() {
    let base = Sha256Ctx::new().add_to_ctx(&[0x41u8; 64]);
    let mut a = [0u8; 32];
    let mut b = [0u8; 32];
    sha256_finalize_32(&sha, &base.add_to_ctx(b"X"), &mut a);
    sha256_finalize_32(&sha, &base.add_to_ctx(b"Y"), &mut b);
    assert_ne!(a, b);

    // The base context must still be usable after both finalizations.
    let mut c = [0u8; 32];
    sha256_finalize_32(&sha, &base.add_to_ctx(b"X"), &mut c);
    assert_eq!(a, c);
}

#[test]
fn prf_msg_counter_blocks() {
    let mut out = [0xEEu8; 48];
    shrincs::hash::prf_msg(&sha, b"k", b"s", b"o", b"m", true, 0x0102_0304, 40, &mut out);
    let mut input = b"kso".to_vec();
    input.extend_from_slice(&[1, 2, 3, 4]);
    input.push(b'm');
    let mut b0 = input.clone();
    b0.extend_from_slice(&[0, 0, 0, 0]);
    let mut b1 = input.clone();
    b1.extend_from_slice(&[0, 0, 0, 1]);
    assert_eq!(&out[..32], &sha(&b0));
    assert_eq!(&out[32..40], &sha(&b1)[..8]);
    assert_eq!(&out[40..], &[0xEEu8; 8]);
    // Without the counter the four counter bytes are left out.
    let mut out2 = [0u8; 16];
    shrincs::hash::prf_msg(&sha, b"k", b"s", b"o", b"m", false, 7, 16, &mut out2);
    assert_eq!(&out2, &sha(b"ksom\0\0\0\0")[..16]);
}

#[test]
fn pors_public_key_needs_the_whole_path() {
    let hash_ctx = zero_ctx();
    let mut adrs: Adrs = [0u8; 32];
    // Too short for the revealed secrets.
    assert_eq!(
        pors_fp::pors_pk_from_sig::<SHRINCS_B32, _>(&sha, &[0u8; 40], &[1, 2], &hash_ctx, &mut adrs),
        Err(pors_fp::Error::OctopusFailed)
    );
    assert_eq!(adrs, [0u8; 32]);
    // Room for the secrets but not for the authentication path: the address
    // is left at the first parent that needed a path node.
    assert_eq!(
        pors_fp::pors_pk_from_sig::<SHRINCS_B32, _>(&sha, &[0u8; 64], &[1, 2], &hash_ctx, &mut adrs),
        Err(pors_fp::Error::OctopusFailed)
    );
    let mut expect: Adrs = [0u8; 32];
    expect[19] = 7;
    expect[27] = 1;
    assert_eq!(adrs, expect);
}

#[test]
fn wots_rejects_digest_off_target() {
    let hash_ctx = zero_ctx();
    let mut adrs: Adrs = [0u8; 32];
    let sig = vec![0u8; SHRINCS_B32::params().wots_sign_len()];
    assert_eq!(
        wots_c::wots_pk_from_sig::<SHRINCS_B32, _>(&sha, &sig, b"message", &ZERO_SEED, &hash_ctx, &mut adrs, 0, true, false),
        Err(wots_c::Error::DigestInvalid)
    );
}

#[test]
fn pors_path_matches_tree_nodes() {
    let hash_ctx = zero_ctx();
    let seed = [4u8; 16];
    let mut adrs: Adrs = [0u8; 32];
    let (auth, n) = pors_fp::pors_auth_path::<SHRINCS_B32, _>(&sha, &seed, &hash_ctx, &mut adrs, &[2]);
    assert_eq!(n, 2);
    let mut expect = Vec::new();
    expect.extend_from_slice(&pors_fp::pors_treehash::<SHRINCS_B32, _>(&sha, &seed, &hash_ctx, &mut adrs, 0, 3));
    expect.extend_from_slice(&pors_fp::pors_treehash::<SHRINCS_B32, _>(&sha, &seed, &hash_ctx, &mut adrs, 1, 0));
    assert_eq!(auth, expect);
}

#[test]
fn api_keypair_sign_verify_b32() {
    let p = wasm::ParamsType::B32;
    let kp = wasm::keypair_from_seed(&mix, p, &[7u8; 48]).unwrap();
    assert_eq!(kp.len(), 128);
    let pkb = wasm::public_key_from_keypair(&kp).unwrap();
    let skb = wasm::secret_key_from_keypair(&kp).unwrap();
    assert_eq!(&pkb[..16], &[7u8; 16]);
    assert_eq!(&skb[..32], &[7u8; 32]);
    let msg = b"hello world";
    let result = wasm::sign_stateful(&mix, p, msg, &skb, &wasm::initial_state()).unwrap();
    let state = wasm::state_from_stateful_sign_result(&result).unwrap();
    assert_eq!(state, vec![1, 0, 0, 0, 1]);
    assert_eq!(wasm::state_counter(&state), Ok(1));
    let sig = wasm::signature_from_stateful_sign_result(&result).unwrap();
    assert_eq!(wasm::verify_stateful(&mix, p, msg, &sig, &pkb), Ok(true));
    assert_eq!(wasm::verify(&mix, p, msg, &sig, &pkb), Ok(true));
    assert_eq!(wasm::verify(&mix, p, b"hello worle", &sig, &pkb), Ok(false));
    assert_eq!(
        wasm::sign_stateful(&mix, p, msg, &skb, &[0, 0, 0, 0, 0]),
        Err(wasm::ApiError::Operation(Error::InvalidState))
    );
    assert!(wasm::keypair_from_seed(&mix, p, &[7u8; 47]).is_err());
}

#[test]
fn emit_line_verifies_b32() {
    let seed = [0x42u8; 48];
    let msg = b"hello shrincs benchmark";
    let line = shrincs::hexargs::emit::<SHRINCS_B32, _>(&mix, &seed, msg, true, 1).unwrap();
    let fields: Vec<&[u8]> = line.split(|&b| b == b' ').collect();
    assert_eq!(fields.len(), 3);
    assert_eq!(fields[0], encode_hex(msg).as_slice());
    let sig = shrincs::hexargs::decode_hex(fields[1]).unwrap();
    let pkb = shrincs::hexargs::decode_hex(fields[2]).unwrap();
    let pk = shrincs::hexargs::parse_pk(&pkb).unwrap();
    assert_eq!(sig.len(), 16 + 292 + 16);
    assert!(verify::<SHRINCS_B32, _>(&mix, msg, &sig, &pk));
}

#[test]
fn random_bytes_fill() {
    let mut empty: [u8; 0] = [];
    assert_eq!(shrincs::shrincs::generate_random_bytes(&mut empty), Ok(()));
    let mut buf = [0u8; 64];
    assert_eq!(shrincs::shrincs::generate_random_bytes(&mut buf), Ok(()));
    assert_ne!(buf, [0u8; 64]);
}

#[test]
fn key_gen_sign_verify_b32() {
    let mut pk = PublicKey { seed: [0u8; 16], root: [0u8; 16] };
    let mut sk = SecretKey { seed: [0; 16], prf: [0; 16], sf: [0; 16], sl: [0; 16], pk };
    let mut state = State { q: 5, valid: false };
    shrincs::shrincs::key_gen::<SHRINCS_B32, _>(&mix, &mut pk, &mut sk, &mut state).unwrap();
    assert_eq!(state, State { q: 0, valid: true });
    assert_eq!(sk.pk, pk);
    let msg = b"fresh key";
    let sig = sign_stateful::<SHRINCS_B32, _>(&mix, msg, &mut sk, &mut state).unwrap();
    assert!(verify::<SHRINCS_B32, _>(&mix, msg, &sig, &pk));
}

#[test]
fn pors_signature_gives_back_tree_key() {
    // A PORS+FP signature for chosen indices, lower and upper leaves alike,
    // rebuilds the compressed root of the signing tree.
    let hash_ctx = zero_ctx();
    let seed = [7u8; 16];
    let cache = pors_fp::pors_checkpoint_roots::<SHRINCS_B32, _>(&sha, &seed, &hash_ctx);
    let indices: Vec<u32> = vec![3, 4, 5, 1000, 50000, 88069, 88070, 100000, 109570];
    let mut adrs: Adrs = [0u8; 32];
    let mut sig = vec![0xabu8; 32];
    for &i in &indices {
        sig.extend_from_slice(&pors_fp::pors_sk_gen::<SHRINCS_B32, _>(&sha, &seed, &hash_ctx, &mut adrs, i));
    }
    let (auth, n) =
        pors_fp::pors_auth_path_cached::<SHRINCS_B32, _>(&sha, &seed, &hash_ctx, &mut adrs, &indices, &cache);
    assert_eq!(auth.len(), 16 * n);
    sig.extend_from_slice(&auth);
    sig.resize(SHRINCS_B32::params().pors_sign_len(), 0);
    let mut read_adrs: Adrs = [0u8; 32];
    let pk = pors_fp::pors_pk_from_sig::<SHRINCS_B32, _>(&sha, &sig, &indices, &hash_ctx, &mut read_adrs).unwrap();
    let root = pors_fp::pors_treehash_cached::<SHRINCS_B32, _>(&sha, &seed, &hash_ctx, &mut adrs, 17, 0, &cache);
    let mut pk_adrs: Adrs = [0u8; 32];
    set_type_and_clear(&mut pk_adrs, PORS_PK);
    let expect = finalize_node(&sha, &hash_ctx.add_to_ctx(&pk_adrs).add_to_ctx(&root));
    assert_eq!(pk, expect);
    // The randomizer and the padding after the path are not read.
    let mut loose = sig.clone();
    loose[0] ^= 1;
    let end = loose.len() - 1;
    loose[end] ^= 1;
    assert_eq!(
        pors_fp::pors_pk_from_sig::<SHRINCS_B32, _>(&sha, &loose, &indices, &hash_ctx, &mut read_adrs),
        Ok(expect)
    );
    // A changed path node gives another key.
    let last = 32 + 16 * indices.len() + 16 * n - 1;
    sig[last] ^= 1;
    let other = pors_fp::pors_pk_from_sig::<SHRINCS_B32, _>(&sha, &sig, &indices, &hash_ctx, &mut read_adrs).unwrap();
    assert_ne!(other, expect);
}

#[test]
fn xmss_sign_verify_b32() {
    let message = vec![0u8; 32];
    let hash_ctx = zero_ctx();
    let mut adrs: Adrs = [0u8; 32];
    let p = SHRINCS_B32::params();
    let h_prime = p.h_prime() as u32;
    let signature = xmss::xmss_sign::<SHRINCS_B32, _>(
        &mix, &message, &ZERO_SEED, &ZERO_SEED, &ZERO_SEED, &ZERO_SEED, &hash_ctx, &mut adrs,
        h_prime, 2,
    )
    .unwrap();
    let wl = p.wots_sign_len();
    let pkey = xmss::xmss_pk_from_sig::<SHRINCS_B32, _>(
        &mix, &signature[..wl], &signature[wl..], &message, &ZERO_SEED, &hash_ctx, &mut adrs,
        h_prime, 2,
    )
    .unwrap();
    let root = xmss::xmss_root::<SHRINCS_B32, _>(&mix, &ZERO_SEED, &hash_ctx, &mut adrs, h_prime);
    assert_eq!(pkey, root);
    // The randomizer of an internal WOTS+C signature is not read.
    let mut other = signature.clone();
    other[0] ^= 0xff;
    other[31] ^= 1;
    let again = xmss::xmss_pk_from_sig::<SHRINCS_B32, _>(
        &mix, &other[..wl], &other[wl..], &message, &ZERO_SEED, &hash_ctx, &mut adrs, h_prime, 2,
    )
    .unwrap();
    assert_eq!(again, root);
}

#[test]
fn uxmss_sign_verify_b32() {
    let message = vec![0u8; 32];
    let hash_ctx = zero_ctx();
    let mut adrs: Adrs = [0u8; 32];
    let wl = SHRINCS_B32::params().wots_sign_len();
    let signature = uxmss::uxmss_sign::<SHRINCS_B32, _>(
        &mix, &message, &ZERO_SEED, &ZERO_SEED, &ZERO_SEED, &ZERO_SEED, &hash_ctx, &mut adrs, 2,
    )
    .unwrap();
    let pkey = uxmss::uxmss_pk_from_sig::<SHRINCS_B32, _>(
        &mix, &signature[..wl], &signature[wl..], &message, &ZERO_SEED, &hash_ctx, &mut adrs, 2,
    )
    .unwrap();
    let root = uxmss::uxmss_root::<SHRINCS_B32, _>(&mix, &ZERO_SEED, &hash_ctx, &mut adrs);
    assert_eq!(pkey, root);
}

#[test]
fn pors_walk_without_single_root_fails() {
    // Two revealed leaves at index 0 never pair: two nodes reach the top.
    let hash_ctx = zero_ctx();
    let mut adrs: Adrs = [0u8; 32];
    let sig = vec![0u8; SHRINCS_B::params().pors_sign_len()];
    assert_eq!(sig.len(), 1584);
    assert_eq!(
        pors_fp::pors_pk_from_sig::<SHRINCS_B, _>(&sha, &sig, &[0, 0], &hash_ctx, &mut adrs),
        Err(pors_fp::Error::OctopusFailed)
    );
}

#[test]
fn prepared_key_round_trip() {
    let pk = PublicKey { seed: [3u8; 16], root: [6u8; 16] };
    let sk = SecretKey { seed: [1; 16], prf: [2; 16], sf: [4; 16], sl: [5; 16], pk };
    let prepared = sign_stateless_prepare::<SHRINCS_B32, _>(&mix, &sk);
    let bytes = prepared.to_bytes();
    assert_eq!(bytes.len(), PreparedStatelessKey::<SHRINCS_B32>::serialized_len());
    assert_eq!(bytes.len(), 5 + 8192);
    assert_eq!(&bytes[..5], b"SHPK\x02");
    assert_eq!(wasm::prepared_stateless_key_len(wasm::ParamsType::B32), 5 + 8192);
    let loaded = PreparedStatelessKey::<SHRINCS_B32>::from_bytes(&bytes).unwrap();
    assert_eq!(loaded.to_bytes(), bytes);
    assert!(PreparedStatelessKey::<SHRINCS_B32>::from_bytes(&bytes[..bytes.len() - 1]).is_none());
    // The first root is the tree node at the checkpoint height over leaf 0.
    let hash_ctx = base_ctx(&sk.pk.seed);
    let mut adrs: Adrs = [0u8; 32];
    let first = pors_fp::pors_treehash::<SHRINCS_B32, _>(&mix, &sk.seed, &hash_ctx, &mut adrs, 8, 0);
    assert_eq!(&bytes[5..21], &first);
    // A key of another parameter set is refused.
    let mut other_set = bytes.clone();
    other_set[4] = 1;
    assert!(PreparedStatelessKey::<SHRINCS_B32>::from_bytes(&other_set).is_none());
    assert!(PreparedStatelessKey::<SHRINCS_B>::from_bytes(&other_set).is_some());
    // Through the byte-level API.
    let mut skb = Vec::new();
    wasm::write_secret_key(&mut skb, &sk);
    assert_eq!(wasm::sign_stateless_prepare(&mix, wasm::ParamsType::B32, &skb), Ok(bytes.clone()));
    assert_eq!(
        wasm::sign_stateless_with_prepare(&mix, wasm::ParamsType::B32, b"m", &skb, &bytes[1..]),
        Err(wasm::ApiError::InvalidPreparedKey)
    );
    assert!(matches!(
        wasm::sign_stateless_with_prepare(&mix, wasm::ParamsType::B32, b"m", &skb[1..], &bytes),
        Err(wasm::ApiError::Length { .. })
    ));
}

// ----------------------------------------------------------------------------
// The round trips of every parameter set, with the fast digest `mix`. Where a
// parameter set's trees or grinds take longer than the time allowed per test
// here, the comment says which set is left out.
// ----------------------------------------------------------------------------

fn test_hash_ctx() -> Sha256Ctx {
    let adrs = [0u8; 32];
    Sha256Ctx::new().add_to_ctx(&[0u8; 16]).add_to_ctx(&adrs).add_to_ctx(&adrs[..16])
}

fn wots_sign_verify<P: Params>() {
    let message = vec![0u8; 32];
    let hash_ctx = test_hash_ctx();
    let mut adrs: Adrs = [0u8; 32];
    let signature = wots_c::wots_sign::<P, _>(
        &mix, &message, &ZERO_SEED, &ZERO_SEED, &ZERO_SEED, &ZERO_SEED, &hash_ctx, &mut adrs, 10,
        true, false,
    )
    .unwrap();
    let pkey = wots_c::wots_pk_from_sig::<P, _>(
        &mix, &signature, &message, &ZERO_SEED, &hash_ctx, &mut adrs, 10, true, false,
    )
    .unwrap();
    let ex_pkey = wots_c::wots_pk_gen::<P, _>(&mix, &ZERO_SEED, &hash_ctx, &mut adrs, 10, true);
    assert_eq!(pkey, ex_pkey);
}

#[test]
fn wots_sign_verify_all_variants() {
    wots_sign_verify::<SHRINCS_L>();
    wots_sign_verify::<SHRINCS_B>();
    wots_sign_verify::<SHRINCS_B32>();
}

fn xmss_sign_verify<P: Params>() {
    let message = vec![0u8; 32];
    let hash_ctx = test_hash_ctx();
    let mut adrs: Adrs = [0u8; 32];
    let p = P::params();
    let h_prime = p.h_prime() as u32;
    let wl = p.wots_sign_len();
    let signature = xmss::xmss_sign::<P, _>(
        &mix, &message, &ZERO_SEED, &ZERO_SEED, &ZERO_SEED, &ZERO_SEED, &hash_ctx, &mut adrs,
        h_prime, 2,
    )
    .unwrap();
    let pkey = xmss::xmss_pk_from_sig::<P, _>(
        &mix, &signature[..wl], &signature[wl..], &message, &ZERO_SEED, &hash_ctx, &mut adrs,
        h_prime, 2,
    )
    .unwrap();
    let root = xmss::xmss_root::<P, _>(&mix, &ZERO_SEED, &hash_ctx, &mut adrs, h_prime);
    assert_eq!(pkey, root);
}

/// SHRINCS-B is left out: its 4096-leaf tree of 256-step chains is built
/// twice, about 33 million hashes.
#[test]
fn xmss_sign_verify_all_variants() {
    xmss_sign_verify::<SHRINCS_L>();
    xmss_sign_verify::<SHRINCS_B32>();
}

fn uxmss_sign_verify<P: Params>() {
    let message = vec![0u8; 32];
    let hash_ctx = test_hash_ctx();
    let mut adrs: Adrs = [0u8; 32];
    let wl = P::params().wots_sign_len();
    let signature = uxmss::uxmss_sign::<P, _>(
        &mix, &message, &ZERO_SEED, &ZERO_SEED, &ZERO_SEED, &ZERO_SEED, &hash_ctx, &mut adrs, 2,
    )
    .unwrap();
    let pkey = uxmss::uxmss_pk_from_sig::<P, _>(
        &mix, &signature[..wl], &signature[wl..], &message, &ZERO_SEED, &hash_ctx, &mut adrs, 2,
    )
    .unwrap();
    let root = uxmss::uxmss_root::<P, _>(&mix, &ZERO_SEED, &hash_ctx, &mut adrs);
    assert_eq!(pkey, root);
}

/// SHRINCS-L runs in a test of its own: its grind alone takes most of the
/// time allowed per test.
#[test]
fn uxmss_sign_verify_all_variants() {
    uxmss_sign_verify::<SHRINCS_B>();
    uxmss_sign_verify::<SHRINCS_B32>();
}

#[test]
fn uxmss_sign_verify_l() {
    uxmss_sign_verify::<SHRINCS_L>();
}

fn stateful_sign_verify<P: Params>() {
    let mut pk = PublicKey::default();
    let mut sk = SecretKey::default();
    let mut state = State::default();
    shrincs::shrincs::key_gen::<P, _>(&mix, &mut pk, &mut sk, &mut state).unwrap();
    let message = vec![0u8; 32];
    let hsf = P::params().hsf as u32;
    for q in [0u32, 9, 99, hsf - 2, hsf - 1, hsf] {
        state.q = q;
        let sig = sign_stateful::<P, _>(&mix, &message, &mut sk, &mut state).unwrap();
        assert!(verify::<P, _>(&mix, &message, &sig, &pk));
    }
    state.q = hsf + 1;
    assert!(sign_stateful::<P, _>(&mix, &message, &mut sk, &mut state).is_err());
}

/// SHRINCS-L (a grind of millions of tries per signature) and SHRINCS-B
/// (about 17 million hashes to generate the key) are left out.
#[test]
fn stateful_sign_verify_all_variants() {
    stateful_sign_verify::<SHRINCS_B32>();
}

/// SHRINCS-L and SHRINCS-B are left out: signing builds parts of a PORS+FP
/// tree of 9 million leaves. The key is restored from a fixed seed, so that
/// the grinds take the same time on every run.
#[test]
fn stateless_sign_verify_all_variants() {
    let mut pk = PublicKey::default();
    let mut sk = SecretKey::default();
    let mut state = State::default();
    restore::<SHRINCS_B32, _>(&mix, &[1u8; 48], &mut pk, &mut sk, &mut state);
    let message = vec![0u8; 32];
    let sig = shrincs::shrincs::sign_stateless::<SHRINCS_B32, _>(&mix, &message, &sk).unwrap();
    assert_eq!(sig.len(), SHRINCS_B32::params().sl_size());
    assert!(verify::<SHRINCS_B32, _>(&mix, &message, &sig, &pk));
}

fn prepared_format<P: Params>(tag: u8) {
    // A serialized key of this parameter set, built by hand.
    let mut bytes = b"SHPK".to_vec();
    bytes.push(tag);
    bytes.extend((0..8192u32).map(|i| i as u8));
    assert_eq!(bytes.len(), PreparedStatelessKey::<P>::serialized_len());
    assert!(bytes.len() < 10_000);
    let loaded = PreparedStatelessKey::<P>::from_bytes(&bytes).expect("a well-formed key is read");
    assert_eq!(loaded.to_bytes(), bytes);
    let mut bad = bytes.clone();
    bad[0] ^= 0xFF;
    assert!(PreparedStatelessKey::<P>::from_bytes(&bad).is_none());
    assert!(PreparedStatelessKey::<P>::from_bytes(&bytes[..bytes.len() - 1]).is_none());
}

/// For SHRINCS-L and SHRINCS-B the serialized form is checked on a key
/// built by hand: preparing one builds their whole PORS+FP tree of 9
/// million leaves. SHRINCS-B32 goes the whole way, with a key restored from
/// a fixed seed.
#[test]
fn stateless_prepare_sign_verify_all_variants() {
    prepared_format::<SHRINCS_L>(0);
    prepared_format::<SHRINCS_B>(1);
    prepared_format::<SHRINCS_B32>(2);
    let mut pk = PublicKey::default();
    let mut sk = SecretKey::default();
    let mut state = State::default();
    restore::<SHRINCS_B32, _>(&mix, &[1u8; 48], &mut pk, &mut sk, &mut state);
    let message = vec![0u8; 32];
    let prepared = sign_stateless_prepare::<SHRINCS_B32, _>(&mix, &sk);
    let bytes = prepared.to_bytes();
    assert!(bytes.len() < 10_000, "cache too large: {} bytes", bytes.len());
    let loaded = PreparedStatelessKey::<SHRINCS_B32>::from_bytes(&bytes)
        .expect("serialized prepared key must round-trip");
    let mut bad = bytes.clone();
    bad[0] ^= 0xFF;
    assert!(PreparedStatelessKey::<SHRINCS_B32>::from_bytes(&bad).is_none());
    assert!(PreparedStatelessKey::<SHRINCS_B32>::from_bytes(&bytes[..bytes.len() - 1]).is_none());
    let sig = shrincs::shrincs::sign_stateless::<SHRINCS_B32, _>(&mix, &message, &sk).unwrap();
    let sig_prepared =
        shrincs::shrincs::sign_stateless_with_prepare::<SHRINCS_B32, _>(&mix, &message, &sk, &loaded)
            .unwrap();
    assert_eq!(sig, sig_prepared, "prepared and unprepared signatures must match");
    assert!(verify::<SHRINCS_B32, _>(&mix, &message, &sig_prepared, &pk));
}
