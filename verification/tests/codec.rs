use shrincs::hexargs::{decode_hex, encode_hex, hex_val, parse_pk, parse_seed};
use shrincs::shrincs::{PublicKey, SecretKey, State};
use shrincs::wasm::{
    initial_state, keypair_len, public_key_from_keypair, public_key_len, read_public_key,
    read_secret_key, read_seed, read_state, secret_key_from_keypair, secret_key_len,
    signature_from_stateful_sign_result, state_counter, state_from_stateful_sign_result, state_len,
    stateful_signature_max_len, stateless_signature_len, write_public_key, write_secret_key,
    write_state, ApiError, Field, ParamsType,
};

#[test]
fn decode_hex_round_trip() {
    assert_eq!(decode_hex(b""), Some(vec![]));
    assert_eq!(decode_hex(b"00ff10"), Some(vec![0x00, 0xff, 0x10]));
    assert_eq!(decode_hex(b"0A"), Some(vec![0x0a]));
}

#[test]
fn decode_hex_rejects_invalid() {
    // Odd length.
    assert_eq!(decode_hex(b"abc"), None);
    // Non-hex characters.
    assert_eq!(decode_hex(b"0g"), None);
    assert_eq!(decode_hex(b"zz"), None);
}

#[test]
fn parse_pk_matches_expected_layout() {
    let bytes: Vec<u8> = (0..32u8).collect();
    let pk = parse_pk(&bytes).unwrap();
    assert_eq!(pk.seed, [0u8, 1, 2, 3, 4, 5, 6, 7, 8, 9, 10, 11, 12, 13, 14, 15]);
    assert_eq!(
        pk.root,
        [16u8, 17, 18, 19, 20, 21, 22, 23, 24, 25, 26, 27, 28, 29, 30, 31]
    );
}

#[test]
fn parse_pk_rejects_bad_lengths() {
    assert!(parse_pk(&[]).is_none());
    assert!(parse_pk(&[0u8; 16]).is_none());
    assert!(parse_pk(&[0u8; 33]).is_none());
}

#[test]
fn hex_val_digits() {
    assert_eq!(hex_val(b'0'), Some(0));
    assert_eq!(hex_val(b'9'), Some(9));
    assert_eq!(hex_val(b'a'), Some(10));
    assert_eq!(hex_val(b'F'), Some(15));
    assert_eq!(hex_val(b'g'), None);
    assert_eq!(hex_val(b' '), None);
}

#[test]
fn encode_hex_lowercase() {
    assert_eq!(encode_hex(&[0x00, 0xff, 0x10]), b"00ff10".to_vec());
    assert_eq!(encode_hex(&[0xAB, 0xcd]), b"abcd".to_vec());
    assert_eq!(encode_hex(&[]), Vec::<u8>::new());
}

#[test]
fn hex_round_trip_all_bytes() {
    let data: Vec<u8> = (0..=255u8).collect();
    let hex = encode_hex(&data);
    assert_eq!(hex.len(), 512);
    assert_eq!(decode_hex(&hex), Some(data));
    // Uppercase digits decode too.
    assert_eq!(decode_hex(b"DEADbeef"), Some(vec![0xde, 0xad, 0xbe, 0xef]));
}

#[test]
fn parse_seed_checks_length_and_digits() {
    let hex = encode_hex(&[0x42u8; 48]);
    assert_eq!(parse_seed(&hex), Some([0x42u8; 48]));
    assert_eq!(parse_seed(&encode_hex(&[0x42u8; 47])), None);
    let mut bad = hex.clone();
    bad[10] = b'x';
    assert_eq!(parse_seed(&bad), None);
}

fn sample_pk() -> PublicKey {
    let mut seed = [0u8; 16];
    let mut root = [0u8; 16];
    for i in 0..16 {
        seed[i] = i as u8;
        root[i] = 0xf0 | i as u8;
    }
    PublicKey { seed, root }
}

fn sample_sk() -> SecretKey {
    SecretKey { seed: [1u8; 16], prf: [2u8; 16], sf: [3u8; 16], sl: [4u8; 16], pk: sample_pk() }
}

#[test]
fn public_key_bytes_round_trip() {
    let pk = sample_pk();
    let mut out = Vec::new();
    write_public_key(&mut out, &pk);
    assert_eq!(out.len(), public_key_len());
    assert_eq!(&out[..16], &pk.seed);
    assert_eq!(&out[16..], &pk.root);
    assert_eq!(read_public_key(&out), Ok(pk));
    assert_eq!(
        read_public_key(&out[..31]),
        Err(ApiError::Length { field: Field::PublicKey, expected: 32, actual: 31 })
    );
}

#[test]
fn secret_key_bytes_round_trip() {
    let sk = sample_sk();
    let mut out = Vec::new();
    write_secret_key(&mut out, &sk);
    assert_eq!(out.len(), secret_key_len());
    assert_eq!(&out[..16], &[1u8; 16]);
    assert_eq!(&out[48..64], &[4u8; 16]);
    assert_eq!(read_secret_key(&out), Ok(sk));
    assert_eq!(
        read_secret_key(&[0u8; 95]),
        Err(ApiError::Length { field: Field::SecretKey, expected: 96, actual: 95 })
    );
}

#[test]
fn state_bytes_round_trip() {
    let st = State { q: 0x0102_0304, valid: true };
    let mut out = Vec::new();
    write_state(&mut out, &st);
    assert_eq!(out, vec![0x04, 0x03, 0x02, 0x01, 1]);
    assert_eq!(out.len(), state_len());
    assert_eq!(read_state(&out), Ok(st));
    assert_eq!(read_state(&[9, 0, 0, 0, 0]), Ok(State { q: 9, valid: false }));
    assert_eq!(read_state(&[0, 0, 0, 0, 2]), Err(ApiError::InvalidStateFlag(2)));
    assert_eq!(
        read_state(&[0, 0, 0, 0]),
        Err(ApiError::Length { field: Field::State, expected: 5, actual: 4 })
    );
}

#[test]
fn initial_state_and_counter() {
    let st = initial_state();
    assert_eq!(st, vec![0, 0, 0, 0, 1]);
    assert_eq!(state_counter(&st), Ok(0));
    assert_eq!(state_counter(&[7, 1, 0, 0, 1]), Ok(263));
    assert_eq!(state_counter(&[7, 1, 0, 0, 5]), Err(ApiError::InvalidStateFlag(5)));
}

#[test]
fn keypair_split() {
    let mut kp = Vec::new();
    write_public_key(&mut kp, &sample_pk());
    write_secret_key(&mut kp, &sample_sk());
    assert_eq!(kp.len(), keypair_len());
    let pkb = public_key_from_keypair(&kp).unwrap();
    let skb = secret_key_from_keypair(&kp).unwrap();
    assert_eq!(read_public_key(&pkb), Ok(sample_pk()));
    assert_eq!(read_secret_key(&skb), Ok(sample_sk()));
    assert_eq!(
        public_key_from_keypair(&kp[1..]),
        Err(ApiError::Length { field: Field::Keypair, expected: 128, actual: 127 })
    );
    assert!(secret_key_from_keypair(&[]).is_err());
}

#[test]
fn stateful_sign_result_split() {
    let result = vec![5u8, 0, 0, 0, 1, 0xaa, 0xbb];
    assert_eq!(state_from_stateful_sign_result(&result), Ok(vec![5, 0, 0, 0, 1]));
    assert_eq!(signature_from_stateful_sign_result(&result), Ok(vec![0xaa, 0xbb]));
    assert_eq!(signature_from_stateful_sign_result(&result[..5]), Ok(vec![]));
    assert_eq!(
        state_from_stateful_sign_result(&[1, 2]),
        Err(ApiError::LengthAtLeast { field: Field::StatefulSignResult, expected: 5, actual: 2 })
    );
}

#[test]
fn api_sizes() {
    assert_eq!(public_key_len(), 32);
    assert_eq!(secret_key_len(), 96);
    assert_eq!(keypair_len(), 128);
    assert_eq!(state_len(), 5);
    assert_eq!(stateless_signature_len(ParamsType::L), 4104);
    assert_eq!(stateless_signature_len(ParamsType::B), 2568);
    assert_eq!(stateless_signature_len(ParamsType::B32), 3680);
    assert_eq!(stateful_signature_max_len(ParamsType::L), 4100);
    assert_eq!(stateful_signature_max_len(ParamsType::B), 2564);
    assert_eq!(stateful_signature_max_len(ParamsType::B32), 3668);
}

#[test]
fn read_seed_length() {
    assert_eq!(read_seed(&[7u8; 48]), Ok([7u8; 48]));
    assert_eq!(
        read_seed(&[7u8; 49]),
        Err(ApiError::Length { field: Field::Seed, expected: 48, actual: 49 })
    );
}

#[test]
fn field_names() {
    assert_eq!(Field::Keypair.name(), "keypair");
    assert_eq!(Field::PublicKey.name(), "public_key");
    assert_eq!(Field::StatefulSignResult.name(), "stateful_sign_result");
}
