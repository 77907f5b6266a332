use aes::cipher::{BlockEncrypt, KeyInit};
use aes::Aes256;
use shrincs::address::{self, Adrs};
use shrincs::constants::{Params, SHRINCS_B, SHRINCS_B32, SHRINCS_L};
use shrincs::pors_fp;
use shrincs::rng::{randombytes, randombytes_init, SeedExpander};
use shrincs::shrincs::parse_idx;
use shrincs::wots_c;

#[test]
fn pors_extract_bits() {
    let message = [0xFFu8; 16];

    // 22 ones -> 4194303
    assert_eq!(pors_fp::extract_bits(&message, 34, 22), 4194303);
    assert_eq!(pors_fp::extract_bits(&message, 35, 22), 4194303);
}

/// Sanity: the address setters place fields at the documented offsets.
#[test]
fn address_setters() {
    let mut a: Adrs = [0u8; 32];
    address::set_layer_address(&mut a, 0x0102_0304);
    assert_eq!(&a[0..4], &[0x01, 0x02, 0x03, 0x04]);

    address::set_tree_address(&mut a, 0x0102_0304, 0x0102_0304_0506_0708);
    assert_eq!(&a[4..8], &[0x01, 0x02, 0x03, 0x04]);
    assert_eq!(&a[8..16], &[0x01, 0x02, 0x03, 0x04, 0x05, 0x06, 0x07, 0x08]);

    address::set_type_and_clear(&mut a, 0xAABB_CCDD);
    assert_eq!(&a[16..20], &[0xAA, 0xBB, 0xCC, 0xDD]);
    assert_eq!(&a[20..32], &[0u8; 12]);
}

#[test]
fn address_tail_setters() {
    let mut a: Adrs = [0xEEu8; 32];
    address::set_key_pair_address(&mut a, 0x0A0B_0C0D);
    address::set_chain_address(&mut a, 7);
    address::set_hash_address(&mut a, 0x100);
    assert_eq!(&a[0..20], &[0xEEu8; 20]);
    assert_eq!(&a[20..24], &[0x0A, 0x0B, 0x0C, 0x0D]);
    assert_eq!(&a[24..28], &[0, 0, 0, 7]);
    assert_eq!(&a[28..32], &[0, 0, 1, 0]);
    address::set_tree_height(&mut a, 3);
    address::set_tree_index(&mut a, 9);
    assert_eq!(&a[24..32], &[0, 0, 0, 3, 0, 0, 0, 9]);
}

#[test]
fn extract_bits_msb_first() {
    let m = [0b1010_0000u8, 0xF0];
    assert_eq!(pors_fp::extract_bits(&m, 0, 4), 0b1010);
    assert_eq!(pors_fp::extract_bits(&m, 4, 8), 0b0000_1111);
    assert_eq!(pors_fp::extract_bits(&m, 0, 0), 0);
    assert_eq!(pors_fp::extract_bits(&m, 2, 1), 1);
}

#[test]
fn parameter_sizes() {
    let l = SHRINCS_L::params();
    let b = SHRINCS_B::params();
    let b32 = SHRINCS_B32::params();
    assert_eq!((l.wots_sign_len(), l.xmss_sign_len(), l.pors_sign_len()), (1060, 1252, 1584));
    assert_eq!((b.wots_sign_len(), b.xmss_sign_len(), b.pors_sign_len()), (292, 484, 1584));
    assert_eq!((b32.wots_sign_len(), b32.xmss_sign_len(), b32.pors_sign_len()), (292, 420, 1984));
    assert_eq!((l.max_sf_size(), l.sl_size()), (4100, 4104));
    assert_eq!((b.max_sf_size(), b.sl_size()), (2564, 2568));
    assert_eq!((b32.max_sf_size(), b32.sl_size()), (3668, 3680));
    assert_eq!((b.xof_offset_bits(), b32.xof_offset_bits()), (448, 424));
    assert_eq!((b.xof_block_idx(), b32.xof_block_idx()), (2, 2));
    assert_eq!((b.c(), b32.c()), (10, 15));
    assert_eq!((l.h_prime(), b32.h_prime()), (12, 8));
    assert_eq!((l.w_log(), b.w_log()), (2, 8));
}

#[test]
fn tree_heights() {
    assert_eq!(pors_fp::tree_height::<SHRINCS_B>(), 24);
    assert_eq!(pors_fp::tree_height::<SHRINCS_L>(), 24);
    assert_eq!(pors_fp::tree_height::<SHRINCS_B32>(), 17);
}

#[test]
fn uint32_membership() {
    assert!(pors_fp::uint32_arr_have(&[3, 9, 27], 9));
    assert!(!pors_fp::uint32_arr_have(&[3, 9, 27], 10));
    assert!(!pors_fp::uint32_arr_have(&[], 0));
}

#[test]
fn sort_u32_sorts() {
    let mut v = vec![9u32, 3, 27, 3, 0];
    pors_fp::sort_u32(&mut v);
    assert_eq!(v, vec![0, 3, 3, 9, 27]);
}

#[test]
fn base_w_digits() {
    let mut out = vec![0xFFu8; 6];
    wots_c::base_w::<SHRINCS_L>(&[0b11_10_01_00, 0b00_01_10_11], &mut out);
    assert_eq!(out, vec![3, 2, 1, 0, 0, 1]);
    let mut out = vec![0u8; 3];
    wots_c::base_w::<SHRINCS_B>(&[7, 8, 9, 10], &mut out);
    assert_eq!(out, vec![7, 8, 9]);
    assert_eq!(wots_c::sum_digits(&vec![7, 8, 9]), 24);
}

#[test]
fn octopus_single_index() {
    // Leaf 2 needs its sibling 3 at level 0 and the node 0 at level 1, after
    // which the walk reaches position 0 of level 2 and stops.
    assert_eq!(pors_fp::pors_octopus::<SHRINCS_B32>(&[2]), Some(vec![(0, 3), (1, 0)]));
    // Two siblings need no path node at level 0.
    assert_eq!(pors_fp::pors_octopus::<SHRINCS_B32>(&[4, 5]), Some(vec![(1, 3), (2, 0)]));
}

#[test]
fn octopus_bounded_and_ordered() {
    // Eleven leaves spread over the tree need more than 111 path nodes.
    let spread: Vec<u32> = (0..11u32).map(|i| 3 + i * 9900).collect();
    assert_eq!(pors_fp::pors_octopus::<SHRINCS_B32>(&spread), None);
    // Eleven neighbours need few, level by level from the bottom up.
    let close: Vec<u32> = (0..11u32).map(|i| 2 * i + 1).collect();
    let a = pors_fp::pors_octopus::<SHRINCS_B32>(&close).unwrap();
    assert!(a.len() <= 111);
    for w in a.windows(2) {
        assert!(w[0] < w[1]);
    }
}

#[test]
fn parse_idx_two_layers() {
    let mut xof = vec![0u8; 64];
    xof[56] = 0xAB;
    xof[57] = 0xCD;
    xof[58] = 0xEF;
    let mut tree = vec![0u32; 2];
    let mut leaf = vec![0u32; 2];
    parse_idx::<SHRINCS_B>(&xof, &mut tree, &mut leaf);
    assert_eq!(leaf, vec![0xDEF, 0xABC]);
    assert_eq!(tree, vec![0xABC, 0]);
}

#[test]
fn parse_idx_four_layers() {
    let mut xof = vec![0u8; 64];
    xof[53] = 0x11;
    xof[54] = 0x22;
    xof[55] = 0x33;
    xof[56] = 0x44;
    let mut tree = vec![0u32; 4];
    let mut leaf = vec![0u32; 4];
    parse_idx::<SHRINCS_B32>(&xof, &mut tree, &mut leaf);
    assert_eq!(leaf, vec![0x44, 0x33, 0x22, 0x11]);
    assert_eq!(tree, vec![0x112233, 0x1122, 0x11, 0]);
}

fn aes_block(key: &[u8; 32], block: [u8; 16]) -> [u8; 16] {
    let cipher = Aes256::new(key.into());
    let mut b = block;
    cipher.encrypt_block((&mut b).into());
    b
}

#[test]
fn seed_expander_blocks() {
    let key = [0x5Au8; 32];
    let mut rng = SeedExpander::init(&key, &[1, 2, 3, 4, 5, 6, 7, 8], 0x0102_0304);
    let mut out = [0u8; 20];
    rng.generate(&mut out);
    let c1 = [1, 2, 3, 4, 5, 6, 7, 8, 1, 2, 3, 4, 0, 0, 0, 1];
    let c2 = [1, 2, 3, 4, 5, 6, 7, 8, 1, 2, 3, 4, 0, 0, 0, 2];
    let b1 = aes_block(&key, c1);
    let b2 = aes_block(&key, c2);
    assert_ne!(b1, c1);
    assert_eq!(&out[..16], &b1);
    assert_eq!(&out[16..], &b2[..4]);
    // The next read continues inside the second block.
    let mut more = [0u8; 4];
    rng.generate(&mut more);
    assert_eq!(&more, &b2[4..8]);
}

#[test]
fn seed_expander_high_counter() {
    let key = [0u8; 32];
    let mut rng = SeedExpander::init(&key, &[0xFF; 8], 0xFFFF_FFFF);
    let mut out = [0u8; 16];
    rng.generate(&mut out);
    let c1 = [0xFF, 0xFF, 0xFF, 0xFF, 0xFF, 0xFF, 0xFF, 0xFF, 0xFF, 0xFF, 0xFF, 0xFF, 0, 0, 0, 1];
    assert_eq!(out, aes_block(&key, c1));
}

#[test]
fn randombytes_is_deterministic() {
    let mut entropy = [0u8; 48];
    for i in 0..48 {
        entropy[i] = i as u8;
    }
    let mut a = randombytes_init(&entropy, None);
    let mut b = randombytes_init(&entropy, None);
    let mut x = [0u8; 48];
    let mut y = [0u8; 48];
    randombytes(&mut a, &mut x);
    randombytes(&mut b, &mut y);
    assert_eq!(x, y);

    let mut key = [0u8; 32];
    key.copy_from_slice(&entropy[..32]);
    let mut ctr = [0u8; 16];
    ctr[..8].copy_from_slice(&entropy[32..40]);
    ctr[8..12].copy_from_slice(&[0xFF; 4]);
    ctr[15] = 1;
    assert_eq!(&x[..16], &aes_block(&key, ctr));

    let pers = [0xFFu8; 48];
    let mut c = randombytes_init(&entropy, Some(&pers));
    let mut z = [0u8; 48];
    randombytes(&mut c, &mut z);
    assert_ne!(x, z);
    let mut key2 = [0u8; 32];
    for i in 0..32 {
        key2[i] = entropy[i] ^ 0xFF;
    }
    let mut ctr2 = [0u8; 16];
    for i in 0..8 {
        ctr2[i] = entropy[32 + i] ^ 0xFF;
    }
    ctr2[8..12].copy_from_slice(&[0xFF; 4]);
    ctr2[15] = 1;
    assert_eq!(&z[..16], &aes_block(&key2, ctr2));
}

#[test]
fn seed_expander_is_one_stream() {
    let key = [0x17u8; 32];
    let mut a = SeedExpander::init(&key, &[9; 8], 77);
    let mut b = SeedExpander::init(&key, &[9; 8], 77);
    let mut whole = [0u8; 40];
    a.generate(&mut whole);
    let mut first = [0u8; 13];
    let mut second = [0u8; 27];
    b.generate(&mut first);
    b.generate(&mut second);
    assert_eq!(&whole[..13], &first);
    assert_eq!(&whole[13..], &second);
}
