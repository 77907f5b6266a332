//! SHRINCS address manipulation.
//!
//! An [`Adrs`] is a fixed 32-byte domain-separation value. Its fields, written
//! big-endian, occupy fixed offsets:
//!
//! | offset | size | field       |
//! |--------|------|-------------|
//! | 0      | 4    | layer       |
//! | 4      | 4    | tree, first |
//! | 8      | 8    | tree, second|
//! | 16     | 4    | type        |
//! | 20     | 4    | key pair    |
//! | 24     | 4    | chain/height|
//! | 28     | 4    | hash/index  |
use vstd::prelude::*;

verus! {

/// A 32-byte SHRINCS address.
pub type Adrs = [u8; 32];

/// The four big-endian bytes of a 32-bit value.
pub open spec fn be32(x: u32) -> Seq<u8> {
    seq![(x >> 24u32) as u8, (x >> 16u32) as u8, (x >> 8u32) as u8, x as u8]
}

/// The eight big-endian bytes of a 64-bit value.
pub open spec fn be64(x: u64) -> Seq<u8> {
    be32((x >> 32u64) as u32) + be32(x as u32)
}

/// `a` with the bytes from `off` on replaced by `b`.
pub open spec fn splice(a: Seq<u8>, off: int, b: Seq<u8>) -> Seq<u8> {
    a.subrange(0, off) + b + a.subrange(off + b.len(), a.len() as int)
}

/// The first 16 bytes of an address: layer and tree.
pub open spec fn adrs_prefix(layer: u32, tree1: u32, tree2: u64) -> Seq<u8> {
    be32(layer) + be32(tree1) + be64(tree2)
}

/// The last 16 bytes of an address: type, key pair, chain (or height) and
/// hash (or index).
pub open spec fn adrs_tail(ty: u32, keypair: u32, chain: u32, hash: u32) -> Seq<u8> {
    be32(ty) + be32(keypair) + be32(chain) + be32(hash)
}

/// The address with the given first 16 bytes and the given tail fields.
pub open spec fn adrs_of(prefix: Seq<u8>, ty: u32, keypair: u32, chain: u32, hash: u32) -> Seq<u8> {
    prefix + adrs_tail(ty, keypair, chain, hash)
}

fn write_be32(adrs: &mut Adrs, off: usize, x: u32)
    requires
        off + 4 <= 32,
    ensures
        final(adrs)@ == splice(old(adrs)@, off as int, be32(x)),
{
    adrs[off] = (x >> 24u32) as u8;
    adrs[off + 1] = (x >> 16u32) as u8;
    adrs[off + 2] = (x >> 8u32) as u8;
    adrs[off + 3] = x as u8;
    assert(adrs@ =~= splice(old(adrs)@, off as int, be32(x)));
}

/// The four big-endian bytes of `x`.
pub fn be32_bytes(x: u32) -> (r: [u8; 4])
    ensures
        r@ == be32(x),
{
    let r: [u8; 4] = [(x >> 24u32) as u8, (x >> 16u32) as u8, (x >> 8u32) as u8, x as u8];
    assert(r@ =~= be32(x));
    r
}

/// Set the layer address (offset 0, big-endian `u32`).
pub fn set_layer_address(adrs: &mut Adrs, layer: u32)
    ensures
        final(adrs)@ == splice(old(adrs)@, 0, be32(layer)),
{
    write_be32(adrs, 0, layer);
}

/// Set the tree address (offset 4 `u32` big-endian, offset 8 `u64` big-endian).
pub fn set_tree_address(adrs: &mut Adrs, tree_addr1: u32, tree_addr2: u64)
    ensures
        final(adrs)@ == splice(old(adrs)@, 4, be32(tree_addr1) + be64(tree_addr2)),
{
    write_be32(adrs, 4, tree_addr1);
    write_be32(adrs, 8, (tree_addr2 >> 32u64) as u32);
    write_be32(adrs, 12, tree_addr2 as u32);
    assert(adrs@ =~= splice(old(adrs)@, 4, be32(tree_addr1) + be64(tree_addr2)));
}

/// Set the type field (offset 16) and zero out offsets 20..32.
pub fn set_type_and_clear(adrs: &mut Adrs, ty: u32)
    ensures
        final(adrs)@ == old(adrs)@.subrange(0, 16) + adrs_tail(ty, 0, 0, 0),
{
    write_be32(adrs, 16, ty);
    let mut i: usize = 20;
    while i < 32
        invariant
            20 <= i <= 32,
            adrs@.len() == 32,
            adrs@.subrange(0, 20) == old(adrs)@.subrange(0, 16) + be32(ty),
            forall|j: int| 20 <= j < i ==> adrs@[j] == 0,
        decreases 32 - i,
    {
        adrs[i] = 0;
        i += 1;
        assert(adrs@.subrange(0, 20) =~= old(adrs)@.subrange(0, 16) + be32(ty));
    }
    assert(be32(0) =~= seq![0u8, 0u8, 0u8, 0u8]) by {
        assert((0u32 >> 24u32) as u8 == 0 && (0u32 >> 16u32) as u8 == 0 && (0u32 >> 8u32) as u8
            == 0) by (bit_vector);
    }
    assert(adrs@ =~= old(adrs)@.subrange(0, 16) + adrs_tail(ty, 0, 0, 0)) by {
        assert forall|j: int| 0 <= j < 32 implies adrs@[j] == (old(adrs)@.subrange(0, 16)
            + adrs_tail(ty, 0, 0, 0))[j] by {
            if j < 20 {
                assert(adrs@[j] == adrs@.subrange(0, 20)[j]);
            }
        }
    }
}

/// Set the key-pair address (offset 20, big-endian `u32`).
pub fn set_key_pair_address(adrs: &mut Adrs, keypair: u32)
    ensures
        final(adrs)@ == splice(old(adrs)@, 20, be32(keypair)),
{
    write_be32(adrs, 20, keypair);
}

/// Set the chain address (offset 24, big-endian `u32`).
pub fn set_chain_address(adrs: &mut Adrs, chain: u32)
    ensures
        final(adrs)@ == splice(old(adrs)@, 24, be32(chain)),
{
    write_be32(adrs, 24, chain);
}

/// Set the hash address (offset 28, big-endian `u32`).
pub fn set_hash_address(adrs: &mut Adrs, hash: u32)
    ensures
        final(adrs)@ == splice(old(adrs)@, 28, be32(hash)),
{
    write_be32(adrs, 28, hash);
}

/// Set the tree height (offset 24, big-endian `u32`).
pub fn set_tree_height(adrs: &mut Adrs, height: u32)
    ensures
        final(adrs)@ == splice(old(adrs)@, 24, be32(height)),
{
    write_be32(adrs, 24, height);
}

/// Set the tree index (offset 28, big-endian `u32`).
pub fn set_tree_index(adrs: &mut Adrs, index: u32)
    ensures
        final(adrs)@ == splice(old(adrs)@, 28, be32(index)),
{
    write_be32(adrs, 28, index);
}

/// Setting type, key pair and chain in turn gives the address with those
/// fields and a zero hash field.
pub proof fn lemma_tail3(a0: Seq<u8>, ty: u32, kp: u32, ch: u32)
    requires
        a0.len() == 32,
    ensures
        splice(splice(a0.subrange(0, 16) + adrs_tail(ty, 0, 0, 0), 20, be32(kp)), 24, be32(ch))
            == adrs_of(a0.subrange(0, 16), ty, kp, ch, 0),
{
    let a1 = a0.subrange(0, 16) + adrs_tail(ty, 0, 0, 0);
    assert(splice(splice(a1, 20, be32(kp)), 24, be32(ch)) =~= adrs_of(
        a0.subrange(0, 16),
        ty,
        kp,
        ch,
        0,
    ));
}

/// Overwriting a field of `adrs_of` changes only that field.
pub proof fn lemma_splice_tail(prefix: Seq<u8>, ty: u32, kp: u32, ch: u32, hi: u32, x: u32)
    requires
        prefix.len() == 16,
    ensures
        splice(adrs_of(prefix, ty, kp, ch, hi), 20, be32(x)) == adrs_of(prefix, ty, x, ch, hi),
        splice(adrs_of(prefix, ty, kp, ch, hi), 24, be32(x)) == adrs_of(prefix, ty, kp, x, hi),
        splice(adrs_of(prefix, ty, kp, ch, hi), 28, be32(x)) == adrs_of(prefix, ty, kp, ch, x),
        adrs_of(prefix, ty, kp, ch, hi).len() == 32,
        adrs_of(prefix, ty, kp, ch, hi).subrange(0, 16) == prefix,
{
    assert(splice(adrs_of(prefix, ty, kp, ch, hi), 20, be32(x)) =~= adrs_of(prefix, ty, x, ch, hi));
    assert(splice(adrs_of(prefix, ty, kp, ch, hi), 24, be32(x)) =~= adrs_of(prefix, ty, kp, x, hi));
    assert(splice(adrs_of(prefix, ty, kp, ch, hi), 28, be32(x)) =~= adrs_of(prefix, ty, kp, ch, x));
    assert(adrs_of(prefix, ty, kp, ch, hi).subrange(0, 16) =~= prefix);
}

/// Setting layer and tree gives the address with that first half and the
/// same second half.
pub proof fn lemma_layer_tree(a: Seq<u8>, layer: u32, t1: u32, t2: u64)
    requires
        a.len() == 32,
    ensures
        ({
            let b = splice(splice(a, 0, be32(layer)), 4, be32(t1) + be64(t2));
            &&& b.len() == 32
            &&& b.subrange(0, 16) == adrs_prefix(layer, t1, t2)
            &&& b.subrange(16, 32) == a.subrange(16, 32)
        }),
{
    let b = splice(splice(a, 0, be32(layer)), 4, be32(t1) + be64(t2));
    assert(b.subrange(0, 16) =~= adrs_prefix(layer, t1, t2));
    assert(b.subrange(16, 32) =~= a.subrange(16, 32));
}

} // verus!
