//! PORS+FP: Pseudorandom Obtainable Random Subset with Fallback Path.
//!
//! The few-time layer of stateless signatures: `k` secret values are selected
//! from an XOF output, revealed, and authenticated with a compressed
//! "octopus" Merkle authentication path. The PORS+FP tree has `t` leaves in
//! an almost-full tree of height `b`: leaves `0 .. 2s` sit at the bottom
//! level and leaves `2s .. t` one level up, where `s = t - 2^(b-1)`.
use vstd::prelude::*;
use vstd::relations::{sorted_by, total_ordering};

use crate::address::{
    adrs_of, lemma_splice_tail, set_key_pair_address, set_tree_height, set_tree_index,
    set_type_and_clear, Adrs,
};
use crate::constants::{
    ParamSet, Params, PORS_HASH, PORS_PK, PORS_PRF, PORS_TREE, PORS_XOF, R_LEN, SL_H_MSG,
};
use crate::address::{be32, be32_bytes};
use crate::hash::{
    append_bytes, digest, finalize_full, finalize_node, hash_n, is_hash_fn, prf_input, prf_msg,
    prf_stream, Sha256Ctx,
};
use crate::wots_c::{concat_nodes, lemma_concat_nodes_push};
use crate::wots_c::Node;
use crate::xmss::p2;

verus! {

/// Error raised by PORS+FP operations.
#[derive(Debug, Clone, Copy, PartialEq, Eq, Structural)]
pub enum Error {
    /// No valid index set (or too-long octopus path) could be found.
    GrindFailed,
    /// The octopus path did not terminate in a single root.
    OctopusFailed,
}

// ----------------------------------------------------------------------------
// Specification
// ----------------------------------------------------------------------------

/// The number of bottom-level parents: `s = t - 2^(b-1)`.
pub open spec fn pors_s(p: ParamSet) -> int {
    p.t - p2((p.b - 1) as nat)
}

/// The secret value of leaf `leaf`.
pub open spec fn pors_sk<H: Fn(&[u8]) -> [u8; 32]>(
    h: H,
    ctx: Seq<u8>,
    pre: Seq<u8>,
    sk_seed: Seq<u8>,
    leaf: int,
) -> Seq<u8> {
    hash_n(h, ctx + adrs_of(pre, PORS_PRF, 0, 0, leaf as u32) + sk_seed)
}

/// The hash of a revealed secret value of leaf `leaf`.
pub open spec fn pors_leaf_hash<H: Fn(&[u8]) -> [u8; 32]>(
    h: H,
    ctx: Seq<u8>,
    pre: Seq<u8>,
    leaf: int,
    sk: Seq<u8>,
) -> Seq<u8> {
    hash_n(h, ctx + adrs_of(pre, PORS_HASH, 0, 0, leaf as u32) + sk)
}

/// The node of leaf `leaf`.
pub open spec fn pors_leaf<H: Fn(&[u8]) -> [u8; 32]>(
    h: H,
    ctx: Seq<u8>,
    pre: Seq<u8>,
    sk_seed: Seq<u8>,
    leaf: int,
) -> Seq<u8> {
    pors_leaf_hash(h, ctx, pre, leaf, pors_sk(h, ctx, pre, sk_seed, leaf))
}

/// The compression of two children into their parent at `height`, `idx`.
pub open spec fn pors_parent<H: Fn(&[u8]) -> [u8; 32]>(
    h: H,
    ctx: Seq<u8>,
    pre: Seq<u8>,
    height: int,
    idx: int,
    left: Seq<u8>,
    right: Seq<u8>,
) -> Seq<u8> {
    hash_n(h, ctx + adrs_of(pre, PORS_TREE, 0, height as u32, idx as u32) + left + right)
}

/// The PORS+FP node at `height` and position `idx`; at height 1 the
/// positions `idx >= s` are the upper leaves `s + idx`.
pub open spec fn pors_node<H: Fn(&[u8]) -> [u8; 32]>(
    h: H,
    p: ParamSet,
    ctx: Seq<u8>,
    pre: Seq<u8>,
    sk_seed: Seq<u8>,
    height: nat,
    idx: int,
) -> Seq<u8>
    decreases height,
{
    if height == 0 {
        pors_leaf(h, ctx, pre, sk_seed, idx)
    } else if height == 1 && idx >= pors_s(p) {
        pors_leaf(h, ctx, pre, sk_seed, pors_s(p) + idx)
    } else {
        pors_parent(
            h,
            ctx,
            pre,
            height as int,
            idx,
            pors_node(h, p, ctx, pre, sk_seed, (height - 1) as nat, 2 * idx),
            pors_node(h, p, ctx, pre, sk_seed, (height - 1) as nat, 2 * idx + 1),
        )
    }
}

/// Bit `i` (MSB-first) of `m`.
pub open spec fn bit_at(m: Seq<u8>, i: int) -> u32 {
    ((m[i / 8] >> ((7 - i % 8) as u32)) & 1u8) as u32
}

/// The `n` bits of `m` from bit `start` on, MSB-first, kept in 32 bits.
pub open spec fn extract_bits_spec(m: Seq<u8>, start: int, n: nat) -> u32
    decreases n,
{
    if n == 0 {
        0
    } else {
        (extract_bits_spec(m, start, (n - 1) as nat) << 1u32) | bit_at(m, start + n - 1)
    }
}

/// The integer whose binary digits are the `n` bits of `m` from bit `start` on.
pub open spec fn bits_value(m: Seq<u8>, start: int, n: nat) -> int
    decreases n,
{
    if n == 0 {
        0
    } else {
        2 * bits_value(m, start, (n - 1) as nat) + bit_at(m, start + n - 1)
    }
}

// ----------------------------------------------------------------------------
// Executable functions
// ----------------------------------------------------------------------------

/// `ceil(log2(t))`: the smallest height whose full tree has room for `t`
/// leaves; it is `b`.
pub fn tree_height<P: Params>() -> (r: usize)
    ensures
        r == P::spec_params().b,
        p2(r as nat) >= P::spec_params().t,
        r > 0 && p2((r - 1) as nat) < P::spec_params().t,
{
    let p = P::params();
    proof {
        vstd::arithmetic::power2::lemma2_to64();
    }
    let mut h: usize = 0;
    let mut pw: usize = 1;
    while pw < p.t
        invariant
            p == P::spec_params(),
            p.wf(),
            h <= p.b,
            pw == p2(h as nat),
            forall|k: nat| k < h ==> #[trigger] p2(k) < p.t,
        decreases p.b - h,
    {
        proof {
            vstd::arithmetic::power2::lemma2_to64();
            vstd::arithmetic::power2::lemma_pow2_unfold((h + 1) as nat);
            if h == p.b {
                assert(p2(h as nat) >= p.t);
            }
        }
        pw = pw * 2;
        h += 1;
    }
    proof {
        if h < p.b {
            assert(p2((p.b - 1) as nat) < p.t);
            vstd::arithmetic::power2::lemma_pow2_strictly_increases(h as nat, (p.b - 1) as nat);
        }
        if h == 0 {
            assert(p2(0) == 1);
        }
        assert(p2((h - 1) as nat) < p.t);
    }
    h
}

pub proof fn lemma_bit_at(m: Seq<u8>, i: int)
    ensures
        bit_at(m, i) <= 1,
{
    let x = m[i / 8];
    let k = (7 - i % 8) as u32;
    assert((x >> k) & 1u8 <= 1u8) by (bit_vector);
}

/// Up to 32 bits, `extract_bits` gives the integer whose binary digits are
/// the bits read, and it is below `2^n`.
pub proof fn lemma_extract_bits_value(m: Seq<u8>, start: int, n: nat)
    requires
        n <= 32,
    ensures
        extract_bits_spec(m, start, n) as int == bits_value(m, start, n),
        bits_value(m, start, n) < p2(n),
    decreases n,
{
    vstd::arithmetic::power2::lemma2_to64();
    if n > 0 {
        lemma_extract_bits_value(m, start, (n - 1) as nat);
        lemma_bit_at(m, start + n - 1);
        vstd::arithmetic::power2::lemma_pow2_unfold(n);
        let v = extract_bits_spec(m, start, (n - 1) as nat);
        let b = bit_at(m, start + n - 1);
        vstd::arithmetic::power2::lemma_pow2_strictly_increases((n - 1) as nat, 32);
        assert(v < 0x8000_0000);
        assert((v << 1u32) | b == 2 * v + b) by (bit_vector)
            requires
                v < 0x8000_0000,
                b <= 1,
        ;
    }
}

/// Extract `bits_amount` bits, MSB-first, starting at absolute bit
/// `start_bit_idx` of `message`.
pub fn extract_bits(message: &[u8], start_bit_idx: u32, bits_amount: u32) -> (r: u32)
    requires
        start_bit_idx + bits_amount <= 0x1_0000_0000,
        bits_amount == 0 || (start_bit_idx + bits_amount - 1) / 8 < message@.len(),
    ensures
        r == extract_bits_spec(message@, start_bit_idx as int, bits_amount as nat),
        bits_amount <= 32 ==> r as int == bits_value(
            message@,
            start_bit_idx as int,
            bits_amount as nat,
        ),
{
    let mut res: u32 = 0;
    let mut i: u32 = 0;
    while i < bits_amount
        invariant
            0 <= i <= bits_amount,
            start_bit_idx + bits_amount <= 0x1_0000_0000,
            bits_amount == 0 || (start_bit_idx + bits_amount - 1) / 8 < message@.len(),
            res == extract_bits_spec(message@, start_bit_idx as int, i as nat),
        decreases bits_amount - i,
    {
        let bit_idx = start_bit_idx + i;
        assert(bit_idx / 8 <= (start_bit_idx + bits_amount - 1) / 8) by (nonlinear_arith)
            requires
                bit_idx <= start_bit_idx + bits_amount - 1,
        ;
        let byte_idx = (bit_idx / 8) as usize;
        let bit_in_byte = bit_idx % 8;
        let bit = (message[byte_idx] >> (7 - bit_in_byte)) & 1;
        res = (res << 1) | bit as u32;
        i += 1;
    }
    proof {
        if bits_amount <= 32 {
            lemma_extract_bits_value(message@, start_bit_idx as int, bits_amount as nat);
        }
    }
    res
}

/// Whether `elem` occurs anywhere in `arr`.
pub fn uint32_arr_have(arr: &[u32], elem: u32) -> (r: bool)
    ensures
        r == arr@.contains(elem),
{
    let mut i: usize = 0;
    while i < arr.len()
        invariant
            0 <= i <= arr@.len(),
            forall|j: int| 0 <= j < i ==> arr@[j] != elem,
        decreases arr@.len() - i,
    {
        if arr[i] == elem {
            return true;
        }
        i += 1;
    }
    false
}

/// Derive the secret value of leaf `leaf_idx`.
pub fn pors_sk_gen<P: Params, H: Fn(&[u8]) -> [u8; 32]>(
    h: &H,
    sk_seed: &[u8],
    hash_ctx: &Sha256Ctx,
    adrs: &mut Adrs,
    leaf_idx: u32,
) -> (res: Node)
    requires
        is_hash_fn(*h),
    ensures
        res@ == pors_sk(*h, hash_ctx@, old(adrs)@.subrange(0, 16), sk_seed@, leaf_idx as int),
        final(adrs)@ == adrs_of(old(adrs)@.subrange(0, 16), PORS_PRF, 0, 0, leaf_idx),
{
    let ghost pre = old(adrs)@.subrange(0, 16);
    set_type_and_clear(adrs, PORS_PRF);
    set_key_pair_address(adrs, 0);
    set_tree_index(adrs, leaf_idx);
    proof {
        lemma_splice_tail(pre, PORS_PRF, 0, 0, 0, 0);
        lemma_splice_tail(pre, PORS_PRF, 0, 0, 0, leaf_idx);
    }
    let ctx = hash_ctx.add_to_ctx(adrs).add_to_ctx(sk_seed);
    finalize_node(h, &ctx)
}

/// The node of leaf `leaf_idx`: the hash of its secret value.
fn leaf_node<P: Params, H: Fn(&[u8]) -> [u8; 32]>(
    h: &H,
    sk_seed: &[u8],
    hash_ctx: &Sha256Ctx,
    adrs: &mut Adrs,
    leaf_idx: u32,
) -> (res: Node)
    requires
        is_hash_fn(*h),
    ensures
        res@ == pors_leaf(*h, hash_ctx@, old(adrs)@.subrange(0, 16), sk_seed@, leaf_idx as int),
        final(adrs)@ == adrs_of(old(adrs)@.subrange(0, 16), PORS_HASH, 0, 0, leaf_idx),
{
    let ghost pre = old(adrs)@.subrange(0, 16);
    let sk = pors_sk_gen::<P, H>(h, sk_seed, hash_ctx, adrs, leaf_idx);
    proof {
        lemma_splice_tail(pre, PORS_PRF, 0, 0, leaf_idx, 0);
    }
    set_type_and_clear(adrs, PORS_HASH);
    set_key_pair_address(adrs, 0);
    set_tree_height(adrs, 0);
    set_tree_index(adrs, leaf_idx);
    proof {
        lemma_splice_tail(pre, PORS_HASH, 0, 0, 0, 0);
        lemma_splice_tail(pre, PORS_HASH, 0, 0, 0, leaf_idx);
    }
    let ctx = hash_ctx.add_to_ctx(adrs).add_to_ctx(&sk);
    finalize_node(h, &ctx)
}

/// The address left behind after building the node at `height`, `idx`.
pub open spec fn pors_node_adrs(p: ParamSet, pre: Seq<u8>, height: nat, idx: int) -> Seq<u8> {
    if height == 0 {
        adrs_of(pre, PORS_HASH, 0, 0, idx as u32)
    } else if height == 1 && idx >= pors_s(p) {
        adrs_of(pre, PORS_HASH, 0, 0, (pors_s(p) + idx) as u32)
    } else {
        adrs_of(pre, PORS_TREE, 0, height as u32, idx as u32)
    }
}

/// Build the PORS+FP node at `target_height` and position `idx`.
pub fn pors_treehash<P: Params, H: Fn(&[u8]) -> [u8; 32]>(
    h: &H,
    sk_seed: &[u8],
    hash_ctx: &Sha256Ctx,
    adrs: &mut Adrs,
    target_height: u32,
    idx: u32,
) -> (res: Node)
    requires
        is_hash_fn(*h),
        target_height < 32,
        (idx + 1) * p2(target_height as nat) <= 0x1_0000_0000,
    ensures
        res@ == pors_node(
            *h,
            P::spec_params(),
            hash_ctx@,
            old(adrs)@.subrange(0, 16),
            sk_seed@,
            target_height as nat,
            idx as int,
        ),
        final(adrs)@ == pors_node_adrs(
            P::spec_params(),
            old(adrs)@.subrange(0, 16),
            target_height as nat,
            idx as int,
        ),
    decreases target_height,
{
    let p = P::params();
    let ghost pre = old(adrs)@.subrange(0, 16);
    let hgt = tree_height::<P>();
    proof {
        vstd::arithmetic::power2::lemma2_to64();
        vstd::bits::lemma_usize_shl_is_mul(1, (hgt - 1) as usize);
    }
    let s = (p.t - (1usize << (hgt - 1))) as u32;
    assert(s as int == pors_s(p));
    if target_height == 0 {
        return leaf_node::<P, H>(h, sk_seed, hash_ctx, adrs, idx);
    } else if target_height == 1 && idx >= s {
        assert((idx + 1) * 2 <= 0x1_0000_0000);
        return leaf_node::<P, H>(h, sk_seed, hash_ctx, adrs, s + idx);
    }
    proof {
        vstd::arithmetic::power2::lemma_pow2_unfold(target_height as nat);
        vstd::arithmetic::power2::lemma_pow2_pos((target_height - 1) as nat);
        assert((2 * idx + 2) * p2((target_height - 1) as nat) == (idx + 1) * p2(target_height as nat))
            by (nonlinear_arith)
            requires
                p2(target_height as nat) == 2 * p2((target_height - 1) as nat),
        ;
        assert((2 * idx + 1) * p2((target_height - 1) as nat) <= (2 * idx + 2) * p2(
            (target_height - 1) as nat,
        )) by (nonlinear_arith)
            requires
                p2((target_height - 1) as nat) >= 1,
        ;
        assert(2 * idx + 2 <= 0x1_0000_0000) by (nonlinear_arith)
            requires
                (2 * idx + 2) * p2((target_height - 1) as nat) <= 0x1_0000_0000,
                p2((target_height - 1) as nat) >= 1,
        ;
    }
    let left = pors_treehash::<P, H>(h, sk_seed, hash_ctx, adrs, target_height - 1, 2 * idx);
    proof {
        pors_node_adrs_prefix(p, pre, (target_height - 1) as nat, 2 * idx);
    }
    let right = pors_treehash::<P, H>(h, sk_seed, hash_ctx, adrs, target_height - 1, 2 * idx + 1);
    proof {
        pors_node_adrs_prefix(p, pre, (target_height - 1) as nat, 2 * idx + 1);
    }
    set_type_and_clear(adrs, PORS_TREE);
    set_key_pair_address(adrs, 0);
    set_tree_height(adrs, target_height);
    set_tree_index(adrs, idx);
    proof {
        lemma_splice_tail(pre, PORS_TREE, 0, 0, 0, 0);
        lemma_splice_tail(pre, PORS_TREE, 0, 0, 0, target_height);
        lemma_splice_tail(pre, PORS_TREE, 0, target_height, 0, idx);
    }
    let ctx = hash_ctx.add_to_ctx(adrs).add_to_ctx(&left).add_to_ctx(&right);
    finalize_node(h, &ctx)
}

pub proof fn pors_node_adrs_prefix(p: ParamSet, pre: Seq<u8>, height: nat, idx: int)
    requires
        pre.len() == 16,
    ensures
        pors_node_adrs(p, pre, height, idx).subrange(0, 16) == pre,
{
    lemma_splice_tail(pre, PORS_HASH, 0, 0, idx as u32, 0);
    lemma_splice_tail(pre, PORS_HASH, 0, 0, (pors_s(p) + idx) as u32, 0);
    lemma_splice_tail(pre, PORS_TREE, 0, height as u32, idx as u32, 0);
}

/// The order of `u32` values.
pub open spec fn leq_u32() -> spec_fn(u32, u32) -> bool {
    |a: u32, b: u32| a <= b
}

pub proof fn lemma_leq_total()
    ensures
        total_ordering(leq_u32()),
{
    assert(vstd::relations::reflexive(leq_u32()));
    assert(vstd::relations::antisymmetric(leq_u32()));
    assert(vstd::relations::transitive(leq_u32()));
    assert(vstd::relations::strongly_connected(leq_u32()));
}

/// Sort `v` in increasing order.
pub fn sort_u32(v: &mut Vec<u32>)
    ensures
        final(v)@ == old(v)@.sort_by(leq_u32()),
{
    broadcast use vstd::seq_lib::group_to_multiset_ensures;

    let mut sorted: Vec<u32> = Vec::new();
    let mut i: usize = 0;
    while i < v.len()
        invariant
            0 <= i <= v@.len(),
            v@ == old(v)@,
            sorted_by(sorted@, leq_u32()),
            sorted@.to_multiset() == v@.subrange(0, i as int).to_multiset(),
        decreases v@.len() - i,
    {
        let x = v[i];
        let mut j: usize = 0;
        while j < sorted.len() && sorted[j] <= x
            invariant
                0 <= j <= sorted@.len(),
                forall|k: int| 0 <= k < j ==> sorted@[k] <= x,
            decreases sorted@.len() - j,
        {
            j += 1;
        }
        let ghost before = sorted@;
        sorted.insert(j, x);
        proof {
            assert forall|a: int, b: int| 0 <= a < b < sorted@.len() implies #[trigger] leq_u32()(
                sorted@[a],
                sorted@[b],
            ) by {
                assert(sorted_by(before, leq_u32()));
                if b < j {
                    assert(leq_u32()(before[a], before[b]));
                } else if b == j {
                    assert(before[a] <= x);
                } else if a < j {
                    assert(before[a] <= x || before[a] <= before[b - 1]);
                    if j < before.len() {
                        assert(leq_u32()(before[a], before[b - 1]));
                    }
                } else if a == j {
                    assert(!(before[j as int] <= x));
                    assert(leq_u32()(before[j as int], before[b - 1]) || j == b - 1);
                } else {
                    assert(leq_u32()(before[a - 1], before[b - 1]));
                }
            }
            assert(v@.subrange(0, i + 1) =~= v@.subrange(0, i as int).push(x));
            assert(sorted@ == before.insert(j as int, x));
            vstd::seq_lib::to_multiset_insert(before, j as int, x);
            vstd::seq_lib::to_multiset_build(v@.subrange(0, i as int), x);
            assert(sorted@.to_multiset() == before.to_multiset().insert(x));
            assert(v@.subrange(0, i + 1).to_multiset() == v@.subrange(0, i as int).push(
                x,
            ).to_multiset());
            assert(v@.subrange(0, i as int).push(x).to_multiset() == v@.subrange(
                0,
                i as int,
            ).to_multiset().insert(x));
        }
        i += 1;
    }
    proof {
        assert(v@.subrange(0, i as int) =~= v@);
        lemma_leq_total();
        v@.lemma_sort_by_ensures(leq_u32());
        vstd::seq_lib::lemma_sorted_unique(sorted@, v@.sort_by(leq_u32()), leq_u32());
    }
    *v = sorted;
}

/// The bytes hashed for the XOF blocks of a digest.
pub open spec fn xof_input(ctx: Seq<u8>, pre: Seq<u8>, message: Seq<u8>) -> Seq<u8> {
    ctx + adrs_of(pre, PORS_XOF, 0, 0, 0) + message
}

/// XOF block `blk`.
pub open spec fn xof_block<H: Fn(&[u8]) -> [u8; 32]>(h: H, c: Seq<u8>, blk: int) -> Seq<u8> {
    digest(h, c + be32(blk as u32))
}

/// Candidate `i` of an XOF block: `b` bits from bit `i b`.
pub open spec fn candidate(p: ParamSet, block: Seq<u8>, i: int) -> u32 {
    extract_bits_spec(block, i * p.b, p.b as nat)
}

/// Add the candidates `i, i + 1, ...` of `block` to `idx`, skipping those
/// not below `t` and repeats, until `k` indices are collected.
pub open spec fn collect_block(p: ParamSet, idx: Seq<u32>, block: Seq<u8>, i: nat) -> Seq<u32>
    decreases p.spec_c() - i,
{
    if i >= p.spec_c() || idx.len() >= p.k {
        idx
    } else {
        let c = candidate(p, block, i as int);
        collect_block(
            p,
            if (c as int) < p.t && !idx.contains(c) { idx.push(c) } else { idx },
            block,
            i + 1,
        )
    }
}

/// The indices collected from the first `n` XOF blocks.
pub open spec fn collect_upto<H: Fn(&[u8]) -> [u8; 32]>(h: H, p: ParamSet, c: Seq<u8>, n: nat) -> Seq<u32>
    decreases n,
{
    if n == 0 {
        Seq::empty()
    } else {
        collect_block(p, collect_upto(h, p, c, (n - 1) as nat), xof_block(h, c, n - 1), 0)
    }
}

/// The indices selected by a digest: the first `k` distinct candidates below
/// `t` over the `2^32` XOF blocks, in increasing order (or, should fewer
/// than `k` be found, those found, in order of discovery).
pub open spec fn msg_indices_spec<H: Fn(&[u8]) -> [u8; 32]>(h: H, p: ParamSet, c: Seq<u8>) -> Seq<u32> {
    let fin = collect_upto(h, p, c, 0x1_0000_0000);
    if fin.len() == p.k {
        fin.sort_by(leq_u32())
    } else {
        fin
    }
}

pub proof fn lemma_collect_block_len(p: ParamSet, idx: Seq<u32>, block: Seq<u8>, i: nat)
    requires
        idx.len() <= p.k,
    ensures
        collect_block(p, idx, block, i).len() <= p.k,
        idx.len() >= p.k ==> collect_block(p, idx, block, i) == idx,
    decreases p.spec_c() - i,
{
    if !(i >= p.spec_c() || idx.len() >= p.k) {
        let c = candidate(p, block, i as int);
        lemma_collect_block_len(
            p,
            if (c as int) < p.t && !idx.contains(c) { idx.push(c) } else { idx },
            block,
            i + 1,
        );
    }
}

pub proof fn lemma_collect_len<H: Fn(&[u8]) -> [u8; 32]>(h: H, p: ParamSet, c: Seq<u8>, n: nat)
    ensures
        collect_upto(h, p, c, n).len() <= p.k,
    decreases n,
{
    if n > 0 {
        lemma_collect_len(h, p, c, (n - 1) as nat);
        lemma_collect_block_len(p, collect_upto(h, p, c, (n - 1) as nat), xof_block(h, c, n - 1), 0);
    }
}

/// Once `k` indices are collected, later blocks change nothing.
pub proof fn lemma_collect_stable<H: Fn(&[u8]) -> [u8; 32]>(
    h: H,
    p: ParamSet,
    c: Seq<u8>,
    n: nat,
    m: nat,
)
    requires
        n <= m,
        collect_upto(h, p, c, n).len() >= p.k,
    ensures
        collect_upto(h, p, c, m) == collect_upto(h, p, c, n),
    decreases m,
{
    if m > n {
        lemma_collect_stable(h, p, c, n, (m - 1) as nat);
        lemma_collect_len(h, p, c, (m - 1) as nat);
        lemma_collect_block_len(p, collect_upto(h, p, c, (m - 1) as nat), xof_block(h, c, m - 1), 0);
    }
}

/// Derive `k` distinct indices in `[0, t)` from a 32-byte digest through a
/// SHA-256 counter-mode XOF, writing the first `xof_block_idx` blocks of XOF
/// output to the front of `xof_out`; the indices come sorted.
pub fn pors_msg_to_indices<P: Params, H: Fn(&[u8]) -> [u8; 32]>(
    h: &H,
    message: &[u8],
    adrs: &mut Adrs,
    hash_ctx: &Sha256Ctx,
    xof_out: &mut [u8],
) -> (indices: Vec<u32>)
    requires
        is_hash_fn(*h),
        old(xof_out)@.len() >= P::spec_params().spec_xof_block_idx() * 32,
    ensures
        ({
            let c = xof_input(hash_ctx@, old(adrs)@.subrange(0, 16), message@);
            &&& indices@ == msg_indices_spec(*h, P::spec_params(), c)
            &&& final(xof_out)@ == xof_block(*h, c, 0) + xof_block(*h, c, 1) + old(
                xof_out,
            )@.subrange(64, old(xof_out)@.len() as int)
        }),
        final(adrs)@ == adrs_of(old(adrs)@.subrange(0, 16), PORS_XOF, 0, 0, 0),
{
    let p = P::params();
    let ghost pre = old(adrs)@.subrange(0, 16);
    let nblocks = p.xof_block_idx();
    let ncand = p.c();
    set_type_and_clear(adrs, PORS_XOF);
    proof {
        lemma_splice_tail(pre, PORS_XOF, 0, 0, 0, 0);
    }
    let ctx = hash_ctx.add_to_ctx(adrs).add_to_ctx(message);
    let ghost c = ctx@;
    assert(c == xof_input(hash_ctx@, pre, message@));
    let mut indices: Vec<u32> = Vec::new();
    let mut xof_offset: usize = 0;
    let mut n: u64 = 0;
    proof {
        crate::hash::lemma_digest_len(*h, c + be32(0));
        crate::hash::lemma_digest_len(*h, c + be32(1));
    }
    let ghost want = xof_block(*h, c, 0) + xof_block(*h, c, 1);
    while n < 0x1_0000_0000
        invariant
            is_hash_fn(*h),
            p == P::spec_params(),
            p.wf(),
            nblocks == 2,
            ncand == p.spec_c(),
            ctx@ == c,
            pre == old(adrs)@.subrange(0, 16),
            c == xof_input(hash_ctx@, pre, message@),
            adrs@ == adrs_of(pre, PORS_XOF, 0, 0, 0),
            want == xof_block(*h, c, 0) + xof_block(*h, c, 1),
            want.len() == 64,
            old(xof_out)@.len() >= 64,
            xof_out@.len() == old(xof_out)@.len(),
            0 <= n <= 0x1_0000_0000,
            xof_offset == if n < 2 { 32 * n } else { 64 },
            forall|j: int| 0 <= j < xof_offset ==> xof_out@[j] == want[j],
            forall|j: int| 64 <= j < xof_out@.len() ==> xof_out@[j] == old(xof_out)@[j],
            indices@ == collect_upto(*h, p, c, n as nat),
        decreases 0x1_0000_0000 - n,
    {
        let blk = n as u32;
        let cb = be32_bytes(blk);
        let ctx_blk = ctx.add_to_ctx(&cb);
        let block = finalize_full(h, &ctx_blk);
        assert(block@ == xof_block(*h, c, n as int));
        if (blk as usize) < nblocks {
            let mut j: usize = 0;
            while j < 32
                invariant
                    0 <= j <= 32,
                    xof_offset == 32 * n,
                    n < 2,
                    want.len() == 64,
                    block@ == xof_block(*h, c, n as int),
                    xof_out@.len() == old(xof_out)@.len(),
                    old(xof_out)@.len() >= 64,
                    forall|k: int| 0 <= k < xof_offset ==> xof_out@[k] == want[k],
                    forall|k: int| 0 <= k < j ==> xof_out@[xof_offset + k] == block@[k],
                    forall|k: int| 64 <= k < xof_out@.len() ==> xof_out@[k] == old(xof_out)@[k],
                decreases 32 - j,
            {
                xof_out[xof_offset + j] = block[j];
                j += 1;
            }
            proof {
                assert forall|k: int| 0 <= k < xof_offset + 32 implies xof_out@[k] == want[k] by {
                    if k >= xof_offset {
                        assert(xof_out@[xof_offset + (k - xof_offset)] == block@[k - xof_offset]);
                    }
                }
            }
            xof_offset += 32;
        }
        let ghost before = indices@;
        proof {
            lemma_collect_len(*h, p, c, n as nat);
            crate::hash::lemma_digest_len(*h, c + be32(blk));
        }
        let mut i: usize = 0;
        while i < ncand
            invariant
                p == P::spec_params(),
                p.wf(),
                ncand == p.spec_c(),
                0 <= i <= ncand,
                indices@.len() <= p.k,
                collect_block(p, before, block@, 0) == collect_block(p, indices@, block@, i as nat),
                block@.len() == 32,
            ensures
                i >= ncand || indices@.len() == p.k,
                indices@.len() <= p.k,
                collect_block(p, before, block@, 0) == collect_block(p, indices@, block@, i as nat),
            decreases ncand - i,
        {
            if indices.len() == p.k {
                break;
            }
            proof {
                if p.b == 24 {
                    assert(256int / 24 == 10);
                } else {
                    assert(256int / 17 == 15);
                }
                assert((i + 1) * p.b <= 256) by (nonlinear_arith)
                    requires
                        (p.b == 24 && i < 10) || (p.b == 17 && i < 15),
                ;
            }
            let cand = extract_bits(&block, (i * p.b) as u32, p.b as u32);
            if (cand as usize) < p.t && !uint32_arr_have(indices.as_slice(), cand) {
                indices.push(cand);
            }
            i += 1;
        }
        proof {
            lemma_collect_block_len(p, indices@, block@, i as nat);
            assert(indices@ == collect_block(p, before, block@, 0));
            assert(collect_upto(*h, p, c, (n + 1) as nat) == collect_block(
                p,
                collect_upto(*h, p, c, n as nat),
                xof_block(*h, c, n as int),
                0,
            ));
        }
        if blk as usize >= nblocks && indices.len() == p.k {
            proof {
                lemma_collect_stable(*h, p, c, (n + 1) as nat, 0x1_0000_0000);
                assert(xof_out@ =~= want + old(xof_out)@.subrange(64, old(xof_out)@.len() as int));
            }
            sort_u32(&mut indices);
            return indices;
        }
        n += 1;
    }
    proof {
        lemma_collect_len(*h, p, c, 0x1_0000_0000);
        assert(xof_out@ =~= want + old(xof_out)@.subrange(64, old(xof_out)@.len() as int));
    }
    if indices.len() == p.k {
        sort_u32(&mut indices);
    }
    indices
}

/// The indices that sit at the bottom level (`i < 2s`), as `(0, i)`.
pub open spec fn split_i(p: ParamSet, s: Seq<u32>) -> Seq<(u32, u32)>
    decreases s.len(),
{
    if s.len() == 0 {
        Seq::empty()
    } else {
        let r = split_i(p, s.drop_last());
        if (s.last() as int) < 2 * pors_s(p) {
            r.push((0u32, s.last()))
        } else {
            r
        }
    }
}

/// The indices that sit one level up (`i >= 2s`), as `(1, i - s)`.
pub open spec fn split_p(p: ParamSet, s: Seq<u32>) -> Seq<(u32, u32)>
    decreases s.len(),
{
    if s.len() == 0 {
        Seq::empty()
    } else {
        let r = split_p(p, s.drop_last());
        if (s.last() as int) < 2 * pors_s(p) {
            r
        } else {
            r.push((1u32, (s.last() - pors_s(p)) as u32))
        }
    }
}

/// One level of the octopus walk over `list` from position `i`: siblings
/// that are both present pair up; every other node needs its sibling
/// `(cur, idx ^ 1)` in the path `a`, which may hold at most `m` nodes. The
/// parents go to `next`.
pub open spec fn octo_pass(
    list: Seq<(u32, u32)>,
    i: nat,
    cur: u32,
    a: Seq<(u32, u32)>,
    next: Seq<(u32, u32)>,
    m: nat,
) -> Option<(Seq<(u32, u32)>, Seq<(u32, u32)>)>
    decreases list.len() - i,
{
    if i >= list.len() {
        Some((a, next))
    } else {
        let e = list[i as int];
        let sib = e.1 ^ 1u32;
        let nxt = next.push(((e.0 + 1) as u32, e.1 >> 1u32));
        if i + 1 < list.len() && list[i + 1 as int].1 == sib {
            octo_pass(list, i + 2, cur, a, nxt, m)
        } else if a.len() >= m {
            None
        } else {
            octo_pass(list, i + 1, cur, a.push((cur, sib)), nxt, m)
        }
    }
}

/// The octopus walk from level `cur` up to level `b`, stopping early at the
/// root.
pub open spec fn octo_levels(
    list: Seq<(u32, u32)>,
    plist: Seq<(u32, u32)>,
    cur: nat,
    b: nat,
    a: Seq<(u32, u32)>,
    m: nat,
) -> Option<Seq<(u32, u32)>>
    decreases b - cur,
{
    if cur >= b {
        Some(a)
    } else {
        match octo_pass(list, 0, cur as u32, a, Seq::empty(), m) {
            None => None,
            Some(r) => {
                let nl = r.1 + plist;
                if nl.len() == 1 && nl[0].1 == 0 {
                    Some(r.0)
                } else {
                    octo_levels(nl, Seq::empty(), cur + 1, b, r.0, m)
                }
            },
        }
    }
}

/// The octopus authentication path `(level, sibling index)` of the
/// `indices`, or `None` when it needs more than `m_max` nodes.
pub open spec fn pors_octopus_spec(p: ParamSet, indices: Seq<u32>) -> Option<Seq<(u32, u32)>> {
    octo_levels(split_i(p, indices), split_p(p, indices), 0, p.b as nat, Seq::empty(), p.m_max as nat)
}

pub open spec fn opt_pairs(r: Option<Vec<(u32, u32)>>) -> Option<Seq<(u32, u32)>> {
    match r {
        Some(v) => Some(v@),
        None => None,
    }
}

pub open spec fn levels_bounded(list: Seq<(u32, u32)>, bound: int) -> bool {
    forall|k: int| 0 <= k < list.len() ==> (#[trigger] list[k]).0 <= bound
}

/// The compressed octopus authentication path of the sorted `indices`: the
/// `(level, sibling index)` nodes needed to authenticate all of them, or
/// `None` when more than `m_max` nodes are needed.
pub fn pors_octopus<P: Params>(indices: &[u32]) -> (r: Option<Vec<(u32, u32)>>)
    ensures
        opt_pairs(r) == pors_octopus_spec(P::spec_params(), indices@),
{
    let p = P::params();
    proof {
        vstd::arithmetic::power2::lemma2_to64();
        vstd::bits::lemma_usize_shl_is_mul(1, (p.b - 1) as usize);
    }
    let s = (p.t - (1usize << (p.b - 1))) as u32;
    assert(s as int == pors_s(p));
    let mut i_list: Vec<(u32, u32)> = Vec::new();
    let mut p_list: Vec<(u32, u32)> = Vec::new();
    let mut a_out: Vec<(u32, u32)> = Vec::new();
    let mut k: usize = 0;
    while k < indices.len()
        invariant
            p == P::spec_params(),
            p.wf(),
            s as int == pors_s(p),
            0 <= k <= indices@.len(),
            i_list@ == split_i(p, indices@.subrange(0, k as int)),
            p_list@ == split_p(p, indices@.subrange(0, k as int)),
        decreases indices@.len() - k,
    {
        let i = indices[k];
        proof {
            assert(indices@.subrange(0, k + 1).drop_last() =~= indices@.subrange(0, k as int));
        }
        if i < 2 * s {
            i_list.push((0, i));
        } else {
            p_list.push((1, i - s));
        }
        k += 1;
    }
    assert(indices@.subrange(0, k as int) =~= indices@);
    let ghost want = pors_octopus_spec(p, indices@);
    proof {
        lemma_split_levels(p, indices@);
    }
    let mut cur: u32 = 0;
    while (cur as usize) < p.b
        invariant
            p == P::spec_params(),
            p.wf(),
            0 <= cur <= p.b,
            a_out@.len() <= p.m_max,
            levels_bounded(i_list@, cur + 1),
            levels_bounded(p_list@, 1),
            cur > 0 ==> p_list@.len() == 0,
            want == pors_octopus_spec(p, indices@),
            want == octo_levels(i_list@, p_list@, cur as nat, p.b as nat, a_out@, p.m_max as nat),
        decreases p.b - cur,
    {
        let ghost a0 = a_out@;
        let mut p_next: Vec<(u32, u32)> = Vec::new();
        let mut i: usize = 0;
        while i < i_list.len()
            invariant
                p == P::spec_params(),
                p.wf(),
                cur < p.b,
                0 <= i <= i_list@.len() + 1,
                a_out@.len() <= p.m_max,
                levels_bounded(i_list@, cur + 1),
                levels_bounded(p_next@, cur + 2),
                levels_bounded(p_list@, 1),
                cur > 0 ==> p_list@.len() == 0,
                want == pors_octopus_spec(p, indices@),
                want == octo_levels(i_list@, p_list@, cur as nat, p.b as nat, a0, p.m_max as nat),
                octo_pass(i_list@, 0, cur, a0, Seq::empty(), p.m_max as nat) == octo_pass(
                    i_list@,
                    i as nat,
                    cur,
                    a_out@,
                    p_next@,
                    p.m_max as nat,
                ),
            decreases i_list@.len() + 1 - i,
        {
            let (lvl, idx) = i_list[i];
            let sib = idx ^ 1;
            if i + 1 < i_list.len() && i_list[i + 1].1 == sib {
                i += 2;
            } else {
                if a_out.len() == p.m_max {
                    return None;
                }
                a_out.push((cur, sib));
                i += 1;
            }
            p_next.push((lvl + 1, idx >> 1));
        }
        let ghost nl = p_next@ + p_list@;
        proof {
            assert(i_list@.len() <= i);
        }
        i_list = p_next;
        i_list.append(&mut p_list);
        assert(i_list@ == nl);
        if i_list.len() == 1 && i_list[0].1 == 0 {
            return Some(a_out);
        }
        cur += 1;
    }
    Some(a_out)
}

pub proof fn lemma_split_levels(p: ParamSet, s: Seq<u32>)
    ensures
        levels_bounded(split_i(p, s), 1),
        levels_bounded(split_p(p, s), 1),
    decreases s.len(),
{
    if s.len() > 0 {
        lemma_split_levels(p, s.drop_last());
    }
}

/// The view of a list of `(index, node)` entries.
pub open spec fn ents(v: Seq<(u32, Node)>) -> Seq<(u32, Seq<u8>)> {
    Seq::new(v.len(), |i: int| (v[i].0, v[i].1@))
}

/// The revealed leaves of a PORS+FP signature: each index with the hash of
/// its revealed secret value.
pub open spec fn leaf_entries<H: Fn(&[u8]) -> [u8; 32]>(
    h: H,
    ctx: Seq<u8>,
    pre: Seq<u8>,
    sig: Seq<u8>,
    indices: Seq<u32>,
) -> Seq<(u32, Seq<u8>)> {
    Seq::new(
        indices.len(),
        |j: int|
            (
                indices[j],
                pors_leaf_hash(h, ctx, pre, indices[j] as int, sig.subrange(32 + 16 * j, 48 + 16 * j)),
            ),
    )
}

/// The entries at the bottom level (`idx < 2s`).
pub open spec fn split_ie(p: ParamSet, s: Seq<(u32, Seq<u8>)>) -> Seq<(u32, Seq<u8>)>
    decreases s.len(),
{
    if s.len() == 0 {
        Seq::empty()
    } else {
        let r = split_ie(p, s.drop_last());
        if (s.last().0 as int) < 2 * pors_s(p) {
            r.push(s.last())
        } else {
            r
        }
    }
}

/// The entries one level up (`idx >= 2s`), placed at `idx - s`.
pub open spec fn split_pe(p: ParamSet, s: Seq<(u32, Seq<u8>)>) -> Seq<(u32, Seq<u8>)>
    decreases s.len(),
{
    if s.len() == 0 {
        Seq::empty()
    } else {
        let r = split_pe(p, s.drop_last());
        if (s.last().0 as int) < 2 * pors_s(p) {
            r
        } else {
            r.push(((s.last().0 - pors_s(p)) as u32, s.last().1))
        }
    }
}

/// Entry `i` and the next one are siblings.
pub open spec fn pairs_fwd(list: Seq<(u32, Seq<u8>)>, i: int) -> bool {
    0 <= i && i + 1 < list.len() && list[i + 1].0 == list[i].0 ^ 1u32
}

/// Entry `i` is paired with a neighbour.
pub open spec fn is_paired(list: Seq<(u32, Seq<u8>)>, i: int) -> bool {
    pairs_fwd(list, i) || pairs_fwd(list, i - 1)
}

/// One level of root reconstruction over `list` from position `i`: paired
/// siblings combine, every other node takes its sibling from the signature
/// at offset `off`; `None` when a sibling is missing.
pub open spec fn pk_pass<H: Fn(&[u8]) -> [u8; 32]>(
    h: H,
    ctx: Seq<u8>,
    pre: Seq<u8>,
    sig: Seq<u8>,
    list: Seq<(u32, Seq<u8>)>,
    i: nat,
    cur: u32,
    off: int,
    next: Seq<(u32, Seq<u8>)>,
) -> Option<(Seq<(u32, Seq<u8>)>, int)>
    decreases list.len() - i,
{
    if i >= list.len() {
        Some((next, off))
    } else {
        let node = list[i as int];
        let idx = node.0;
        let even = idx & 1u32 == 0;
        if is_paired(list, i as int) && even {
            pk_pass(h, ctx, pre, sig, list, i + 1, cur, off, next)
        } else {
            let adrs = adrs_of(pre, PORS_TREE, 0, (cur + 1) as u32, idx >> 1u32);
            if is_paired(list, i as int) {
                if i == 0 {
                    None
                } else {
                    let parent = hash_n(h, ctx + adrs + list[i - 1].1 + node.1);
                    pk_pass(h, ctx, pre, sig, list, i + 1, cur, off, next.push((idx >> 1u32, parent)))
                }
            } else if off + 16 > sig.len() {
                None
            } else {
                let auth = sig.subrange(off, off + 16);
                let parent = if even {
                    hash_n(h, ctx + adrs + node.1 + auth)
                } else {
                    hash_n(h, ctx + adrs + auth + node.1)
                };
                pk_pass(h, ctx, pre, sig, list, i + 1, cur, off + 16, next.push((idx >> 1u32, parent)))
            }
        }
    }
}

/// Root reconstruction from level `cur` up to level `b`, stopping early at
/// the root.
pub open spec fn pk_levels<H: Fn(&[u8]) -> [u8; 32]>(
    h: H,
    ctx: Seq<u8>,
    pre: Seq<u8>,
    sig: Seq<u8>,
    list: Seq<(u32, Seq<u8>)>,
    plist: Seq<(u32, Seq<u8>)>,
    cur: nat,
    b: nat,
    off: int,
) -> Option<Seq<(u32, Seq<u8>)>>
    decreases b - cur,
{
    if cur >= b {
        Some(list)
    } else {
        match pk_pass(h, ctx, pre, sig, list, 0, cur as u32, off, Seq::empty()) {
            None => None,
            Some(r) => {
                let nl = r.0 + plist;
                if nl.len() == 1 && nl[0].0 == 0 {
                    Some(nl)
                } else {
                    pk_levels(h, ctx, pre, sig, nl, Seq::empty(), cur + 1, b, r.1)
                }
            },
        }
    }
}

/// The address that one level of rebuilding leaves behind, from position `i`
/// and the address `a`: that of the last parent it set out to build (also
/// when it gives up there), or `a` when it builds none.
pub open spec fn pk_pass_adrs(
    pre: Seq<u8>,
    sig_len: int,
    list: Seq<(u32, Seq<u8>)>,
    i: nat,
    cur: u32,
    off: int,
    a: Seq<u8>,
) -> Seq<u8>
    decreases list.len() - i,
{
    if i >= list.len() {
        a
    } else {
        let idx = list[i as int].0;
        if is_paired(list, i as int) && idx & 1u32 == 0 {
            pk_pass_adrs(pre, sig_len, list, i + 1, cur, off, a)
        } else {
            let adrs = adrs_of(pre, PORS_TREE, 0, (cur + 1) as u32, idx >> 1u32);
            if is_paired(list, i as int) {
                if i == 0 {
                    adrs
                } else {
                    pk_pass_adrs(pre, sig_len, list, i + 1, cur, off, adrs)
                }
            } else if off + 16 > sig_len {
                adrs
            } else {
                pk_pass_adrs(pre, sig_len, list, i + 1, cur, off + 16, adrs)
            }
        }
    }
}

/// The address that rebuilding from level `cur` leaves behind, from the
/// address `a`, when it gives up or reaches the top without a single root.
pub open spec fn pk_levels_adrs<H: Fn(&[u8]) -> [u8; 32]>(
    h: H,
    ctx: Seq<u8>,
    pre: Seq<u8>,
    sig: Seq<u8>,
    list: Seq<(u32, Seq<u8>)>,
    plist: Seq<(u32, Seq<u8>)>,
    cur: nat,
    b: nat,
    off: int,
    a: Seq<u8>,
) -> Seq<u8>
    decreases b - cur,
{
    if cur >= b {
        a
    } else {
        let a2 = pk_pass_adrs(pre, sig.len() as int, list, 0, cur as u32, off, a);
        match pk_pass(h, ctx, pre, sig, list, 0, cur as u32, off, Seq::empty()) {
            None => a2,
            Some(r) => {
                let nl = r.0 + plist;
                if nl.len() == 1 && nl[0].0 == 0 {
                    a2
                } else {
                    pk_levels_adrs(h, ctx, pre, sig, nl, Seq::empty(), cur + 1, b, r.1, a2)
                }
            },
        }
    }
}

/// The address that a failed public-key recovery leaves behind, from the
/// address `start`: `start` itself when the signature cannot hold the
/// revealed secrets, else that of the last node it set out to hash.
pub open spec fn pors_pk_err_adrs<H: Fn(&[u8]) -> [u8; 32]>(
    h: H,
    p: ParamSet,
    sig: Seq<u8>,
    indices: Seq<u32>,
    ctx: Seq<u8>,
    start: Seq<u8>,
) -> Seq<u8> {
    let pre = start.subrange(0, 16);
    if sig.len() < 32 + 16 * indices.len() {
        start
    } else {
        let a0 = if indices.len() > 0 {
            adrs_of(pre, PORS_HASH, 0, 0, indices.last())
        } else {
            start
        };
        let e = leaf_entries(h, ctx, pre, sig, indices);
        pk_levels_adrs(
            h,
            ctx,
            pre,
            sig,
            split_ie(p, e),
            split_pe(p, e),
            0,
            p.b as nat,
            32 + 16 * indices.len() as int,
            a0,
        )
    }
}

/// The PORS+FP public key that a signature gives for `indices`: the
/// compressed root rebuilt from the revealed leaves and the octopus path, or
/// `None` when the signature runs short or the walk breaks down.
pub open spec fn pors_pk_from_sig_spec<H: Fn(&[u8]) -> [u8; 32]>(
    h: H,
    p: ParamSet,
    sig: Seq<u8>,
    indices: Seq<u32>,
    ctx: Seq<u8>,
    pre: Seq<u8>,
) -> Option<Seq<u8>> {
    if sig.len() < 32 + 16 * indices.len() {
        None
    } else {
        let e = leaf_entries(h, ctx, pre, sig, indices);
        match pk_levels(
            h,
            ctx,
            pre,
            sig,
            split_ie(p, e),
            split_pe(p, e),
            0,
            p.b as nat,
            32 + 16 * indices.len() as int,
        ) {
            None => None,
            Some(fin) => if fin.len() != 1 {
                None
            } else {
                Some(hash_n(h, ctx + adrs_of(pre, PORS_PK, 0, 0, 0) + fin[0].1))
            },
        }
    }
}

/// Compress the rebuilt PORS+FP root into the PORS+FP public key.
fn pors_compress_root<H: Fn(&[u8]) -> [u8; 32]>(
    h: &H,
    hash_ctx: &Sha256Ctx,
    adrs: &mut Adrs,
    root: &Node,
) -> (res: Node)
    requires
        is_hash_fn(*h),
    ensures
        res@ == hash_n(*h, hash_ctx@ + adrs_of(old(adrs)@.subrange(0, 16), PORS_PK, 0, 0, 0) + root@),
        final(adrs)@ == adrs_of(old(adrs)@.subrange(0, 16), PORS_PK, 0, 0, 0),
        final(adrs)@.subrange(0, 16) == old(adrs)@.subrange(0, 16),
{
    let ghost pre = old(adrs)@.subrange(0, 16);
    set_type_and_clear(adrs, PORS_PK);
    proof {
        lemma_splice_tail(pre, PORS_PK, 0, 0, 0, 0);
    }
    let ctx = hash_ctx.add_to_ctx(adrs).add_to_ctx(root);
    finalize_node(h, &ctx)
}

/// Which entries of `list` pair up with a neighbouring sibling.
fn pairing(list: &Vec<(u32, Node)>) -> (paired: Vec<bool>)
    ensures
        paired@.len() == list@.len(),
        forall|j: int| 0 <= j < list@.len() ==> paired@[j] == is_paired(ents(list@), j),
{
    let ghost l = ents(list@);
    let n = list.len();
    let mut paired: Vec<bool> = Vec::new();
    let mut k: usize = 0;
    while k < n
        invariant
            n == list@.len(),
            0 <= k <= n,
            paired@.len() == k,
            forall|j: int| 0 <= j < k ==> paired@[j] == false,
        decreases n - k,
    {
        paired.push(false);
        k += 1;
    }
    let mut i: usize = 0;
    while i < n
        invariant
            n == list@.len(),
            l == ents(list@),
            0 <= i <= n,
            paired@.len() == n,
            forall|j: int| 0 <= j < i ==> paired@[j] == is_paired(l, j),
            i < n ==> paired@[i as int] == pairs_fwd(l, i - 1),
            forall|j: int| i < j < n ==> paired@[j] == false,
        decreases n - i,
    {
        if i + 1 < n && list[i + 1].0 == (list[i].0 ^ 1) {
            paired.set(i, true);
            paired.set(i + 1, true);
        }
        i += 1;
    }
    paired
}

/// Recover the PORS+FP public key from a signature for the revealed
/// `indices`: hash the revealed secrets, rebuild the root level by level
/// with the octopus path that follows them, and compress it.
///
/// A signature too short for its path, a path whose first node pairs with
/// a predecessor that does not exist, or a walk that does not end in a
/// single root gives `OctopusFailed`.
pub fn pors_pk_from_sig<P: Params, H: Fn(&[u8]) -> [u8; 32]>(
    h: &H,
    sig: &[u8],
    indices: &[u32],
    hash_ctx: &Sha256Ctx,
    adrs: &mut Adrs,
) -> (res: Result<Node, Error>)
    requires
        is_hash_fn(*h),
    ensures
        ({
            let spec = pors_pk_from_sig_spec(
                *h,
                P::spec_params(),
                sig@,
                indices@,
                hash_ctx@,
                old(adrs)@.subrange(0, 16),
            );
            match res {
                Ok(node) => spec == Some(node@),
                Err(e) => e == Error::OctopusFailed && spec is None,
            }
        }),
        res is Ok ==> final(adrs)@ == adrs_of(old(adrs)@.subrange(0, 16), PORS_PK, 0, 0, 0),
        res is Err ==> final(adrs)@ == pors_pk_err_adrs(
            *h,
            P::spec_params(),
            sig@,
            indices@,
            hash_ctx@,
            old(adrs)@,
        ),
        final(adrs)@.subrange(0, 16) == old(adrs)@.subrange(0, 16),
{
    let p = P::params();
    let ghost pre = old(adrs)@.subrange(0, 16);
    let ghost want = pors_pk_from_sig_spec(*h, p, sig@, indices@, hash_ctx@, pre);
    let ghost werr = pors_pk_err_adrs(*h, p, sig@, indices@, hash_ctx@, old(adrs)@);
    let hgt = tree_height::<P>();
    proof {
        vstd::arithmetic::power2::lemma2_to64();
        vstd::bits::lemma_usize_shl_is_mul(1, (hgt - 1) as usize);
    }
    let s = (p.t - (1usize << (hgt - 1))) as u32;
    assert(s as int == pors_s(p));
    let slen = sig.len();
    if slen < 32 || indices.len() > (slen - 32) / 16 {
        return Err(Error::OctopusFailed);
    }
    assert(indices@.len() * 16 <= slen - 32) by (nonlinear_arith)
        requires
            indices@.len() <= (slen - 32) / 16,
            slen >= 32,
    ;
    let ghost e = leaf_entries(*h, hash_ctx@, pre, sig@, indices@);
    let mut i_list: Vec<(u32, Node)> = Vec::new();
    let mut p_list: Vec<(u32, Node)> = Vec::new();
    let mut offset: usize = 32;
    let mut j: usize = 0;
    while j < indices.len()
        invariant
            is_hash_fn(*h),
            p == P::spec_params(),
            p.wf(),
            s as int == pors_s(p),
            slen == sig@.len(),
            indices@.len() * 16 <= slen - 32,
            0 <= j <= indices@.len(),
            offset == 32 + 16 * j,
            adrs@.subrange(0, 16) == pre,
            pre.len() == 16,
            e == leaf_entries(*h, hash_ctx@, pre, sig@, indices@),
            ents(i_list@) == split_ie(p, e.subrange(0, j as int)),
            ents(p_list@) == split_pe(p, e.subrange(0, j as int)),
            adrs@ == if j == 0 {
                old(adrs)@
            } else {
                adrs_of(pre, PORS_HASH, 0, 0, indices@[j - 1])
            },
        decreases indices@.len() - j,
    {
        let k = indices[j];
        let sk_i = crate::wots_c::read_node(sig, offset);
        offset += 16;
        let ghost a0 = adrs@;
        set_type_and_clear(adrs, PORS_HASH);
        set_key_pair_address(adrs, 0);
        set_tree_height(adrs, 0);
        set_tree_index(adrs, k);
        proof {
            lemma_splice_tail(pre, PORS_HASH, 0, 0, 0, 0);
            lemma_splice_tail(pre, PORS_HASH, 0, 0, 0, k);
        }
        let ctx = hash_ctx.add_to_ctx(adrs).add_to_ctx(&sk_i);
        let val = finalize_node(h, &ctx);
        proof {
            assert(e.subrange(0, j + 1).drop_last() =~= e.subrange(0, j as int));
            assert(e[j as int] == (k, val@));
        }
        if k < 2 * s {
            i_list.push((k, val));
            assert(ents(i_list@) =~= split_ie(p, e.subrange(0, j as int)).push((k, val@)));
        } else {
            p_list.push((k - s, val));
            assert(ents(p_list@) =~= split_pe(p, e.subrange(0, j as int)).push(((k - s) as u32, val@)));
        }
        j += 1;
    }
    assert(e.subrange(0, j as int) =~= e);
    let mut cur: u32 = 0;
    while (cur as usize) < hgt
        invariant
            is_hash_fn(*h),
            p == P::spec_params(),
            p.wf(),
            hgt == p.b,
            0 <= cur <= hgt,
            slen == sig@.len(),
            offset <= slen,
            adrs@.subrange(0, 16) == pre,
            pre == old(adrs)@.subrange(0, 16),
            pre.len() == 16,
            werr == pk_levels_adrs(
                *h,
                hash_ctx@,
                pre,
                sig@,
                ents(i_list@),
                ents(p_list@),
                cur as nat,
                p.b as nat,
                offset as int,
                adrs@,
            ),
            want == pors_pk_from_sig_spec(*h, p, sig@, indices@, hash_ctx@, pre),
            werr == pors_pk_err_adrs(*h, p, sig@, indices@, hash_ctx@, old(adrs)@),
            want == match pk_levels(
                *h,
                hash_ctx@,
                pre,
                sig@,
                ents(i_list@),
                ents(p_list@),
                cur as nat,
                p.b as nat,
                offset as int,
            ) {
                None => None::<Seq<u8>>,
                Some(fin) => if fin.len() != 1 {
                    None
                } else {
                    Some(hash_n(*h, hash_ctx@ + adrs_of(pre, PORS_PK, 0, 0, 0) + fin[0].1))
                },
            },
        decreases hgt - cur,
    {
        let ghost l = ents(i_list@);
        let ghost off0 = offset as int;
        let ghost pa = adrs@;
        let paired = pairing(&i_list);
        let mut p_next: Vec<(u32, Node)> = Vec::new();
        assert(ents(p_next@) =~= Seq::<(u32, Seq<u8>)>::empty());
        let n = i_list.len();
        let mut i: usize = 0;
        while i < n
            invariant
                is_hash_fn(*h),
                p == P::spec_params(),
                p.wf(),
                hgt == p.b,
                cur < hgt,
                want == pors_pk_from_sig_spec(*h, p, sig@, indices@, hash_ctx@, pre),
                werr == pors_pk_err_adrs(*h, p, sig@, indices@, hash_ctx@, old(adrs)@),
                want == match pk_levels(
                    *h,
                    hash_ctx@,
                    pre,
                    sig@,
                    l,
                    ents(p_list@),
                    cur as nat,
                    p.b as nat,
                    off0,
                ) {
                    None => None::<Seq<u8>>,
                    Some(fin) => if fin.len() != 1 {
                        None
                    } else {
                        Some(hash_n(*h, hash_ctx@ + adrs_of(pre, PORS_PK, 0, 0, 0) + fin[0].1))
                    },
                },
                n == i_list@.len(),
                l == ents(i_list@),
                paired@.len() == n,
                forall|jj: int| 0 <= jj < n ==> paired@[jj] == is_paired(l, jj),
                0 <= i <= n,
                cur < 32,
                slen == sig@.len(),
                offset <= slen,
                adrs@.subrange(0, 16) == pre,
                pre == old(adrs)@.subrange(0, 16),
                pre.len() == 16,
                werr == pk_levels_adrs(
                    *h,
                    hash_ctx@,
                    pre,
                    sig@,
                    l,
                    ents(p_list@),
                    cur as nat,
                    p.b as nat,
                    off0,
                    pa,
                ),
                pk_pass_adrs(pre, slen as int, l, 0, cur, off0, pa) == pk_pass_adrs(
                    pre,
                    slen as int,
                    l,
                    i as nat,
                    cur,
                    offset as int,
                    adrs@,
                ),
                pk_pass(*h, hash_ctx@, pre, sig@, l, 0, cur, off0, Seq::empty()) == pk_pass(
                    *h,
                    hash_ctx@,
                    pre,
                    sig@,
                    l,
                    i as nat,
                    cur,
                    offset as int,
                    ents(p_next@),
                ),
            decreases n - i,
        {
            let (idx, val) = i_list[i];
            let even = (idx & 1u32) == 0;
            let ghost ai = adrs@;
            assert(l[i as int] == (idx, val@));
            if paired[i] && even {
                i += 1;
            } else {
                set_type_and_clear(adrs, PORS_TREE);
                set_key_pair_address(adrs, 0);
                set_tree_height(adrs, cur + 1);
                set_tree_index(adrs, idx >> 1u32);
                proof {
                    lemma_splice_tail(pre, PORS_TREE, 0, 0, 0, 0);
                    lemma_splice_tail(pre, PORS_TREE, 0, 0, 0, (cur + 1) as u32);
                    lemma_splice_tail(pre, PORS_TREE, 0, (cur + 1) as u32, 0, idx >> 1);
                    lemma_splice_tail(pre, PORS_TREE, 0, (cur + 1) as u32, idx >> 1, 0);
                    assert(adrs@ == adrs_of(pre, PORS_TREE, 0, (cur + 1) as u32, idx >> 1u32));
                }
                let base = hash_ctx.add_to_ctx(adrs);
                let parent = if paired[i] {
                    if i == 0 {
                        assert(adrs@.subrange(0, 16) == pre);
                        assert(pk_pass(*h, hash_ctx@, pre, sig@, l, i as nat, cur, offset as int, ents(p_next@)) is None);
                        assert(pk_pass_adrs(pre, slen as int, l, i as nat, cur, offset as int, ai) == adrs@);
                        assert(werr == pk_pass_adrs(pre, slen as int, l, 0, cur, off0, pa));
                        return Err(Error::OctopusFailed);
                    }
                    let left = i_list[i - 1].1;
                    let ctx = base.add_to_ctx(&left).add_to_ctx(&val);
                    finalize_node(h, &ctx)
                } else {
                    if slen - offset < 16 {
                        assert(adrs@.subrange(0, 16) == pre);
                        assert(pk_pass(*h, hash_ctx@, pre, sig@, l, i as nat, cur, offset as int, ents(p_next@)) is None);
                        assert(pk_pass_adrs(pre, slen as int, l, i as nat, cur, offset as int, ai) == adrs@);
                        assert(werr == pk_pass_adrs(pre, slen as int, l, 0, cur, off0, pa));
                        return Err(Error::OctopusFailed);
                    }
                    let auth = crate::wots_c::read_node(sig, offset);
                    offset += 16;
                    let ctx = if even {
                        base.add_to_ctx(&val).add_to_ctx(&auth)
                    } else {
                        base.add_to_ctx(&auth).add_to_ctx(&val)
                    };
                    finalize_node(h, &ctx)
                };
                let ghost before = p_next@;
                p_next.push((idx >> 1u32, parent));
                assert(ents(p_next@) =~= ents(before).push((idx >> 1, parent@)));
                i += 1;
            }
        }
        let ghost nl = ents(p_next@) + ents(p_list@);
        i_list = p_next;
        i_list.append(&mut p_list);
        assert(ents(i_list@) =~= nl);
        assert(ents(p_list@) =~= Seq::<(u32, Seq<u8>)>::empty());
        if i_list.len() == 1 && i_list[0].0 == 0 {
            let root = i_list[0].1;
            return Ok(pors_compress_root(h, hash_ctx, adrs, &root));
        }
        cur += 1;
    }
    if i_list.len() != 1 {
        return Err(Error::OctopusFailed);
    }
    let root = i_list[0].1;
    Ok(pors_compress_root(h, hash_ctx, adrs, &root))
}

/// Every octopus entry `(level, idx)` of a pass over entries below
/// `2^(b - cur)` sits below level `b` with `idx < 2^(b - level)`.
pub open spec fn octo_fits(a: Seq<(u32, u32)>, b: nat) -> bool {
    forall|k: int|
        0 <= k < a.len() ==> (#[trigger] a[k]).0 < b && (a[k].1 as int) < p2((b - a[k].0) as nat)
}

pub open spec fn values_below(list: Seq<(u32, u32)>, bound: int) -> bool {
    forall|k: int| 0 <= k < list.len() ==> ((#[trigger] list[k]).1 as int) < bound
}

pub proof fn lemma_octo_pass_fits(
    list: Seq<(u32, u32)>,
    i: nat,
    cur: u32,
    a: Seq<(u32, u32)>,
    next: Seq<(u32, u32)>,
    m: nat,
    b: nat,
)
    requires
        cur < b <= 32,
        values_below(list, p2((b - cur) as nat)),
        values_below(next, p2((b - cur - 1) as nat)),
        octo_fits(a, b),
    ensures
        octo_pass(list, i, cur, a, next, m) matches Some(r) ==> octo_fits(r.0, b) && values_below(
            r.1,
            p2((b - cur - 1) as nat),
        ),
    decreases list.len() - i,
{
    if i < list.len() {
        let e = list[i as int];
        let sib = e.1 ^ 1u32;
        let k = (b - cur - 1) as nat;
        vstd::arithmetic::power2::lemma_pow2_unfold((b - cur) as nat);
        vstd::bits::lemma_u32_pow2_no_overflow(k);
        vstd::arithmetic::power2::lemma_pow2_pos(k);
        let x = e.1;
        assert(x >> 1u32 == x / 2) by (bit_vector);
        assert((x ^ 1u32) == if x % 2 == 0 { (x + 1) as u32 } else { (x - 1) as u32 }) by (bit_vector);
        let nxt = next.push(((e.0 + 1) as u32, e.1 >> 1u32));
        if i + 1 < list.len() && list[i + 1 as int].1 == sib {
            lemma_octo_pass_fits(list, i + 2, cur, a, nxt, m, b);
        } else if a.len() < m {
            lemma_octo_pass_fits(list, i + 1, cur, a.push((cur, sib)), nxt, m, b);
        }
    }
}

pub proof fn lemma_octo_levels_fits(
    list: Seq<(u32, u32)>,
    plist: Seq<(u32, u32)>,
    cur: nat,
    b: nat,
    a: Seq<(u32, u32)>,
    m: nat,
)
    requires
        1 <= b <= 32,
        cur <= b,
        values_below(list, p2((b - cur) as nat)),
        values_below(plist, p2((b - 1) as nat)),
        cur > 0 ==> plist.len() == 0,
        octo_fits(a, b),
    ensures
        octo_levels(list, plist, cur, b, a, m) matches Some(r) ==> octo_fits(r, b),
    decreases b - cur,
{
    if cur < b {
        assert(values_below(Seq::<(u32, u32)>::empty(), p2((b - cur - 1) as nat)));
        lemma_octo_pass_fits(list, 0, cur as u32, a, Seq::empty(), m, b);
        match octo_pass(list, 0, cur as u32, a, Seq::empty(), m) {
            None => {},
            Some(r) => {
                let nl = r.1 + plist;
                assert(values_below(nl, p2((b - (cur + 1)) as nat))) by {
                    assert forall|k: int| 0 <= k < nl.len() implies ((#[trigger] nl[k]).1 as int) < p2(
                        (b - (cur + 1)) as nat,
                    ) by {
                        if k >= r.1.len() {
                            assert(nl[k] == plist[k - r.1.len()]);
                        }
                    }
                }
                if !(nl.len() == 1 && nl[0].1 == 0) {
                    lemma_octo_levels_fits(nl, Seq::empty(), cur + 1, b, r.0, m);
                }
            },
        }
    }
}

pub proof fn lemma_split_below(p: ParamSet, s: Seq<u32>)
    requires
        p.wf(),
        forall|k: int| 0 <= k < s.len() ==> (#[trigger] s[k] as int) < p.t,
    ensures
        values_below(split_i(p, s), p2(p.b as nat)),
        values_below(split_p(p, s), p2((p.b - 1) as nat)),
    decreases s.len(),
{
    vstd::arithmetic::power2::lemma2_to64();
    if s.len() > 0 {
        lemma_split_below(p, s.drop_last());
    }
}

/// The octopus path of indices below `t`: each node `(level, idx)` has
/// `level < b` and lies within the tree, `(idx + 1) 2^level <= 2^b`.
pub proof fn lemma_octopus_fits(p: ParamSet, indices: Seq<u32>)
    requires
        p.wf(),
        forall|k: int| 0 <= k < indices.len() ==> (#[trigger] indices[k] as int) < p.t,
    ensures
        pors_octopus_spec(p, indices) matches Some(a) ==> octo_fits(a, p.b as nat),
        pors_octopus_spec(p, indices) matches Some(a) ==> a.len() <= p.m_max,
{
    lemma_split_below(p, indices);
    vstd::arithmetic::power2::lemma2_to64();
    assert(octo_fits(Seq::empty(), p.b as nat));
    lemma_octo_levels_fits(
        split_i(p, indices),
        split_p(p, indices),
        0,
        p.b as nat,
        Seq::empty(),
        p.m_max as nat,
    );
    lemma_octo_levels_len(split_i(p, indices), split_p(p, indices), 0, p.b as nat, Seq::empty(), p.m_max as nat);
}

pub proof fn lemma_octo_pass_len(
    list: Seq<(u32, u32)>,
    i: nat,
    cur: u32,
    a: Seq<(u32, u32)>,
    next: Seq<(u32, u32)>,
    m: nat,
)
    requires
        a.len() <= m,
    ensures
        octo_pass(list, i, cur, a, next, m) matches Some(r) ==> r.0.len() <= m,
    decreases list.len() - i,
{
    if i < list.len() {
        let e = list[i as int];
        let sib = e.1 ^ 1u32;
        let nxt = next.push(((e.0 + 1) as u32, e.1 >> 1u32));
        if i + 1 < list.len() && list[i + 1 as int].1 == sib {
            lemma_octo_pass_len(list, i + 2, cur, a, nxt, m);
        } else if a.len() < m {
            lemma_octo_pass_len(list, i + 1, cur, a.push((cur, sib)), nxt, m);
        }
    }
}

pub proof fn lemma_octo_levels_len(
    list: Seq<(u32, u32)>,
    plist: Seq<(u32, u32)>,
    cur: nat,
    b: nat,
    a: Seq<(u32, u32)>,
    m: nat,
)
    requires
        a.len() <= m,
    ensures
        octo_levels(list, plist, cur, b, a, m) matches Some(r) ==> r.len() <= m,
    decreases b - cur,
{
    if cur < b {
        lemma_octo_pass_len(list, 0, cur as u32, a, Seq::empty(), m);
        match octo_pass(list, 0, cur as u32, a, Seq::empty(), m) {
            None => {},
            Some(r) => {
                let nl = r.1 + plist;
                if !(nl.len() == 1 && nl[0].1 == 0) {
                    lemma_octo_levels_len(nl, Seq::empty(), cur + 1, b, r.0, m);
                }
            },
        }
    }
}

/// The nodes named by an octopus path.
pub open spec fn pors_auth_nodes<H: Fn(&[u8]) -> [u8; 32]>(
    h: H,
    p: ParamSet,
    ctx: Seq<u8>,
    pre: Seq<u8>,
    sk_seed: Seq<u8>,
    a: Seq<(u32, u32)>,
) -> Seq<Seq<u8>> {
    Seq::new(a.len(), |k: int| pors_node(h, p, ctx, pre, sk_seed, a[k].0 as nat, a[k].1 as int))
}

/// The address that building the nodes of the path `a` in turn leaves
/// behind, from the address `start`: that of the last node, or `start`
/// when there is none.
pub open spec fn pors_path_adrs(p: ParamSet, start: Seq<u8>, a: Seq<(u32, u32)>) -> Seq<u8> {
    if a.len() == 0 {
        start
    } else {
        pors_node_adrs(p, start.subrange(0, 16), a.last().0 as nat, a.last().1 as int)
    }
}

/// An octopus node fits the arguments of `pors_treehash`.
pub proof fn lemma_fits_treehash(b: nat, lvl: u32, idx: u32)
    requires
        b <= 24,
        lvl < b,
        (idx as int) < p2((b - lvl) as nat),
    ensures
        lvl < 32,
        (idx + 1) * p2(lvl as nat) <= 0x1_0000_0000,
{
    vstd::arithmetic::power2::lemma_pow2_adds((b - lvl) as nat, lvl as nat);
    vstd::arithmetic::power2::lemma_pow2_pos(lvl as nat);
    vstd::arithmetic::power2::lemma2_to64();
    vstd::arithmetic::power2::lemma_pow2_strictly_increases(b, 32);
    assert((idx + 1) * p2(lvl as nat) <= p2((b - lvl) as nat) * p2(lvl as nat)) by (nonlinear_arith)
        requires
            idx + 1 <= p2((b - lvl) as nat),
            p2(lvl as nat) > 0,
    ;
}

/// The authentication nodes of the octopus path of `indices`, and how many
/// there are.
pub fn pors_auth_path<P: Params, H: Fn(&[u8]) -> [u8; 32]>(
    h: &H,
    sk_seed: &[u8],
    hash_ctx: &Sha256Ctx,
    adrs: &mut Adrs,
    indices: &[u32],
) -> (r: (Vec<u8>, usize))
    requires
        is_hash_fn(*h),
        forall|k: int| 0 <= k < indices@.len() ==> (#[trigger] indices@[k] as int) < P::spec_params().t,
        pors_octopus_spec(P::spec_params(), indices@) is Some,
    ensures
        ({
            let a = pors_octopus_spec(P::spec_params(), indices@)->0;
            &&& r.1 == a.len()
            &&& r.0@ == concat_nodes(
                pors_auth_nodes(
                    *h,
                    P::spec_params(),
                    hash_ctx@,
                    old(adrs)@.subrange(0, 16),
                    sk_seed@,
                    a,
                ),
            )
            &&& final(adrs)@ == pors_path_adrs(P::spec_params(), old(adrs)@, a)
        }),
        final(adrs)@.subrange(0, 16) == old(adrs)@.subrange(0, 16),
{
    let p = P::params();
    let ghost pre = old(adrs)@.subrange(0, 16);
    let a = match pors_octopus::<P>(indices) {
        Some(a) => a,
        None => {
            return (Vec::new(), 0);
        },
    };
    proof {
        lemma_octopus_fits(p, indices@);
    }
    let ghost nodes = pors_auth_nodes(*h, p, hash_ctx@, pre, sk_seed@, a@);
    let a_len = a.len();
    let mut auth: Vec<u8> = Vec::new();
    let mut k: usize = 0;
    while k < a_len
        invariant
            is_hash_fn(*h),
            p == P::spec_params(),
            p.wf(),
            a_len == a@.len(),
            octo_fits(a@, p.b as nat),
            0 <= k <= a_len,
            adrs@.subrange(0, 16) == pre,
            pre.len() == 16,
            nodes == pors_auth_nodes(*h, p, hash_ctx@, pre, sk_seed@, a@),
            auth@ == concat_nodes(nodes.subrange(0, k as int)),
            adrs@ == pors_path_adrs(p, old(adrs)@, a@.subrange(0, k as int)),
        decreases a_len - k,
    {
        let (lvl, idx) = a[k];
        proof {
            assert(a@[k as int] == (lvl, idx));
            lemma_fits_treehash(p.b as nat, lvl, idx);
        }
        let tmp = pors_treehash::<P, H>(h, sk_seed, hash_ctx, adrs, lvl, idx);
        proof {
            pors_node_adrs_prefix(p, pre, lvl as nat, idx as int);
            assert(a@.subrange(0, k + 1).last() == (lvl, idx));
        }
        append_bytes(&mut auth, &tmp);
        proof {
            lemma_concat_nodes_push(nodes.subrange(0, k as int), nodes[k as int]);
            assert(nodes.subrange(0, k + 1) =~= nodes.subrange(0, k as int).push(nodes[k as int]));
        }
        k += 1;
    }
    assert(nodes.subrange(0, k as int) =~= nodes);
    assert(a@.subrange(0, k as int) =~= a@);
    (auth, a_len)
}

pub proof fn lemma_collect_block_below(p: ParamSet, idx: Seq<u32>, block: Seq<u8>, i: nat)
    requires
        forall|k: int| 0 <= k < idx.len() ==> (#[trigger] idx[k] as int) < p.t,
    ensures
        forall|k: int|
            0 <= k < collect_block(p, idx, block, i).len() ==> (#[trigger] collect_block(
                p,
                idx,
                block,
                i,
            )[k] as int) < p.t,
    decreases p.spec_c() - i,
{
    if !(i >= p.spec_c() || idx.len() >= p.k) {
        let c = candidate(p, block, i as int);
        let nidx = if (c as int) < p.t && !idx.contains(c) { idx.push(c) } else { idx };
        assert forall|k: int| 0 <= k < nidx.len() implies (#[trigger] nidx[k] as int) < p.t by {
            if k < idx.len() {
                assert(nidx[k] == idx[k]);
            }
        }
        lemma_collect_block_below(p, nidx, block, i + 1);
        assert(collect_block(p, idx, block, i) == collect_block(p, nidx, block, i + 1));
    } else {
        assert(collect_block(p, idx, block, i) == idx);
    }
}

pub proof fn lemma_collect_below<H: Fn(&[u8]) -> [u8; 32]>(h: H, p: ParamSet, c: Seq<u8>, n: nat)
    ensures
        forall|k: int|
            0 <= k < collect_upto(h, p, c, n).len() ==> (#[trigger] collect_upto(h, p, c, n)[k] as int)
                < p.t,
    decreases n,
{
    if n > 0 {
        lemma_collect_below(h, p, c, (n - 1) as nat);
        lemma_collect_block_below(p, collect_upto(h, p, c, (n - 1) as nat), xof_block(h, c, n - 1), 0);
    }
}

/// The selected indices are all below `t`, and there are at most `k` of them.
pub proof fn lemma_indices_below<H: Fn(&[u8]) -> [u8; 32]>(h: H, p: ParamSet, c: Seq<u8>)
    ensures
        forall|k: int|
            0 <= k < msg_indices_spec(h, p, c).len() ==> (#[trigger] msg_indices_spec(h, p, c)[k] as int)
                < p.t,
        msg_indices_spec(h, p, c).len() <= p.k,
{
    let fin = collect_upto(h, p, c, 0x1_0000_0000);
    lemma_collect_below(h, p, c, 0x1_0000_0000);
    lemma_collect_len(h, p, c, 0x1_0000_0000);
    if fin.len() == p.k {
        lemma_leq_total();
        fin.lemma_sort_by_ensures(leq_u32());
        let sorted = fin.sort_by(leq_u32());
        assert forall|k: int| 0 <= k < sorted.len() implies (#[trigger] sorted[k] as int) < p.t by {
            assert(sorted.contains(sorted[k]));
            assert(fin.contains(sorted[k]));
        }
        assert(sorted.len() == fin.len()) by {
            broadcast use vstd::seq_lib::group_to_multiset_ensures;

            assert(sorted.to_multiset().len() == fin.to_multiset().len());
        }
    }
}

pub proof fn lemma_collect_block_distinct(p: ParamSet, idx: Seq<u32>, block: Seq<u8>, i: nat)
    requires
        idx.no_duplicates(),
    ensures
        collect_block(p, idx, block, i).no_duplicates(),
    decreases p.spec_c() - i,
{
    if !(i >= p.spec_c() || idx.len() >= p.k) {
        let c = candidate(p, block, i as int);
        if (c as int) < p.t && !idx.contains(c) {
            assert(idx.push(c).no_duplicates()) by {
                assert forall|a: int, b: int|
                    0 <= a < b < idx.push(c).len() implies idx.push(c)[a] != idx.push(c)[b] by {
                    if b == idx.len() {
                        assert(idx.contains(idx[a]));
                    }
                }
            }
            lemma_collect_block_distinct(p, idx.push(c), block, i + 1);
        } else {
            lemma_collect_block_distinct(p, idx, block, i + 1);
        }
    }
}

pub proof fn lemma_collect_distinct<H: Fn(&[u8]) -> [u8; 32]>(h: H, p: ParamSet, c: Seq<u8>, n: nat)
    ensures
        collect_upto(h, p, c, n).no_duplicates(),
    decreases n,
{
    if n > 0 {
        lemma_collect_distinct(h, p, c, (n - 1) as nat);
        lemma_collect_block_distinct(p, collect_upto(h, p, c, (n - 1) as nat), xof_block(h, c, n - 1), 0);
    }
}

/// The indices that a digest selects are distinct and below `t`, at most
/// `k` of them; when there are `k` (that is, unless the `2^32` XOF blocks
/// run out first) they come in strictly increasing order.
pub proof fn lemma_msg_indices<H: Fn(&[u8]) -> [u8; 32]>(h: H, p: ParamSet, c: Seq<u8>)
    ensures
        ({
            let idx = msg_indices_spec(h, p, c);
            &&& idx.len() <= p.k
            &&& idx.no_duplicates()
            &&& forall|j: int| 0 <= j < idx.len() ==> (#[trigger] idx[j] as int) < p.t
            &&& idx.len() == p.k ==> forall|a: int, b: int|
                0 <= a < b < idx.len() ==> #[trigger] idx[a] < #[trigger] idx[b]
        }),
{
    let fin = collect_upto(h, p, c, 0x1_0000_0000);
    lemma_indices_below(h, p, c);
    lemma_collect_distinct(h, p, c, 0x1_0000_0000);
    if fin.len() == p.k {
        lemma_leq_total();
        fin.lemma_sort_by_ensures(leq_u32());
        let sorted = fin.sort_by(leq_u32());
        assert(sorted.to_multiset() == fin.to_multiset());
        fin.lemma_multiset_has_no_duplicates();
        sorted.lemma_multiset_has_no_duplicates_conv();
        assert forall|a: int, b: int| 0 <= a < b < sorted.len() implies #[trigger] sorted[a]
            < #[trigger] sorted[b] by {
            assert(sorted_by(sorted, leq_u32()));
            assert((leq_u32())(sorted[a], sorted[b]));
        }
    }
}

/// The 16 zero bytes of a fresh address's first half.
pub open spec fn zero_prefix() -> Seq<u8> {
    Seq::new(16, |i: int| 0u8)
}

/// The randomizer tried for counter `ctr`.
pub open spec fn pors_r<H: Fn(&[u8]) -> [u8; 32]>(
    h: H,
    message: Seq<u8>,
    sk_prf: Seq<u8>,
    pk_seed: Seq<u8>,
    opt_rand: Seq<u8>,
    ctr: u32,
) -> Seq<u8> {
    prf_stream(h, prf_input(sk_prf, pk_seed, opt_rand, message, true, ctr), R_LEN as nat)
}

/// The 32-byte message digest for randomizer `r`.
pub open spec fn pors_digest<H: Fn(&[u8]) -> [u8; 32]>(
    h: H,
    ctx: Seq<u8>,
    pre: Seq<u8>,
    r: Seq<u8>,
    pk_root: Seq<u8>,
    message: Seq<u8>,
) -> Seq<u8> {
    digest(h, ctx + adrs_of(pre, SL_H_MSG, 0, 0, 0) + r + pk_root + message)
}

/// The indices that a digest selects.
pub open spec fn pors_indices<H: Fn(&[u8]) -> [u8; 32]>(
    h: H,
    p: ParamSet,
    ctx: Seq<u8>,
    dg: Seq<u8>,
) -> Seq<u32> {
    msg_indices_spec(h, p, xof_input(ctx, zero_prefix(), dg))
}

/// Counter `ctr` gives indices whose octopus path fits in `m_max` nodes.
pub open spec fn pors_try<H: Fn(&[u8]) -> [u8; 32]>(
    h: H,
    p: ParamSet,
    ctx: Seq<u8>,
    pre: Seq<u8>,
    message: Seq<u8>,
    sk_prf: Seq<u8>,
    pk_seed: Seq<u8>,
    pk_root: Seq<u8>,
    opt_rand: Seq<u8>,
    ctr: u32,
) -> bool {
    let r = pors_r(h, message, sk_prf, pk_seed, opt_rand, ctr);
    pors_octopus_spec(p, pors_indices(h, p, ctx, pors_digest(h, ctx, pre, r, pk_root, message))) is Some
}

/// `ctr` is the smallest counter that succeeds.
pub open spec fn pors_first<H: Fn(&[u8]) -> [u8; 32]>(
    h: H,
    p: ParamSet,
    ctx: Seq<u8>,
    pre: Seq<u8>,
    message: Seq<u8>,
    sk_prf: Seq<u8>,
    pk_seed: Seq<u8>,
    pk_root: Seq<u8>,
    opt_rand: Seq<u8>,
    ctr: u32,
) -> bool {
    &&& pors_try(h, p, ctx, pre, message, sk_prf, pk_seed, pk_root, opt_rand, ctr)
    &&& forall|c: u32|
        c < ctr ==> !#[trigger] pors_try(h, p, ctx, pre, message, sk_prf, pk_seed, pk_root, opt_rand, c)
}

/// Some counter succeeds.
pub open spec fn pors_possible<H: Fn(&[u8]) -> [u8; 32]>(
    h: H,
    p: ParamSet,
    ctx: Seq<u8>,
    pre: Seq<u8>,
    message: Seq<u8>,
    sk_prf: Seq<u8>,
    pk_seed: Seq<u8>,
    pk_root: Seq<u8>,
    opt_rand: Seq<u8>,
) -> bool {
    exists|c: u32| #[trigger] pors_try(h, p, ctx, pre, message, sk_prf, pk_seed, pk_root, opt_rand, c)
}

/// The smallest counter that succeeds.
pub open spec fn pors_grind_ctr<H: Fn(&[u8]) -> [u8; 32]>(
    h: H,
    p: ParamSet,
    ctx: Seq<u8>,
    pre: Seq<u8>,
    message: Seq<u8>,
    sk_prf: Seq<u8>,
    pk_seed: Seq<u8>,
    pk_root: Seq<u8>,
    opt_rand: Seq<u8>,
) -> u32 {
    choose|c: u32| #[trigger] pors_first(h, p, ctx, pre, message, sk_prf, pk_seed, pk_root, opt_rand, c)
}

pub proof fn lemma_pors_first<H: Fn(&[u8]) -> [u8; 32]>(
    h: H,
    p: ParamSet,
    ctx: Seq<u8>,
    pre: Seq<u8>,
    message: Seq<u8>,
    sk_prf: Seq<u8>,
    pk_seed: Seq<u8>,
    pk_root: Seq<u8>,
    opt_rand: Seq<u8>,
    c: u32,
)
    requires
        pors_try(h, p, ctx, pre, message, sk_prf, pk_seed, pk_root, opt_rand, c),
    ensures
        pors_first(
            h,
            p,
            ctx,
            pre,
            message,
            sk_prf,
            pk_seed,
            pk_root,
            opt_rand,
            pors_grind_ctr(h, p, ctx, pre, message, sk_prf, pk_seed, pk_root, opt_rand),
        ),
    decreases c,
{
    if exists|c2: u32|
        c2 < c && #[trigger] pors_try(h, p, ctx, pre, message, sk_prf, pk_seed, pk_root, opt_rand, c2) {
        let c2 = choose|c2: u32|
            c2 < c && #[trigger] pors_try(h, p, ctx, pre, message, sk_prf, pk_seed, pk_root, opt_rand, c2);
        lemma_pors_first(h, p, ctx, pre, message, sk_prf, pk_seed, pk_root, opt_rand, c2);
    } else {
        assert(pors_first(h, p, ctx, pre, message, sk_prf, pk_seed, pk_root, opt_rand, c));
    }
}

pub proof fn lemma_pors_first_unique<H: Fn(&[u8]) -> [u8; 32]>(
    h: H,
    p: ParamSet,
    ctx: Seq<u8>,
    pre: Seq<u8>,
    message: Seq<u8>,
    sk_prf: Seq<u8>,
    pk_seed: Seq<u8>,
    pk_root: Seq<u8>,
    opt_rand: Seq<u8>,
    c: u32,
)
    requires
        pors_first(h, p, ctx, pre, message, sk_prf, pk_seed, pk_root, opt_rand, c),
    ensures
        pors_grind_ctr(h, p, ctx, pre, message, sk_prf, pk_seed, pk_root, opt_rand) == c,
{
    lemma_pors_first(h, p, ctx, pre, message, sk_prf, pk_seed, pk_root, opt_rand, c);
    let g = pors_grind_ctr(h, p, ctx, pre, message, sk_prf, pk_seed, pk_root, opt_rand);
    if g < c {
        assert(!pors_try(h, p, ctx, pre, message, sk_prf, pk_seed, pk_root, opt_rand, g));
    } else if c < g {
        assert(!pors_try(h, p, ctx, pre, message, sk_prf, pk_seed, pk_root, opt_rand, c));
    }
}

/// Result of a successful [`pors_grind`]: the randomizer `r`, the 32-byte
/// digest, and the sorted `k` indices.
pub type PorsGrindResult = ([u8; 32], [u8; 32], Vec<u32>);

/// Try the counters `0, 1, ..., 2^32 - 1` in turn for a randomizer whose
/// indices admit an octopus path of at most `m_max` nodes.
pub fn pors_grind<P: Params, H: Fn(&[u8]) -> [u8; 32]>(
    h: &H,
    message: &[u8],
    sk_prf: &[u8],
    pk_seed: &[u8],
    pk_root: &[u8],
    adrs: &mut Adrs,
    opt_rand: &[u8],
    hash_ctx: &Sha256Ctx,
) -> (res: Result<PorsGrindResult, Error>)
    requires
        is_hash_fn(*h),
    ensures
        ({
            let p = P::spec_params();
            let pre = old(adrs)@.subrange(0, 16);
            let ctx = hash_ctx@;
            match res {
                Ok((r, dg, idx)) => {
                    let ctr = pors_grind_ctr(
                        *h,
                        p,
                        ctx,
                        pre,
                        message@,
                        sk_prf@,
                        pk_seed@,
                        pk_root@,
                        opt_rand@,
                    );
                    &&& pors_possible(*h, p, ctx, pre, message@, sk_prf@, pk_seed@, pk_root@, opt_rand@)
                    &&& r@ == pors_r(*h, message@, sk_prf@, pk_seed@, opt_rand@, ctr)
                    &&& dg@ == pors_digest(*h, ctx, pre, r@, pk_root@, message@)
                    &&& idx@ == pors_indices(*h, p, ctx, dg@)
                },
                Err(e) => e == Error::GrindFailed && !pors_possible(
                    *h,
                    p,
                    ctx,
                    pre,
                    message@,
                    sk_prf@,
                    pk_seed@,
                    pk_root@,
                    opt_rand@,
                ),
            }
        }),
        final(adrs)@ == adrs_of(old(adrs)@.subrange(0, 16), SL_H_MSG, 0, 0, 0),
{
    let p = P::params();
    let ghost pre = old(adrs)@.subrange(0, 16);
    set_type_and_clear(adrs, SL_H_MSG);
    proof {
        lemma_splice_tail(pre, SL_H_MSG, 0, 0, 0, 0);
    }
    let ctx = hash_ctx.add_to_ctx(adrs);
    let nxof = p.xof_block_idx() * 32;
    let mut n: u64 = 0;
    while n < 0x1_0000_0000
        invariant
            is_hash_fn(*h),
            p == P::spec_params(),
            p.wf(),
            nxof == 64,
            nxof as int == p.spec_xof_block_idx() * 32,
            pre == old(adrs)@.subrange(0, 16),
            adrs@ == adrs_of(pre, SL_H_MSG, 0, 0, 0),
            ctx@ == hash_ctx@ + adrs_of(pre, SL_H_MSG, 0, 0, 0),
            0 <= n <= 0x1_0000_0000,
            forall|c: u32|
                (c as int) < n ==> !#[trigger] pors_try(
                    *h,
                    p,
                    hash_ctx@,
                    pre,
                    message@,
                    sk_prf@,
                    pk_seed@,
                    pk_root@,
                    opt_rand@,
                    c,
                ),
        decreases 0x1_0000_0000 - n,
    {
        let ctr = n as u32;
        let mut r = [0u8; 32];
        prf_msg(h, sk_prf, pk_seed, opt_rand, message, true, ctr, R_LEN, &mut r);
        assert(r@ =~= pors_r(*h, message@, sk_prf@, pk_seed@, opt_rand@, ctr));
        let ctx_ = ctx.add_to_ctx(&r).add_to_ctx(pk_root).add_to_ctx(message);
        let digest = finalize_full(h, &ctx_);
        let mut local_xof = crate::wots_c::zero_bytes(nxof);
        let mut local_adrs: Adrs = [0u8; 32];
        assert(local_adrs@.subrange(0, 16) =~= zero_prefix());
        let indices = pors_msg_to_indices::<P, H>(
            h,
            &digest,
            &mut local_adrs,
            hash_ctx,
            local_xof.as_mut_slice(),
        );
        if pors_octopus::<P>(indices.as_slice()).is_some() {
            proof {
                assert(pors_first(
                    *h,
                    p,
                    hash_ctx@,
                    pre,
                    message@,
                    sk_prf@,
                    pk_seed@,
                    pk_root@,
                    opt_rand@,
                    ctr,
                ));
                lemma_pors_first_unique(
                    *h,
                    p,
                    hash_ctx@,
                    pre,
                    message@,
                    sk_prf@,
                    pk_seed@,
                    pk_root@,
                    opt_rand@,
                    ctr,
                );
            }
            return Ok((r, digest, indices));
        }
        n += 1;
    }
    Err(Error::GrindFailed)
}


// ----------------------------------------------------------------------------
// Checkpoint cache
// ----------------------------------------------------------------------------

/// The roots of all PORS+FP subtrees at the checkpoint height, in index order:
/// `2^(b - pors_checkpoint)` nodes.
pub open spec fn pors_checkpoint_spec<H: Fn(&[u8]) -> [u8; 32]>(
    h: H,
    p: ParamSet,
    ctx: Seq<u8>,
    pre: Seq<u8>,
    sk_seed: Seq<u8>,
) -> Seq<u8> {
    concat_nodes(
        Seq::new(
            p2((p.b - p.pors_checkpoint) as nat) as nat,
            |i: int| pors_node(h, p, ctx, pre, sk_seed, p.pors_checkpoint as nat, i),
        ),
    )
}

/// The node at `height`, `idx` as the cached tree hash builds it: below the
/// checkpoint height the PORS+FP node, at it the `idx`-th node of `cache`,
/// and above it the compression of its two children.
pub open spec fn pors_node_cached<H: Fn(&[u8]) -> [u8; 32]>(
    h: H,
    p: ParamSet,
    ctx: Seq<u8>,
    pre: Seq<u8>,
    sk_seed: Seq<u8>,
    cache: Seq<u8>,
    height: nat,
    idx: int,
) -> Seq<u8>
    decreases height,
{
    if height < p.pors_checkpoint {
        pors_node(h, p, ctx, pre, sk_seed, height, idx)
    } else if height == p.pors_checkpoint {
        cache.subrange(16 * idx, 16 * idx + 16)
    } else {
        pors_parent(
            h,
            ctx,
            pre,
            height as int,
            idx,
            pors_node_cached(h, p, ctx, pre, sk_seed, cache, (height - 1) as nat, 2 * idx),
            pors_node_cached(h, p, ctx, pre, sk_seed, cache, (height - 1) as nat, 2 * idx + 1),
        )
    }
}

/// Every PORS+FP node is 16 bytes long.
pub proof fn lemma_pors_node_len<H: Fn(&[u8]) -> [u8; 32]>(
    h: H,
    p: ParamSet,
    ctx: Seq<u8>,
    pre: Seq<u8>,
    sk_seed: Seq<u8>,
    height: nat,
    idx: int,
)
    ensures
        pors_node(h, p, ctx, pre, sk_seed, height, idx).len() == 16,
{
    crate::hash::lemma_digest_len(h, ctx + adrs_of(pre, PORS_HASH, 0, 0, idx as u32) + pors_sk(
        h,
        ctx,
        pre,
        sk_seed,
        idx,
    ));
    crate::hash::lemma_digest_len(
        h,
        ctx + adrs_of(pre, PORS_HASH, 0, 0, (pors_s(p) + idx) as u32) + pors_sk(
            h,
            ctx,
            pre,
            sk_seed,
            pors_s(p) + idx,
        ),
    );
    if height > 0 {
        crate::hash::lemma_digest_len(
            h,
            ctx + adrs_of(pre, PORS_TREE, 0, height as u32, idx as u32) + pors_node(
                h,
                p,
                ctx,
                pre,
                sk_seed,
                (height - 1) as nat,
                2 * idx,
            ) + pors_node(h, p, ctx, pre, sk_seed, (height - 1) as nat, 2 * idx + 1),
        );
    }
}

/// With the cache of checkpoint roots that `pors_checkpoint_roots` computes,
/// the cached tree hash gives exactly the PORS+FP node, at every height up
/// to the root and every position of the tree.
pub proof fn lemma_pors_node_cached<H: Fn(&[u8]) -> [u8; 32]>(
    h: H,
    p: ParamSet,
    ctx: Seq<u8>,
    pre: Seq<u8>,
    sk_seed: Seq<u8>,
    height: nat,
    idx: int,
)
    requires
        p.wf(),
        height <= p.b,
        0 <= idx < p2((p.b - height) as nat),
    ensures
        pors_node_cached(
            h,
            p,
            ctx,
            pre,
            sk_seed,
            pors_checkpoint_spec(h, p, ctx, pre, sk_seed),
            height,
            idx,
        ) == pors_node(h, p, ctx, pre, sk_seed, height, idx),
    decreases height,
{
    let ck = p.pors_checkpoint;
    let cache = pors_checkpoint_spec(h, p, ctx, pre, sk_seed);
    if height < ck {
    } else if height == ck {
        let nodes = Seq::new(
            p2((p.b - ck) as nat) as nat,
            |i: int| pors_node(h, p, ctx, pre, sk_seed, ck as nat, i),
        );
        assert forall|i: int| 0 <= i < nodes.len() implies (#[trigger] nodes[i]).len() == 16 by {
            lemma_pors_node_len(h, p, ctx, pre, sk_seed, ck as nat, i);
        }
        crate::wots_c::lemma_concat_nodes_index(nodes);
        assert(nodes[idx] == pors_node(h, p, ctx, pre, sk_seed, height, idx));
    } else {
        vstd::arithmetic::power2::lemma_pow2_unfold((p.b - height + 1) as nat);
        lemma_pors_node_cached(h, p, ctx, pre, sk_seed, (height - 1) as nat, 2 * idx);
        lemma_pors_node_cached(h, p, ctx, pre, sk_seed, (height - 1) as nat, 2 * idx + 1);
    }
}

/// The address left behind by `pors_treehash_cached`.
pub open spec fn pors_cached_adrs(
    p: ParamSet,
    old_adrs: Seq<u8>,
    height: nat,
    idx: int,
) -> Seq<u8> {
    if height < p.pors_checkpoint {
        pors_node_adrs(p, old_adrs.subrange(0, 16), height, idx)
    } else if height == p.pors_checkpoint {
        old_adrs
    } else {
        adrs_of(old_adrs.subrange(0, 16), PORS_TREE, 0, height as u32, idx as u32)
    }
}

/// The address that building the cached nodes of the path `a` in turn
/// leaves behind, from the address `start`.
pub open spec fn pors_cached_path_adrs(p: ParamSet, start: Seq<u8>, a: Seq<(u32, u32)>) -> Seq<u8>
    decreases a.len(),
{
    if a.len() == 0 {
        start
    } else {
        pors_cached_adrs(
            p,
            pors_cached_path_adrs(p, start, a.drop_last()),
            a.last().0 as nat,
            a.last().1 as int,
        )
    }
}

/// Build the PORS+FP node at `target_height`, `idx`, reading the subtree
/// roots at the checkpoint height from `cache` (`16` bytes each, in index
/// order) and building the nodes below it afresh.
pub fn pors_treehash_cached<P: Params, H: Fn(&[u8]) -> [u8; 32]>(
    h: &H,
    sk_seed: &[u8],
    hash_ctx: &Sha256Ctx,
    adrs: &mut Adrs,
    target_height: u32,
    idx: u32,
    cache: &[u8],
) -> (res: Node)
    requires
        is_hash_fn(*h),
        target_height < 32,
        (idx + 1) * p2(target_height as nat) <= 0x1_0000_0000,
        target_height >= P::spec_params().pors_checkpoint ==> 16 * (idx + 1) * p2(
            (target_height - P::spec_params().pors_checkpoint) as nat,
        ) <= cache@.len(),
    ensures
        res@ == pors_node_cached(
            *h,
            P::spec_params(),
            hash_ctx@,
            old(adrs)@.subrange(0, 16),
            sk_seed@,
            cache@,
            target_height as nat,
            idx as int,
        ),
        final(adrs)@ == pors_cached_adrs(
            P::spec_params(),
            old(adrs)@,
            target_height as nat,
            idx as int,
        ),
    decreases target_height,
{
    let p = P::params();
    let ghost pre = old(adrs)@.subrange(0, 16);
    let ck = p.pors_checkpoint as u32;
    if target_height < ck {
        return pors_treehash::<P, H>(h, sk_seed, hash_ctx, adrs, target_height, idx);
    }
    if target_height == ck {
        proof {
            assert(p2(0) == 1) by {
                vstd::arithmetic::power2::lemma2_to64();
            }
            assert(16 * (idx + 1) * p2(0) == 16 * (idx + 1));
        }
        assert(16 * (idx + 1) <= cache.len());
        let offset = (idx as usize) * 16;
        let mut res: Node = [0u8; 16];
        let mut i: usize = 0;
        while i < 16
            invariant
                0 <= i <= 16,
                offset == 16 * idx,
                offset + 16 <= cache@.len(),
                forall|j: int| 0 <= j < i ==> res@[j] == cache@[offset + j],
            decreases 16 - i,
        {
            res[i] = cache[offset + i];
            i += 1;
        }
        assert(res@ =~= cache@.subrange(16 * idx, 16 * idx + 16));
        return res;
    }
    proof {
        vstd::arithmetic::power2::lemma_pow2_unfold(target_height as nat);
        vstd::arithmetic::power2::lemma_pow2_unfold((target_height - ck) as nat);
        vstd::arithmetic::power2::lemma_pow2_pos((target_height - 1) as nat);
        vstd::arithmetic::power2::lemma_pow2_pos((target_height - 1 - ck) as nat);
        assert((2 * idx + 2) * p2((target_height - 1) as nat) == (idx + 1) * p2(target_height as nat))
            by (nonlinear_arith)
            requires
                p2(target_height as nat) == 2 * p2((target_height - 1) as nat),
        ;
        assert((2 * idx + 1) * p2((target_height - 1) as nat) <= (2 * idx + 2) * p2(
            (target_height - 1) as nat,
        )) by (nonlinear_arith)
            requires
                p2((target_height - 1) as nat) >= 1,
        ;
        assert(16 * (2 * idx + 2) * p2((target_height - 1 - ck) as nat) == 16 * (idx + 1) * p2(
            (target_height - ck) as nat,
        )) by (nonlinear_arith)
            requires
                p2((target_height - ck) as nat) == 2 * p2((target_height - 1 - ck) as nat),
        ;
        assert(16 * (2 * idx + 1) * p2((target_height - 1 - ck) as nat) <= 16 * (2 * idx + 2)
            * p2((target_height - 1 - ck) as nat)) by (nonlinear_arith)
            requires
                p2((target_height - 1 - ck) as nat) >= 1,
        ;
        assert(2 * idx + 2 <= 0x1_0000_0000) by (nonlinear_arith)
            requires
                (2 * idx + 2) * p2((target_height - 1) as nat) <= 0x1_0000_0000,
                p2((target_height - 1) as nat) >= 1,
        ;
    }
    let left = pors_treehash_cached::<P, H>(
        h,
        sk_seed,
        hash_ctx,
        adrs,
        target_height - 1,
        2 * idx,
        cache,
    );
    proof {
        pors_node_adrs_prefix(p, pre, (target_height - 1) as nat, 2 * idx);
        lemma_splice_tail(pre, PORS_TREE, 0, (target_height - 1) as u32, 0, (2 * idx) as u32);
    }
    let right = pors_treehash_cached::<P, H>(
        h,
        sk_seed,
        hash_ctx,
        adrs,
        target_height - 1,
        2 * idx + 1,
        cache,
    );
    proof {
        pors_node_adrs_prefix(p, pre, (target_height - 1) as nat, 2 * idx + 1);
        lemma_splice_tail(pre, PORS_TREE, 0, (target_height - 1) as u32, 0, (2 * idx + 1) as u32);
    }
    set_type_and_clear(adrs, PORS_TREE);
    set_key_pair_address(adrs, 0);
    set_tree_height(adrs, target_height);
    set_tree_index(adrs, idx);
    proof {
        lemma_splice_tail(pre, PORS_TREE, 0, 0, 0, 0);
        lemma_splice_tail(pre, PORS_TREE, 0, 0, 0, target_height);
        lemma_splice_tail(pre, PORS_TREE, 0, target_height, 0, idx);
    }
    let ctx = hash_ctx.add_to_ctx(adrs).add_to_ctx(&left).add_to_ctx(&right);
    finalize_node(h, &ctx)
}


/// The nodes named by an octopus path, as the cached tree hash builds them.
pub open spec fn pors_auth_nodes_cached<H: Fn(&[u8]) -> [u8; 32]>(
    h: H,
    p: ParamSet,
    ctx: Seq<u8>,
    pre: Seq<u8>,
    sk_seed: Seq<u8>,
    cache: Seq<u8>,
    a: Seq<(u32, u32)>,
) -> Seq<Seq<u8>> {
    Seq::new(
        a.len(),
        |k: int| pors_node_cached(h, p, ctx, pre, sk_seed, cache, a[k].0 as nat, a[k].1 as int),
    )
}

/// A node of an octopus path reads inside a full checkpoint cache.
pub proof fn lemma_fits_cache(b: nat, ck: nat, lvl: u32, idx: u32, len: int)
    requires
        ck <= lvl < b,
        (idx as int) < p2((b - lvl) as nat),
        len >= 16 * p2((b - ck) as nat),
    ensures
        16 * (idx + 1) * p2((lvl - ck) as nat) <= len,
{
    vstd::arithmetic::power2::lemma_pow2_adds((b - lvl) as nat, (lvl - ck) as nat);
    vstd::arithmetic::power2::lemma_pow2_pos((lvl - ck) as nat);
    assert((idx + 1) * p2((lvl - ck) as nat) <= p2((b - lvl) as nat) * p2((lvl - ck) as nat))
        by (nonlinear_arith)
        requires
            idx + 1 <= p2((b - lvl) as nat),
            p2((lvl - ck) as nat) > 0,
    ;
    assert(((b - lvl) as nat + (lvl - ck) as nat) as nat == (b - ck) as nat);
    assert(16 * (idx + 1) * p2((lvl - ck) as nat) == 16 * ((idx + 1) * p2((lvl - ck) as nat)))
        by (nonlinear_arith);
}

/// With the cache of checkpoint roots, the cached octopus nodes are the
/// PORS+FP nodes.
pub proof fn lemma_auth_nodes_cached<H: Fn(&[u8]) -> [u8; 32]>(
    h: H,
    p: ParamSet,
    ctx: Seq<u8>,
    pre: Seq<u8>,
    sk_seed: Seq<u8>,
    a: Seq<(u32, u32)>,
)
    requires
        p.wf(),
        octo_fits(a, p.b as nat),
    ensures
        pors_auth_nodes_cached(
            h,
            p,
            ctx,
            pre,
            sk_seed,
            pors_checkpoint_spec(h, p, ctx, pre, sk_seed),
            a,
        ) == pors_auth_nodes(h, p, ctx, pre, sk_seed, a),
{
    let cache = pors_checkpoint_spec(h, p, ctx, pre, sk_seed);
    assert forall|k: int| 0 <= k < a.len() implies pors_auth_nodes_cached(
        h,
        p,
        ctx,
        pre,
        sk_seed,
        cache,
        a,
    )[k] == pors_auth_nodes(h, p, ctx, pre, sk_seed, a)[k] by {
        assert(octo_fits(a, p.b as nat));
        lemma_pors_node_cached(h, p, ctx, pre, sk_seed, a[k].0 as nat, a[k].1 as int);
    }
    assert(pors_auth_nodes_cached(h, p, ctx, pre, sk_seed, cache, a) =~= pors_auth_nodes(
        h,
        p,
        ctx,
        pre,
        sk_seed,
        a,
    ));
}

/// The authentication nodes of the octopus path of `indices`, and how many
/// there are, with the subtree roots at the checkpoint height read from
/// `cache`. With the cache that `pors_checkpoint_roots` computes they are
/// exactly those of `pors_auth_path`.
pub fn pors_auth_path_cached<P: Params, H: Fn(&[u8]) -> [u8; 32]>(
    h: &H,
    sk_seed: &[u8],
    hash_ctx: &Sha256Ctx,
    adrs: &mut Adrs,
    indices: &[u32],
    cache: &[u8],
) -> (r: (Vec<u8>, usize))
    requires
        is_hash_fn(*h),
        forall|k: int| 0 <= k < indices@.len() ==> (#[trigger] indices@[k] as int) < P::spec_params().t,
        pors_octopus_spec(P::spec_params(), indices@) is Some,
        cache@.len() >= 16 * p2((P::spec_params().b - P::spec_params().pors_checkpoint) as nat),
    ensures
        ({
            let p = P::spec_params();
            let pre = old(adrs)@.subrange(0, 16);
            let a = pors_octopus_spec(p, indices@)->0;
            &&& r.1 == a.len()
            &&& r.0@ == concat_nodes(
                pors_auth_nodes_cached(*h, p, hash_ctx@, pre, sk_seed@, cache@, a),
            )
            &&& cache@ == pors_checkpoint_spec(*h, p, hash_ctx@, pre, sk_seed@) ==> r.0@
                == concat_nodes(pors_auth_nodes(*h, p, hash_ctx@, pre, sk_seed@, a))
            &&& final(adrs)@ == pors_cached_path_adrs(p, old(adrs)@, a)
        }),
        final(adrs)@.subrange(0, 16) == old(adrs)@.subrange(0, 16),
{
    let p = P::params();
    let ghost pre = old(adrs)@.subrange(0, 16);
    let a = match pors_octopus::<P>(indices) {
        Some(a) => a,
        None => {
            return (Vec::new(), 0);
        },
    };
    proof {
        lemma_octopus_fits(p, indices@);
        if cache@ == pors_checkpoint_spec(*h, p, hash_ctx@, pre, sk_seed@) {
            lemma_auth_nodes_cached(*h, p, hash_ctx@, pre, sk_seed@, a@);
        }
    }
    let ghost nodes = pors_auth_nodes_cached(*h, p, hash_ctx@, pre, sk_seed@, cache@, a@);
    let a_len = a.len();
    let mut auth: Vec<u8> = Vec::new();
    let mut k: usize = 0;
    while k < a_len
        invariant
            is_hash_fn(*h),
            p == P::spec_params(),
            p.wf(),
            a_len == a@.len(),
            octo_fits(a@, p.b as nat),
            cache@.len() >= 16 * p2((p.b - p.pors_checkpoint) as nat),
            0 <= k <= a_len,
            adrs@.subrange(0, 16) == pre,
            pre.len() == 16,
            nodes == pors_auth_nodes_cached(*h, p, hash_ctx@, pre, sk_seed@, cache@, a@),
            auth@ == concat_nodes(nodes.subrange(0, k as int)),
            adrs@ == pors_cached_path_adrs(p, old(adrs)@, a@.subrange(0, k as int)),
            old(adrs)@.subrange(0, 16) == pre,
        decreases a_len - k,
    {
        let (lvl, idx) = a[k];
        proof {
            assert(a@[k as int] == (lvl, idx));
            lemma_fits_treehash(p.b as nat, lvl, idx);
            if lvl >= p.pors_checkpoint {
                lemma_fits_cache(p.b as nat, p.pors_checkpoint as nat, lvl, idx, cache@.len() as int);
            }
        }
        let ghost before = adrs@;
        let tmp = pors_treehash_cached::<P, H>(h, sk_seed, hash_ctx, adrs, lvl, idx, cache);
        proof {
            pors_node_adrs_prefix(p, pre, lvl as nat, idx as int);
            lemma_splice_tail(pre, PORS_TREE, 0, lvl, 0, idx);
            assert(a@.subrange(0, k + 1).drop_last() =~= a@.subrange(0, k as int));
            assert(a@.subrange(0, k + 1).last() == (lvl, idx));
        }
        append_bytes(&mut auth, &tmp);
        proof {
            lemma_concat_nodes_push(nodes.subrange(0, k as int), nodes[k as int]);
            assert(nodes.subrange(0, k + 1) =~= nodes.subrange(0, k as int).push(nodes[k as int]));
        }
        k += 1;
    }
    assert(nodes.subrange(0, k as int) =~= nodes);
    assert(a@.subrange(0, k as int) =~= a@);
    (auth, a_len)
}

/// Compute the checkpoint cache: the roots of all `2^(b - pors_checkpoint)`
/// PORS+FP subtrees at the checkpoint height, `16` bytes each, in index
/// order. It depends on the secret seed alone, not on any message.
pub fn pors_checkpoint_roots<P: Params, H: Fn(&[u8]) -> [u8; 32]>(
    h: &H,
    sk_seed: &[u8],
    hash_ctx: &Sha256Ctx,
) -> (roots: Vec<u8>)
    requires
        is_hash_fn(*h),
    ensures
        roots@ == pors_checkpoint_spec(
            *h,
            P::spec_params(),
            hash_ctx@,
            zero_prefix(),
            sk_seed@,
        ),
        roots@.len() == 16 * p2((P::spec_params().b - P::spec_params().pors_checkpoint) as nat),
{
    let p = P::params();
    let ck = p.pors_checkpoint as u32;
    proof {
        vstd::arithmetic::power2::lemma2_to64();
    }
    let count: u32 = 1u32 << (p.b - p.pors_checkpoint) as u32;
    assert(count == 512) by {
        assert((1u32 << 9u32) == 512) by (bit_vector);
    }
    let ghost nodes = Seq::new(
        p2((p.b - p.pors_checkpoint) as nat) as nat,
        |i: int| pors_node(*h, p, hash_ctx@, zero_prefix(), sk_seed@, p.pors_checkpoint as nat, i),
    );
    assert(nodes.len() == 512);
    let mut adrs: Adrs = [0u8; 32];
    assert(adrs@.subrange(0, 16) =~= zero_prefix());
    let mut roots: Vec<u8> = Vec::new();
    let mut idx: u32 = 0;
    while idx < count
        invariant
            is_hash_fn(*h),
            p == P::spec_params(),
            p.wf(),
            count == 512,
            ck as int == p.pors_checkpoint,
            ck <= 15,
            p2(ck as nat) <= 0x8000,
            nodes.len() == 512,
            nodes == Seq::new(
                p2((p.b - p.pors_checkpoint) as nat) as nat,
                |i: int| pors_node(*h, p, hash_ctx@, zero_prefix(), sk_seed@, p.pors_checkpoint as nat, i),
            ),
            0 <= idx <= count,
            adrs@.subrange(0, 16) == zero_prefix(),
            roots@ == concat_nodes(nodes.subrange(0, idx as int)),
        decreases count - idx,
    {
        assert((idx + 1) * p2(ck as nat) <= 0x1_0000_0000) by (nonlinear_arith)
            requires
                idx + 1 <= 512,
                p2(ck as nat) <= 0x8000,
                p2(ck as nat) >= 0,
        ;
        let node = pors_treehash::<P, H>(h, sk_seed, hash_ctx, &mut adrs, ck, idx);
        proof {
            pors_node_adrs_prefix(p, zero_prefix(), ck as nat, idx as int);
        }
        append_bytes(&mut roots, &node);
        proof {
            lemma_concat_nodes_push(nodes.subrange(0, idx as int), nodes[idx as int]);
            assert(nodes.subrange(0, idx + 1) =~= nodes.subrange(0, idx as int).push(
                nodes[idx as int],
            ));
        }
        idx += 1;
    }
    assert(nodes.subrange(0, idx as int) =~= nodes);
    proof {
        assert forall|i: int| 0 <= i < nodes.len() implies (#[trigger] nodes[i]).len() == 16 by {
            lemma_pors_node_len(*h, p, hash_ctx@, zero_prefix(), sk_seed@, p.pors_checkpoint as nat, i);
        }
        crate::wots_c::lemma_concat_nodes_index(nodes);
    }
    roots
}


/// A cached node inside the tree is 16 bytes long.
pub proof fn lemma_pors_node_cached_len<H: Fn(&[u8]) -> [u8; 32]>(
    h: H,
    p: ParamSet,
    ctx: Seq<u8>,
    pre: Seq<u8>,
    sk_seed: Seq<u8>,
    cache: Seq<u8>,
    height: nat,
    idx: int,
)
    requires
        height <= p.b,
        p.pors_checkpoint <= p.b,
        0 <= idx < p2((p.b - height) as nat),
        cache.len() >= 16 * p2((p.b - p.pors_checkpoint) as nat),
    ensures
        pors_node_cached(h, p, ctx, pre, sk_seed, cache, height, idx).len() == 16,
    decreases height,
{
    let ck = p.pors_checkpoint;
    if height < ck {
        lemma_pors_node_len(h, p, ctx, pre, sk_seed, height, idx);
    } else if height == ck {
        assert(16 * idx + 16 <= 16 * p2((p.b - ck) as nat));
    } else {
        vstd::arithmetic::power2::lemma_pow2_unfold((p.b - height + 1) as nat);
        lemma_pors_node_cached_len(h, p, ctx, pre, sk_seed, cache, (height - 1) as nat, 2 * idx);
        lemma_pors_node_cached_len(h, p, ctx, pre, sk_seed, cache, (height - 1) as nat, 2 * idx + 1);
        crate::hash::lemma_digest_len(
            h,
            ctx + adrs_of(pre, PORS_TREE, 0, height as u32, idx as u32) + pors_node_cached(
                h,
                p,
                ctx,
                pre,
                sk_seed,
                cache,
                (height - 1) as nat,
                2 * idx,
            ) + pors_node_cached(h, p, ctx, pre, sk_seed, cache, (height - 1) as nat, 2 * idx + 1),
        );
    }
}

// ----------------------------------------------------------------------------
// Signing
// ----------------------------------------------------------------------------

/// The secret values revealed for `indices`.
pub open spec fn pors_sks<H: Fn(&[u8]) -> [u8; 32]>(
    h: H,
    ctx: Seq<u8>,
    pre: Seq<u8>,
    sk_seed: Seq<u8>,
    indices: Seq<u32>,
) -> Seq<Seq<u8>> {
    Seq::new(indices.len(), |j: int| pors_sk(h, ctx, pre, sk_seed, indices[j] as int))
}

/// A PORS+FP signature `r ‖ secrets ‖ path`, zero-padded to `pors_sign_len`
/// bytes.
pub open spec fn pors_sig_spec(p: ParamSet, r: Seq<u8>, sks: Seq<Seq<u8>>, auth: Seq<u8>) -> Seq<u8> {
    let body = r + concat_nodes(sks) + auth;
    body + Seq::new((p.spec_pors_sign_len() - body.len()) as nat, |i: int| 0u8)
}

/// What PORS+FP signing gives: the signature and the 32-byte digest for the
/// smallest counter that succeeds (the public seed serves as the optional
/// randomness), or `None` when no counter succeeds. With `Some(cache)` the
/// path nodes are those of the cached tree hash.
pub open spec fn pors_sign_spec<H: Fn(&[u8]) -> [u8; 32]>(
    h: H,
    p: ParamSet,
    ctx: Seq<u8>,
    pre: Seq<u8>,
    message: Seq<u8>,
    sk_seed: Seq<u8>,
    sk_prf: Seq<u8>,
    pk_seed: Seq<u8>,
    pk_root: Seq<u8>,
    cache: Option<Seq<u8>>,
) -> Option<(Seq<u8>, Seq<u8>)> {
    if !pors_possible(h, p, ctx, pre, message, sk_prf, pk_seed, pk_root, pk_seed) {
        None
    } else {
        let ctr = pors_grind_ctr(h, p, ctx, pre, message, sk_prf, pk_seed, pk_root, pk_seed);
        let r = pors_r(h, message, sk_prf, pk_seed, pk_seed, ctr);
        let dg = pors_digest(h, ctx, pre, r, pk_root, message);
        let idx = pors_indices(h, p, ctx, dg);
        let a = pors_octopus_spec(p, idx)->0;
        let nodes = match cache {
            None => pors_auth_nodes(h, p, ctx, pre, sk_seed, a),
            Some(c) => pors_auth_nodes_cached(h, p, ctx, pre, sk_seed, c, a),
        };
        Some((pors_sig_spec(p, r, pors_sks(h, ctx, pre, sk_seed, idx), concat_nodes(nodes)), dg))
    }
}

/// The address that PORS+FP signing leaves behind: after the last path
/// node, else after the last revealed secret value, else at the
/// message-hash address where grinding left it.
pub open spec fn pors_sign_adrs<H: Fn(&[u8]) -> [u8; 32]>(
    h: H,
    p: ParamSet,
    ctx: Seq<u8>,
    pre: Seq<u8>,
    message: Seq<u8>,
    sk_prf: Seq<u8>,
    pk_seed: Seq<u8>,
    pk_root: Seq<u8>,
    cached: bool,
) -> Seq<u8> {
    let hm = adrs_of(pre, SL_H_MSG, 0, 0, 0);
    if !pors_possible(h, p, ctx, pre, message, sk_prf, pk_seed, pk_root, pk_seed) {
        hm
    } else {
        let ctr = pors_grind_ctr(h, p, ctx, pre, message, sk_prf, pk_seed, pk_root, pk_seed);
        let r = pors_r(h, message, sk_prf, pk_seed, pk_seed, ctr);
        let idx = pors_indices(h, p, ctx, pors_digest(h, ctx, pre, r, pk_root, message));
        let a = pors_octopus_spec(p, idx)->0;
        let s0 = if idx.len() > 0 {
            adrs_of(pre, PORS_PRF, 0, 0, idx.last())
        } else {
            hm
        };
        if cached {
            pors_cached_path_adrs(p, s0, a)
        } else {
            pors_path_adrs(p, s0, a)
        }
    }
}

/// Signing with the checkpoint cache gives what signing without it gives.
pub proof fn lemma_pors_sign_cached<H: Fn(&[u8]) -> [u8; 32]>(
    h: H,
    p: ParamSet,
    ctx: Seq<u8>,
    pre: Seq<u8>,
    message: Seq<u8>,
    sk_seed: Seq<u8>,
    sk_prf: Seq<u8>,
    pk_seed: Seq<u8>,
    pk_root: Seq<u8>,
)
    requires
        p.wf(),
    ensures
        pors_sign_spec(
            h,
            p,
            ctx,
            pre,
            message,
            sk_seed,
            sk_prf,
            pk_seed,
            pk_root,
            Some(pors_checkpoint_spec(h, p, ctx, pre, sk_seed)),
        ) == pors_sign_spec(h, p, ctx, pre, message, sk_seed, sk_prf, pk_seed, pk_root, None),
{
    if pors_possible(h, p, ctx, pre, message, sk_prf, pk_seed, pk_root, pk_seed) {
        let ctr = pors_grind_ctr(h, p, ctx, pre, message, sk_prf, pk_seed, pk_root, pk_seed);
        let r = pors_r(h, message, sk_prf, pk_seed, pk_seed, ctr);
        let dg = pors_digest(h, ctx, pre, r, pk_root, message);
        let idx = pors_indices(h, p, ctx, dg);
        let c = choose|c: u32| #[trigger] pors_try(h, p, ctx, pre, message, sk_prf, pk_seed, pk_root, pk_seed, c);
        lemma_pors_first(h, p, ctx, pre, message, sk_prf, pk_seed, pk_root, pk_seed, c);
        lemma_indices_below(h, p, xof_input(ctx, zero_prefix(), dg));
        lemma_octopus_fits(p, idx);
        lemma_auth_nodes_cached(h, p, ctx, pre, sk_seed, pors_octopus_spec(p, idx)->0);
    }
}

fn pors_sign_inner<P: Params, H: Fn(&[u8]) -> [u8; 32]>(
    h: &H,
    message: &[u8],
    sk_seed: &[u8],
    sk_prf: &[u8],
    pk_seed: &[u8],
    pk_root: &[u8],
    hash_ctx: &Sha256Ctx,
    adrs: &mut Adrs,
    cache: Option<&[u8]>,
) -> (res: Result<(Vec<u8>, [u8; 32]), Error>)
    requires
        is_hash_fn(*h),
        cache matches Some(c) ==> c@.len() >= 16 * p2(
            (P::spec_params().b - P::spec_params().pors_checkpoint) as nat,
        ),
    ensures
        ({
            let spec = pors_sign_spec(
                *h,
                P::spec_params(),
                hash_ctx@,
                old(adrs)@.subrange(0, 16),
                message@,
                sk_seed@,
                sk_prf@,
                pk_seed@,
                pk_root@,
                match cache {
                    None => None,
                    Some(c) => Some(c@),
                },
            );
            match res {
                Ok((sig, dg)) => spec == Some((sig@, dg@)),
                Err(e) => e == Error::GrindFailed && spec is None,
            }
        }),
        final(adrs)@ == pors_sign_adrs(
            *h,
            P::spec_params(),
            hash_ctx@,
            old(adrs)@.subrange(0, 16),
            message@,
            sk_prf@,
            pk_seed@,
            pk_root@,
            cache is Some,
        ),
        final(adrs)@.subrange(0, 16) == old(adrs)@.subrange(0, 16),
{
    let p = P::params();
    let ghost pre = old(adrs)@.subrange(0, 16);
    let ghost ctx = hash_ctx@;
    let opt_rand = pk_seed;
    let grind = pors_grind::<P, H>(h, message, sk_prf, pk_seed, pk_root, adrs, opt_rand, hash_ctx);
    proof {
        lemma_splice_tail(pre, SL_H_MSG, 0, 0, 0, 0);
    }
    let (r, digest, indices) = match grind {
        Ok(x) => x,
        Err(e) => {
            return Err(e);
        },
    };
    let ghost ctr = pors_grind_ctr(*h, p, ctx, pre, message@, sk_prf@, pk_seed@, pk_root@, pk_seed@);
    proof {
        let c = choose|c: u32|
            #[trigger] pors_try(*h, p, ctx, pre, message@, sk_prf@, pk_seed@, pk_root@, pk_seed@, c);
        lemma_pors_first(*h, p, ctx, pre, message@, sk_prf@, pk_seed@, pk_root@, pk_seed@, c);
        lemma_indices_below(*h, p, xof_input(ctx, zero_prefix(), digest@));
    }
    let ghost sks = pors_sks(*h, ctx, pre, sk_seed@, indices@);
    let mut sig: Vec<u8> = Vec::new();
    append_bytes(&mut sig, &r);
    let n = indices.len();
    let mut j: usize = 0;
    while j < n
        invariant
            is_hash_fn(*h),
            n == indices@.len(),
            0 <= j <= n,
            pre.len() == 16,
            adrs@.subrange(0, 16) == pre,
            ctx == hash_ctx@,
            sks == pors_sks(*h, ctx, pre, sk_seed@, indices@),
            sig@ == r@ + concat_nodes(sks.subrange(0, j as int)),
            adrs@ == if j == 0 {
                adrs_of(pre, SL_H_MSG, 0, 0, 0)
            } else {
                adrs_of(pre, PORS_PRF, 0, 0, indices@[j - 1])
            },
        decreases n - j,
    {
        let sk = pors_sk_gen::<P, H>(h, sk_seed, hash_ctx, adrs, indices[j]);
        proof {
            lemma_splice_tail(pre, PORS_PRF, 0, 0, 0, indices@[j as int]);
        }
        append_bytes(&mut sig, &sk);
        proof {
            lemma_concat_nodes_push(sks.subrange(0, j as int), sks[j as int]);
            assert(sks.subrange(0, j + 1) =~= sks.subrange(0, j as int).push(sks[j as int]));
        }
        j += 1;
    }
    assert(sks.subrange(0, j as int) =~= sks);
    let (auth, a_len) = match cache {
        Some(c) => pors_auth_path_cached::<P, H>(h, sk_seed, hash_ctx, adrs, indices.as_slice(), c),
        None => pors_auth_path::<P, H>(h, sk_seed, hash_ctx, adrs, indices.as_slice()),
    };
    let ghost a = pors_octopus_spec(p, indices@)->0;
    let ghost nodes = match cache {
        None => pors_auth_nodes(*h, p, ctx, pre, sk_seed@, a),
        Some(c) => pors_auth_nodes_cached(*h, p, ctx, pre, sk_seed@, c@, a),
    };
    proof {
        lemma_octopus_fits(p, indices@);
        assert forall|i: int| 0 <= i < sks.len() implies (#[trigger] sks[i]).len() == 16 by {
            crate::hash::lemma_digest_len(
                *h,
                ctx + adrs_of(pre, PORS_PRF, 0, 0, indices@[i] as u32) + sk_seed@,
            );
        }
        crate::wots_c::lemma_concat_nodes_index(sks);
        assert forall|i: int| 0 <= i < nodes.len() implies (#[trigger] nodes[i]).len() == 16 by {
            lemma_fits_treehash(p.b as nat, a[i].0, a[i].1);
            match cache {
                None => {
                    lemma_pors_node_len(*h, p, ctx, pre, sk_seed@, a[i].0 as nat, a[i].1 as int);
                },
                Some(c) => {
                    lemma_pors_node_cached_len(
                        *h,
                        p,
                        ctx,
                        pre,
                        sk_seed@,
                        c@,
                        a[i].0 as nat,
                        a[i].1 as int,
                    );
                },
            }
        }
        crate::wots_c::lemma_concat_nodes_index(nodes);
    }
    append_bytes(&mut sig, auth.as_slice());
    let total = p.pors_sign_len();
    let pad = crate::wots_c::zero_bytes(total - sig.len());
    append_bytes(&mut sig, pad.as_slice());
    Ok((sig, digest))
}

/// Sign `message` with PORS+FP: grind for a randomizer whose indices admit a
/// short enough octopus path, reveal the secret values of the indices and
/// append the path. The signature is `pors_sign_len` bytes, zero-padded
/// after the path; the 32-byte digest comes with it.
pub fn pors_sign<P: Params, H: Fn(&[u8]) -> [u8; 32]>(
    h: &H,
    message: &[u8],
    sk_seed: &[u8],
    sk_prf: &[u8],
    pk_seed: &[u8],
    pk_root: &[u8],
    hash_ctx: &Sha256Ctx,
    adrs: &mut Adrs,
) -> (res: Result<(Vec<u8>, [u8; 32]), Error>)
    requires
        is_hash_fn(*h),
    ensures
        ({
            let spec = pors_sign_spec(
                *h,
                P::spec_params(),
                hash_ctx@,
                old(adrs)@.subrange(0, 16),
                message@,
                sk_seed@,
                sk_prf@,
                pk_seed@,
                pk_root@,
                None,
            );
            match res {
                Ok((sig, dg)) => spec == Some((sig@, dg@)),
                Err(e) => e == Error::GrindFailed && spec is None,
            }
        }),
        final(adrs)@ == pors_sign_adrs(
            *h,
            P::spec_params(),
            hash_ctx@,
            old(adrs)@.subrange(0, 16),
            message@,
            sk_prf@,
            pk_seed@,
            pk_root@,
            false,
        ),
        final(adrs)@.subrange(0, 16) == old(adrs)@.subrange(0, 16),
{
    pors_sign_inner::<P, H>(h, message, sk_seed, sk_prf, pk_seed, pk_root, hash_ctx, adrs, None)
}

/// [`pors_sign`] with the path nodes at and above the checkpoint height
/// built from `cache`. With the cache that `pors_checkpoint_roots` computes
/// under the same address prefix, the result is that of [`pors_sign`].
pub fn pors_sign_cached<P: Params, H: Fn(&[u8]) -> [u8; 32]>(
    h: &H,
    message: &[u8],
    sk_seed: &[u8],
    sk_prf: &[u8],
    pk_seed: &[u8],
    pk_root: &[u8],
    hash_ctx: &Sha256Ctx,
    adrs: &mut Adrs,
    cache: &[u8],
) -> (res: Result<(Vec<u8>, [u8; 32]), Error>)
    requires
        is_hash_fn(*h),
        cache@.len() >= 16 * p2((P::spec_params().b - P::spec_params().pors_checkpoint) as nat),
    ensures
        ({
            let p = P::spec_params();
            let pre = old(adrs)@.subrange(0, 16);
            let spec = pors_sign_spec(
                *h,
                p,
                hash_ctx@,
                pre,
                message@,
                sk_seed@,
                sk_prf@,
                pk_seed@,
                pk_root@,
                Some(cache@),
            );
            &&& match res {
                Ok((sig, dg)) => spec == Some((sig@, dg@)),
                Err(e) => e == Error::GrindFailed && spec is None,
            }
            &&& cache@ == pors_checkpoint_spec(*h, p, hash_ctx@, pre, sk_seed@) ==> spec
                == pors_sign_spec(
                *h,
                p,
                hash_ctx@,
                pre,
                message@,
                sk_seed@,
                sk_prf@,
                pk_seed@,
                pk_root@,
                None,
            )
        }),
        final(adrs)@ == pors_sign_adrs(
            *h,
            P::spec_params(),
            hash_ctx@,
            old(adrs)@.subrange(0, 16),
            message@,
            sk_prf@,
            pk_seed@,
            pk_root@,
            true,
        ),
        final(adrs)@.subrange(0, 16) == old(adrs)@.subrange(0, 16),
{
    proof {
        P::lemma_params_wf();
        lemma_pors_sign_cached(
            *h,
            P::spec_params(),
            hash_ctx@,
            old(adrs)@.subrange(0, 16),
            message@,
            sk_seed@,
            sk_prf@,
            pk_seed@,
            pk_root@,
        );
    }
    pors_sign_inner::<P, H>(
        h,
        message,
        sk_seed,
        sk_prf,
        pk_seed,
        pk_root,
        hash_ctx,
        adrs,
        Some(cache),
    )
}


/// A rebuilt PORS+FP public key is a 16-byte node.
pub proof fn lemma_pors_pk_len<H: Fn(&[u8]) -> [u8; 32]>(
    h: H,
    p: ParamSet,
    sig: Seq<u8>,
    indices: Seq<u32>,
    ctx: Seq<u8>,
    pre: Seq<u8>,
)
    ensures
        pors_pk_from_sig_spec(h, p, sig, indices, ctx, pre) matches Some(pk) ==> pk.len() == 16,
{
    if let Some(pk) = pors_pk_from_sig_spec(h, p, sig, indices, ctx, pre) {
        let e = leaf_entries(h, ctx, pre, sig, indices);
        let fin = pk_levels(
            h,
            ctx,
            pre,
            sig,
            split_ie(p, e),
            split_pe(p, e),
            0,
            p.b as nat,
            32 + 16 * indices.len() as int,
        )->0;
        crate::hash::lemma_digest_len(h, ctx + adrs_of(pre, PORS_PK, 0, 0, 0) + fin[0].1);
    }
}

/// The layout of a PORS+FP signature: `pors_sign_len` bytes that begin with
/// the randomizer whose digest they were made for; that digest's indices
/// admit an octopus path, and the bytes after the path's `m_max` slots
/// that it leaves unused are zero.
pub proof fn lemma_pors_sig_layout<H: Fn(&[u8]) -> [u8; 32]>(
    h: H,
    p: ParamSet,
    ctx: Seq<u8>,
    pre: Seq<u8>,
    message: Seq<u8>,
    sk_seed: Seq<u8>,
    sk_prf: Seq<u8>,
    pk_seed: Seq<u8>,
    pk_root: Seq<u8>,
)
    requires
        p.wf(),
    ensures
        pors_sign_spec(h, p, ctx, pre, message, sk_seed, sk_prf, pk_seed, pk_root, None) matches Some(
            (psig, dg),
        ) ==> {
            let idx = pors_indices(h, p, ctx, dg);
            &&& psig.len() == p.spec_pors_sign_len()
            &&& dg == pors_digest(h, ctx, pre, psig.subrange(0, 32), pk_root, message)
            &&& pors_octopus_spec(p, idx) matches Some(a) && forall|j: int|
                p.spec_pors_sign_len() - 16 * (p.m_max - a.len()) <= j < p.spec_pors_sign_len()
                    ==> psig[j] == 0
        },
{
    if let Some((psig, dg)) = pors_sign_spec(
        h,
        p,
        ctx,
        pre,
        message,
        sk_seed,
        sk_prf,
        pk_seed,
        pk_root,
        None,
    ) {
        p.lemma_layout();
        let ctr = pors_grind_ctr(h, p, ctx, pre, message, sk_prf, pk_seed, pk_root, pk_seed);
        let r = pors_r(h, message, sk_prf, pk_seed, pk_seed, ctr);
        let idx = pors_indices(h, p, ctx, dg);
        let c = choose|c: u32| #[trigger] pors_try(h, p, ctx, pre, message, sk_prf, pk_seed, pk_root, pk_seed, c);
        lemma_pors_first(h, p, ctx, pre, message, sk_prf, pk_seed, pk_root, pk_seed, c);
        lemma_indices_below(h, p, xof_input(ctx, zero_prefix(), dg));
        lemma_octopus_fits(p, idx);
        let a = pors_octopus_spec(p, idx)->0;
        crate::hash::lemma_prf_blocks_len(
            h,
            prf_input(sk_prf, pk_seed, pk_seed, message, true, ctr),
            ((R_LEN + 31) / 32) as nat,
        );
        assert(r.len() == 32);
        let sks = pors_sks(h, ctx, pre, sk_seed, idx);
        assert forall|i: int| 0 <= i < sks.len() implies (#[trigger] sks[i]).len() == 16 by {
            crate::hash::lemma_digest_len(h, ctx + adrs_of(pre, PORS_PRF, 0, 0, idx[i] as u32) + sk_seed);
        }
        crate::wots_c::lemma_concat_nodes_index(sks);
        let nodes = pors_auth_nodes(h, p, ctx, pre, sk_seed, a);
        assert forall|i: int| 0 <= i < nodes.len() implies (#[trigger] nodes[i]).len() == 16 by {
            lemma_pors_node_len(h, p, ctx, pre, sk_seed, a[i].0 as nat, a[i].1 as int);
        }
        crate::wots_c::lemma_concat_nodes_index(nodes);
        let body = r + concat_nodes(sks) + concat_nodes(nodes);
        assert(body.len() == 32 + 16 * idx.len() + 16 * a.len());
        assert(psig == body + Seq::new((p.spec_pors_sign_len() - body.len()) as nat, |i: int| 0u8));
        assert(psig.subrange(0, 32) =~= r);
        assert forall|j: int|
            p.spec_pors_sign_len() - 16 * (p.m_max - a.len()) <= j < p.spec_pors_sign_len() implies psig[j]
            == 0 by {
            assert(j >= body.len());
        }
    }
}

} // verus!
