//! XMSS: one layer of the stateless hypertree.
//!
//! Each XMSS tree has height `h_prime` with a WOTS+C key pair at each leaf.
use vstd::arithmetic::div_mod::{lemma_div_denominator, lemma_fundamental_div_mod};
use vstd::arithmetic::power2::{lemma_pow2_pos, lemma_pow2_unfold, pow2};
use vstd::prelude::*;

use crate::address::{
    adrs_of, lemma_splice_tail, set_tree_height, set_tree_index, set_type_and_clear, Adrs,
};
use crate::constants::{ParamSet, Params, SL_TREE, SL_WOTS_GRIND, SL_WOTS_PK};
use crate::hash::{append_bytes, finalize_node, hash_n, is_hash_fn, lemma_digest_len, Sha256Ctx};
use crate::wots_c::{
    concat_nodes, lemma_concat_nodes_push, read_node, wots_pk_from_sig, wots_pk_from_sig_spec,
    wots_pk_gen, wots_pk_spec, wots_sign, wots_sign_spec, Error, Node,
};

verus! {

// ----------------------------------------------------------------------------
// Specification
// ----------------------------------------------------------------------------

/// `2^n` as an integer.
pub open spec fn p2(n: nat) -> int {
    pow2(n) as int
}

/// The node at `height` above the leaves `start .. start + 2^height` of the
/// XMSS tree under the address prefix `pre`.
pub open spec fn xmss_node<H: Fn(&[u8]) -> [u8; 32]>(
    h: H,
    p: ParamSet,
    ctx: Seq<u8>,
    pre: Seq<u8>,
    sk_seed: Seq<u8>,
    height: nat,
    start: int,
) -> Seq<u8>
    decreases height,
{
    if height == 0 {
        wots_pk_spec(h, p, ctx, pre, sk_seed, start as u32, false)
    } else {
        hash_n(
            h,
            ctx + adrs_of(pre, SL_TREE, 0, height as u32, (start / p2(height)) as u32)
                + xmss_node(h, p, ctx, pre, sk_seed, (height - 1) as nat, start)
                + xmss_node(
                h,
                p,
                ctx,
                pre,
                sk_seed,
                (height - 1) as nat,
                start + p2((height - 1) as nat),
            ),
        )
    }
}

/// The first leaf of the sibling, at level `i`, of the subtree that holds leaf `idx`.
pub open spec fn sibling_start(idx: int, i: nat) -> int {
    let j = idx / p2(i);
    if j % 2 == 0 {
        (j + 1) * p2(i)
    } else {
        (j - 1) * p2(i)
    }
}

/// The authentication path of leaf `idx`: one sibling node per level.
pub open spec fn xmss_auth_nodes<H: Fn(&[u8]) -> [u8; 32]>(
    h: H,
    p: ParamSet,
    ctx: Seq<u8>,
    pre: Seq<u8>,
    sk_seed: Seq<u8>,
    h_prime: nat,
    idx: int,
) -> Seq<Seq<u8>> {
    Seq::new(h_prime, |i: int| xmss_node(h, p, ctx, pre, sk_seed, i as nat, sibling_start(idx, i as nat)))
}

/// The node reached from `leaf` (leaf `idx`) after `i` levels of the
/// authentication path `auth`.
pub open spec fn xmss_climb<H: Fn(&[u8]) -> [u8; 32]>(
    h: H,
    ctx: Seq<u8>,
    pre: Seq<u8>,
    leaf: Seq<u8>,
    auth: Seq<u8>,
    idx: int,
    i: nat,
) -> Seq<u8>
    decreases i,
{
    if i == 0 {
        leaf
    } else {
        let n = xmss_climb(h, ctx, pre, leaf, auth, idx, (i - 1) as nat);
        let j = idx / p2((i - 1) as nat);
        let a = auth.subrange(16 * (i - 1), 16 * i as int);
        let adrs = adrs_of(pre, SL_TREE, 0, i as u32, (j / 2) as u32);
        if j % 2 == 0 {
            hash_n(h, ctx + adrs + n + a)
        } else {
            hash_n(h, ctx + adrs + a + n)
        }
    }
}

/// The root that an XMSS signature (WOTS+C signature and authentication path)
/// gives for leaf `idx`, when the WOTS+C digest is valid.
pub open spec fn xmss_pk_from_sig_spec<H: Fn(&[u8]) -> [u8; 32]>(
    h: H,
    p: ParamSet,
    wots_sig: Seq<u8>,
    auth: Seq<u8>,
    message: Seq<u8>,
    pk_root: Seq<u8>,
    ctx: Seq<u8>,
    pre: Seq<u8>,
    h_prime: nat,
    idx: u32,
) -> Option<Seq<u8>> {
    match wots_pk_from_sig_spec(h, p, wots_sig, message, pk_root, ctx, pre, idx, false, true) {
        None => None,
        Some(leaf) => Some(xmss_climb(h, ctx, pre, leaf, auth, idx as int, h_prime)),
    }
}

/// The XMSS signature of leaf `idx`: its WOTS+C signature of the 16-byte
/// message, then the authentication path.
pub open spec fn xmss_sign_spec<H: Fn(&[u8]) -> [u8; 32]>(
    h: H,
    p: ParamSet,
    message: Seq<u8>,
    sk_seed: Seq<u8>,
    sk_prf: Seq<u8>,
    pk_seed: Seq<u8>,
    pk_root: Seq<u8>,
    ctx: Seq<u8>,
    pre: Seq<u8>,
    h_prime: nat,
    idx: u32,
) -> Option<Seq<u8>> {
    match wots_sign_spec(h, p, message, sk_seed, sk_prf, pk_seed, pk_root, ctx, pre, idx, false, true) {
        None => None,
        Some(w) => Some(w + concat_nodes(xmss_auth_nodes(h, p, ctx, pre, sk_seed, h_prime, idx as int))),
    }
}

// ----------------------------------------------------------------------------
// Lemmas
// ----------------------------------------------------------------------------

/// One level up: the leaf index, the parent's first leaf and its children.
pub proof fn lemma_level_step(idx: int, i: nat)
    requires
        idx >= 0,
    ensures
        ({
            let pi = p2(i);
            let j = idx / pi;
            &&& pi > 0
            &&& j >= 0
            &&& p2(i + 1) == 2 * pi
            &&& idx / p2(i + 1) == j / 2
            &&& (j / 2) * p2(i + 1) == if j % 2 == 0 { j * pi } else { (j - 1) * pi }
            &&& ((j / 2) * p2(i + 1)) / p2(i + 1) == j / 2
            &&& (j / 2) * p2(i + 1) + pi == if j % 2 == 0 { (j + 1) * pi } else { j * pi }
        }),
{
    let pi = p2(i);
    lemma_pow2_pos(i);
    lemma_pow2_pos(i + 1);
    lemma_pow2_unfold(i + 1);
    assert(p2(i + 1) == 2 * pi);
    let j = idx / pi;
    assert(j >= 0) by (nonlinear_arith)
        requires
            idx >= 0,
            pi > 0,
            j == idx / pi,
    ;
    lemma_div_denominator(idx, pi, 2);
    assert(pi * 2 == 2 * pi);
    lemma_fundamental_div_mod(j, 2);
    let q = j / 2;
    assert(q * (2 * pi) == (2 * q) * pi) by (nonlinear_arith);
    assert((q * (2 * pi)) / (2 * pi) == q) by (nonlinear_arith)
        requires
            pi > 0,
    ;
    assert((j + 1) * pi == j * pi + pi) by (nonlinear_arith);
    assert(j * pi == (j - 1) * pi + pi) by (nonlinear_arith);
}

pub proof fn lemma_xmss_node_len<H: Fn(&[u8]) -> [u8; 32]>(
    h: H,
    p: ParamSet,
    ctx: Seq<u8>,
    pre: Seq<u8>,
    sk_seed: Seq<u8>,
    height: nat,
    start: int,
)
    ensures
        xmss_node(h, p, ctx, pre, sk_seed, height, start).len() == 16,
{
    if height == 0 {
        let chains = crate::wots_c::wots_pk_chains(h, p, ctx, pre, sk_seed, start as u32, false);
        lemma_digest_len(
            h,
            ctx + adrs_of(pre, crate::wots_c::spec_types(false).1, start as u32, 0, 0)
                + concat_nodes(chains),
        );
    } else {
        lemma_digest_len(
            h,
            ctx + adrs_of(pre, SL_TREE, 0, height as u32, (start / p2(height)) as u32)
                + xmss_node(h, p, ctx, pre, sk_seed, (height - 1) as nat, start)
                + xmss_node(
                h,
                p,
                ctx,
                pre,
                sk_seed,
                (height - 1) as nat,
                start + p2((height - 1) as nat),
            ),
        );
    }
}

/// Node `k` of an authentication path, as it stands in the concatenated path.
pub proof fn lemma_auth_index<H: Fn(&[u8]) -> [u8; 32]>(
    h: H,
    p: ParamSet,
    ctx: Seq<u8>,
    pre: Seq<u8>,
    sk_seed: Seq<u8>,
    h_prime: nat,
    idx: int,
    k: int,
)
    requires
        0 <= k < h_prime,
    ensures
        concat_nodes(xmss_auth_nodes(h, p, ctx, pre, sk_seed, h_prime, idx)).subrange(
            16 * k,
            16 * k + 16,
        ) == xmss_node(h, p, ctx, pre, sk_seed, k as nat, sibling_start(idx, k as nat)),
        concat_nodes(xmss_auth_nodes(h, p, ctx, pre, sk_seed, h_prime, idx)).len() == 16 * h_prime,
{
    let s = xmss_auth_nodes(h, p, ctx, pre, sk_seed, h_prime, idx);
    assert forall|i: int| 0 <= i < s.len() implies (#[trigger] s[i]).len() == 16 by {
        lemma_xmss_node_len(h, p, ctx, pre, sk_seed, i as nat, sibling_start(idx, i as nat));
    }
    crate::wots_c::lemma_concat_nodes_index(s);
    assert(s[k] == xmss_node(h, p, ctx, pre, sk_seed, k as nat, sibling_start(idx, k as nat)));
}

/// Climbing from leaf `idx` along its authentication path gives, at every
/// level `i`, the node above the subtree that holds the leaf.
pub proof fn lemma_xmss_climb<H: Fn(&[u8]) -> [u8; 32]>(
    h: H,
    p: ParamSet,
    ctx: Seq<u8>,
    pre: Seq<u8>,
    sk_seed: Seq<u8>,
    h_prime: nat,
    idx: int,
    i: nat,
)
    requires
        0 <= idx,
        i <= h_prime,
    ensures
        xmss_climb(
            h,
            ctx,
            pre,
            xmss_node(h, p, ctx, pre, sk_seed, 0, idx),
            concat_nodes(xmss_auth_nodes(h, p, ctx, pre, sk_seed, h_prime, idx)),
            idx,
            i,
        ) == xmss_node(h, p, ctx, pre, sk_seed, i, (idx / p2(i)) * p2(i)),
    decreases i,
{
    let leaf = xmss_node(h, p, ctx, pre, sk_seed, 0, idx);
    let auth = concat_nodes(xmss_auth_nodes(h, p, ctx, pre, sk_seed, h_prime, idx));
    if i == 0 {
        assert(p2(0) == 1) by {
            vstd::arithmetic::power2::lemma2_to64();
        }
        assert(idx / 1 * 1 == idx);
    } else {
        let k = (i - 1) as nat;
        lemma_xmss_climb(h, p, ctx, pre, sk_seed, h_prime, idx, k);
        lemma_level_step(idx, k);
        lemma_auth_index(h, p, ctx, pre, sk_seed, h_prime, idx, k as int);
        let pk = p2(k);
        let j = idx / pk;
        let s = (idx / p2(i)) * p2(i);
        assert(i == k + 1);
        assert(s == (j / 2) * p2(k + 1));
        assert(s / p2(i) == j / 2);
        let n = xmss_climb(h, ctx, pre, leaf, auth, idx, k);
        assert(n == xmss_node(h, p, ctx, pre, sk_seed, k, j * pk));
        let a = auth.subrange(16 * k as int, 16 * i as int);
        assert(a == xmss_node(h, p, ctx, pre, sk_seed, k, sibling_start(idx, k)));
        assert((i - 1) as nat == k);
    }
}

/// An XMSS signature checks out: rebuilding the root from the signature
/// that `xmss_sign` makes for leaf `idx < 2^h_prime` gives the root of the tree.
pub proof fn lemma_xmss_sign_verify<H: Fn(&[u8]) -> [u8; 32]>(
    h: H,
    p: ParamSet,
    message: Seq<u8>,
    sk_seed: Seq<u8>,
    sk_prf: Seq<u8>,
    pk_seed: Seq<u8>,
    pk_root: Seq<u8>,
    ctx: Seq<u8>,
    pre: Seq<u8>,
    h_prime: nat,
    idx: u32,
)
    requires
        p.wf(),
        pre.len() == 16,
        message.len() >= 16,
        idx < p2(h_prime),
        xmss_sign_spec(h, p, message, sk_seed, sk_prf, pk_seed, pk_root, ctx, pre, h_prime, idx)
            is Some,
    ensures
        ({
            let sig = xmss_sign_spec(
                h,
                p,
                message,
                sk_seed,
                sk_prf,
                pk_seed,
                pk_root,
                ctx,
                pre,
                h_prime,
                idx,
            )->0;
            let w = p.spec_wots_sign_len();
            xmss_pk_from_sig_spec(
                h,
                p,
                sig.subrange(0, w),
                sig.subrange(w, sig.len() as int),
                message,
                pk_root,
                ctx,
                pre,
                h_prime,
                idx,
            ) == Some(xmss_node(h, p, ctx, pre, sk_seed, h_prime, 0))
        }),
{
    let w = wots_sign_spec(
        h,
        p,
        message,
        sk_seed,
        sk_prf,
        pk_seed,
        pk_root,
        ctx,
        pre,
        idx,
        false,
        true,
    )->0;
    let auth = concat_nodes(xmss_auth_nodes(h, p, ctx, pre, sk_seed, h_prime, idx as int));
    let sig = w + auth;
    crate::wots_c::lemma_wots_sign_len(
        h,
        p,
        message,
        sk_seed,
        sk_prf,
        pk_seed,
        pk_root,
        ctx,
        pre,
        idx,
        false,
        true,
    );
    crate::wots_c::lemma_wots_sign_verify(
        h,
        p,
        message,
        sk_seed,
        sk_prf,
        pk_seed,
        pk_root,
        ctx,
        pre,
        idx,
        false,
        true,
    );
    let wl = p.spec_wots_sign_len();
    assert(sig.subrange(0, wl) =~= w);
    assert(sig.subrange(wl, sig.len() as int) =~= auth);
    lemma_xmss_climb(h, p, ctx, pre, sk_seed, h_prime, idx as int, h_prime);
    lemma_pow2_pos(h_prime);
    assert((idx as int) / p2(h_prime) == 0) by (nonlinear_arith)
        requires
            0 <= idx < p2(h_prime),
    ;
    assert(xmss_node(h, p, ctx, pre, sk_seed, 0, idx as int) == wots_pk_spec(h, p, ctx, pre, sk_seed, idx, false));
}

/// An XMSS signature is a WOTS+C signature followed by `h_prime` nodes.
pub proof fn lemma_xmss_sign_len<H: Fn(&[u8]) -> [u8; 32]>(
    h: H,
    p: ParamSet,
    message: Seq<u8>,
    sk_seed: Seq<u8>,
    sk_prf: Seq<u8>,
    pk_seed: Seq<u8>,
    pk_root: Seq<u8>,
    ctx: Seq<u8>,
    pre: Seq<u8>,
    h_prime: nat,
    idx: u32,
)
    requires
        xmss_sign_spec(h, p, message, sk_seed, sk_prf, pk_seed, pk_root, ctx, pre, h_prime, idx)
            is Some,
    ensures
        xmss_sign_spec(
            h,
            p,
            message,
            sk_seed,
            sk_prf,
            pk_seed,
            pk_root,
            ctx,
            pre,
            h_prime,
            idx,
        )->0.len() == p.spec_wots_sign_len() + 16 * h_prime,
{
    crate::wots_c::lemma_wots_sign_len(
        h,
        p,
        message,
        sk_seed,
        sk_prf,
        pk_seed,
        pk_root,
        ctx,
        pre,
        idx,
        false,
        true,
    );
    let nodes = xmss_auth_nodes(h, p, ctx, pre, sk_seed, h_prime, idx as int);
    assert forall|i: int| 0 <= i < nodes.len() implies (#[trigger] nodes[i]).len() == 16 by {
        lemma_xmss_node_len(h, p, ctx, pre, sk_seed, i as nat, sibling_start(idx as int, i as nat));
    }
    crate::wots_c::lemma_concat_nodes_index(nodes);
}

/// The address left behind after building the node at `height` from `start`.
pub open spec fn xmss_node_adrs(pre: Seq<u8>, height: nat, start: int) -> Seq<u8> {
    if height == 0 {
        adrs_of(pre, SL_WOTS_PK, start as u32, 0, 0)
    } else {
        adrs_of(pre, SL_TREE, 0, height as u32, (start / p2(height)) as u32)
    }
}

/// The sibling subtree at level `i < 32` of a leaf `x < 2^32` ends within `2^32`.
pub proof fn lemma_sibling_fits(x: int, i: nat)
    requires
        0 <= x < 0x1_0000_0000,
        i < 32,
    ensures
        0 <= sibling_start(x, i),
        sibling_start(x, i) + p2(i) <= 0x1_0000_0000,
        x / p2(i) < 0x1_0000_0000,
{
    let pi = p2(i);
    lemma_pow2_pos(i);
    let m = p2((32 - i) as nat);
    vstd::arithmetic::power2::lemma_pow2_adds(i, (32 - i) as nat);
    vstd::arithmetic::power2::lemma2_to64();
    assert(pi * m == 0x1_0000_0000);
    lemma_pow2_unfold((32 - i) as nat);
    let j = x / pi;
    lemma_fundamental_div_mod(x, pi);
    assert(0 <= j) by (nonlinear_arith)
        requires
            x >= 0,
            pi > 0,
            j == x / pi,
    ;
    assert(j * pi <= x) by (nonlinear_arith)
        requires
            x == pi * j + x % pi,
            0 <= x % pi,
    ;
    assert(j < m) by (nonlinear_arith)
        requires
            j * pi <= x,
            x < pi * m,
            pi > 0,
    ;
    assert(x / pi < 0x1_0000_0000) by (nonlinear_arith)
        requires
            j < m,
            m <= pi * m,
            pi * m == 0x1_0000_0000,
            j == x / pi,
            pi > 0,
    ;
    if j % 2 == 0 {
        assert(j + 2 <= m) by (nonlinear_arith)
            requires
                j % 2 == 0,
                j < m,
                m == 2 * p2((32 - i - 1) as nat),
        ;
        assert(m * pi == pi * m) by (nonlinear_arith);
        assert((j + 1) * pi + pi <= m * pi) by (nonlinear_arith)
            requires
                j + 2 <= m,
                pi > 0,
        ;
        assert(0 <= (j + 1) * pi) by (nonlinear_arith)
            requires
                j >= 0,
                pi > 0,
        ;
    } else {
        assert((j - 1) * pi + pi == j * pi) by (nonlinear_arith);
        assert(0 <= (j - 1) * pi) by (nonlinear_arith)
            requires
                j >= 1,
                pi > 0,
        ;
    }
}

/// `2^n` for `n < 32`, at run time.
fn pow2_u32(n: u32) -> (r: u32)
    requires
        n < 32,
    ensures
        r == p2(n as nat),
{
    proof {
        vstd::bits::lemma_u32_pow2_no_overflow(n as nat);
        vstd::bits::lemma_u32_shl_is_mul(1, n);
    }
    1u32 << n
}

/// Build the node at `target_height` above the leaves
/// `start_idx .. start_idx + 2^target_height`.
pub fn xmss_treehash<P: Params, H: Fn(&[u8]) -> [u8; 32]>(
    h: &H,
    sk_seed: &[u8],
    hash_ctx: &Sha256Ctx,
    adrs: &mut Adrs,
    target_height: u32,
    start_idx: u32,
) -> (res: Node)
    requires
        is_hash_fn(*h),
        target_height < 32,
        start_idx + p2(target_height as nat) <= 0x1_0000_0000,
    ensures
        res@ == xmss_node(
            *h,
            P::spec_params(),
            hash_ctx@,
            old(adrs)@.subrange(0, 16),
            sk_seed@,
            target_height as nat,
            start_idx as int,
        ),
        final(adrs)@ == xmss_node_adrs(
            old(adrs)@.subrange(0, 16),
            target_height as nat,
            start_idx as int,
        ),
    decreases target_height,
{
    let ghost pre = old(adrs)@.subrange(0, 16);
    if target_height == 0 {
        return wots_pk_gen::<P, H>(h, sk_seed, hash_ctx, adrs, start_idx, false);
    }
    let half = pow2_u32(target_height - 1);
    proof {
        lemma_pow2_unfold(target_height as nat);
        lemma_pow2_pos((target_height - 1) as nat);
    }
    let left = xmss_treehash::<P, H>(h, sk_seed, hash_ctx, adrs, target_height - 1, start_idx);
    proof {
        if target_height - 1 == 0 {
            lemma_splice_tail(pre, SL_WOTS_PK, start_idx, 0, 0, 0);
        } else {
            lemma_splice_tail(
                pre,
                SL_TREE,
                0,
                (target_height - 1) as u32,
                (start_idx as int / p2((target_height - 1) as nat)) as u32,
                0,
            );
        }
    }
    let right = xmss_treehash::<P, H>(
        h,
        sk_seed,
        hash_ctx,
        adrs,
        target_height - 1,
        start_idx + half,
    );
    proof {
        if target_height - 1 == 0 {
            lemma_splice_tail(pre, SL_WOTS_PK, (start_idx + half) as u32, 0, 0, 0);
        } else {
            lemma_splice_tail(
                pre,
                SL_TREE,
                0,
                (target_height - 1) as u32,
                ((start_idx + half) as int / p2((target_height - 1) as nat)) as u32,
                0,
            );
        }
        vstd::bits::lemma_u32_shr_is_div(start_idx, target_height);
    }
    set_type_and_clear(adrs, SL_TREE);
    set_tree_height(adrs, target_height);
    set_tree_index(adrs, start_idx >> target_height);
    proof {
        lemma_splice_tail(pre, SL_TREE, 0, 0, 0, target_height);
        lemma_splice_tail(pre, SL_TREE, 0, target_height, 0, start_idx >> target_height);
    }
    let ctx = hash_ctx.add_to_ctx(adrs).add_to_ctx(&left).add_to_ctx(&right);
    finalize_node(h, &ctx)
}

/// The root of a full `h_prime`-high XMSS tree.
pub fn xmss_root<P: Params, H: Fn(&[u8]) -> [u8; 32]>(
    h: &H,
    sk_seed: &[u8],
    hash_ctx: &Sha256Ctx,
    adrs: &mut Adrs,
    h_prime: u32,
) -> (res: Node)
    requires
        is_hash_fn(*h),
        h_prime < 32,
    ensures
        res@ == xmss_node(
            *h,
            P::spec_params(),
            hash_ctx@,
            old(adrs)@.subrange(0, 16),
            sk_seed@,
            h_prime as nat,
            0,
        ),
        final(adrs)@ == xmss_node_adrs(old(adrs)@.subrange(0, 16), h_prime as nat, 0),
{
    proof {
        vstd::bits::lemma_u32_pow2_no_overflow(h_prime as nat);
    }
    xmss_treehash::<P, H>(h, sk_seed, hash_ctx, adrs, h_prime, 0)
}

/// The authentication path (one sibling node per level) of leaf `idx`.
pub fn xmss_auth_path<P: Params, H: Fn(&[u8]) -> [u8; 32]>(
    h: &H,
    sk_seed: &[u8],
    hash_ctx: &Sha256Ctx,
    adrs: &mut Adrs,
    h_prime: u32,
    idx: u32,
) -> (auth: Vec<u8>)
    requires
        is_hash_fn(*h),
        h_prime <= 32,
    ensures
        auth@ == concat_nodes(
            xmss_auth_nodes(
                *h,
                P::spec_params(),
                hash_ctx@,
                old(adrs)@.subrange(0, 16),
                sk_seed@,
                h_prime as nat,
                idx as int,
            ),
        ),
        final(adrs)@ == if h_prime == 0 {
            old(adrs)@
        } else {
            xmss_node_adrs(
                old(adrs)@.subrange(0, 16),
                (h_prime - 1) as nat,
                sibling_start(idx as int, (h_prime - 1) as nat),
            )
        },
        final(adrs)@.subrange(0, 16) == old(adrs)@.subrange(0, 16),
{
    let ghost pre = old(adrs)@.subrange(0, 16);
    let ghost nodes = xmss_auth_nodes(
        *h,
        P::spec_params(),
        hash_ctx@,
        pre,
        sk_seed@,
        h_prime as nat,
        idx as int,
    );
    let mut auth: Vec<u8> = Vec::new();
    let mut i: u32 = 0;
    while i < h_prime
        invariant
            is_hash_fn(*h),
            h_prime <= 32,
            0 <= i <= h_prime,
            adrs@.subrange(0, 16) == pre,
            pre.len() == 16,
            nodes == xmss_auth_nodes(
                *h,
                P::spec_params(),
                hash_ctx@,
                pre,
                sk_seed@,
                h_prime as nat,
                idx as int,
            ),
            auth@ == concat_nodes(nodes.subrange(0, i as int)),
            adrs@ == if i == 0 {
                old(adrs)@
            } else {
                xmss_node_adrs(pre, (i - 1) as nat, sibling_start(idx as int, (i - 1) as nat))
            },
        decreases h_prime - i,
    {
        proof {
            lemma_sibling_fits(idx as int, i as nat);
            lemma_pow2_pos(i as nat);
            vstd::bits::lemma_u32_shr_is_div(idx, i);
        }
        let j = idx >> i;
        let odd = j & 1;
        assert(odd == j % 2) by (bit_vector)
            requires
                odd == j & 1,
        ;
        let sibling: u32 = if odd == 0 {
            proof {
                vstd::bits::lemma_u32_shl_is_mul((j + 1) as u32, i);
            }
            (j + 1) << i
        } else {
            proof {
                vstd::bits::lemma_u32_shl_is_mul((j - 1) as u32, i);
            }
            (j - 1) << i
        };
        assert(sibling as int == sibling_start(idx as int, i as nat));
        let tmp = xmss_treehash::<P, H>(h, sk_seed, hash_ctx, adrs, i, sibling);
        proof {
            if i == 0 {
                lemma_splice_tail(pre, SL_WOTS_PK, sibling, 0, 0, 0);
            } else {
                lemma_splice_tail(pre, SL_TREE, 0, i, (sibling as int / p2(i as nat)) as u32, 0);
            }
        }
        append_bytes(&mut auth, &tmp);
        proof {
            lemma_concat_nodes_push(nodes.subrange(0, i as int), nodes[i as int]);
            assert(nodes.subrange(0, i + 1) =~= nodes.subrange(0, i as int).push(nodes[i as int]));
        }
        i += 1;
    }
    assert(nodes.subrange(0, i as int) =~= nodes);
    auth
}

/// Rebuild the XMSS root from a WOTS+C signature and an authentication path
/// for leaf `idx`.
pub fn xmss_pk_from_sig<P: Params, H: Fn(&[u8]) -> [u8; 32]>(
    h: &H,
    wots_sig: &[u8],
    auth: &[u8],
    message: &[u8],
    pk_root: &[u8],
    hash_ctx: &Sha256Ctx,
    adrs: &mut Adrs,
    h_prime: u32,
    idx: u32,
) -> (res: Result<Node, Error>)
    requires
        is_hash_fn(*h),
        wots_sig@.len() >= P::spec_params().spec_wots_sign_len(),
        auth@.len() >= 16 * h_prime,
        message@.len() >= 16,
    ensures
        ({
            let spec = xmss_pk_from_sig_spec(
                *h,
                P::spec_params(),
                wots_sig@,
                auth@,
                message@,
                pk_root@,
                hash_ctx@,
                old(adrs)@.subrange(0, 16),
                h_prime as nat,
                idx,
            );
            match res {
                Ok(node) => spec == Some(node@),
                Err(e) => e == Error::DigestInvalid && spec is None,
            }
        }),
        final(adrs)@ == if res is Ok {
            xmss_node_adrs(old(adrs)@.subrange(0, 16), h_prime as nat, idx as int)
        } else {
            adrs_of(old(adrs)@.subrange(0, 16), SL_WOTS_GRIND, idx, 0, 0)
        },
        final(adrs)@.subrange(0, 16) == old(adrs)@.subrange(0, 16),
{
    let ghost pre = old(adrs)@.subrange(0, 16);
    let mut node = match wots_pk_from_sig::<P, H>(
        h,
        wots_sig,
        message,
        pk_root,
        hash_ctx,
        adrs,
        idx,
        false,
        true,
    ) {
        Ok(n) => n,
        Err(e) => {
            return Err(e);
        },
    };
    let ghost leaf = node@;
    let ghost idx0 = idx as int;
    let mut idx = idx;
    let mut i: u32 = 0;
    proof {
        vstd::arithmetic::power2::lemma2_to64();
        assert(idx0 / p2(0) == idx0);
    }
    let alen = auth.len();
    while i < h_prime
        invariant
            is_hash_fn(*h),
            0 <= i <= h_prime,
            alen == auth@.len(),
            auth@.len() >= 16 * h_prime,
            adrs@.subrange(0, 16) == pre,
            pre.len() == 16,
            idx0 >= 0,
            idx as int == idx0 / p2(i as nat),
            node@ == xmss_climb(*h, hash_ctx@, pre, leaf, auth@, idx0, i as nat),
            adrs@ == xmss_node_adrs(pre, i as nat, idx0),
        decreases h_prime - i,
    {
        proof {
            lemma_level_step(idx0, i as nat);
        }
        set_type_and_clear(adrs, SL_TREE);
        set_tree_height(adrs, i + 1);
        set_tree_index(adrs, idx >> 1u32);
        proof {
            lemma_splice_tail(pre, SL_TREE, 0, 0, 0, (i + 1) as u32);
            lemma_splice_tail(pre, SL_TREE, 0, (i + 1) as u32, 0, idx >> 1u32);
        }
        assert((idx >> 1u32) == idx / 2) by (bit_vector);
        assert((idx & 1u32 == 0) == (idx % 2 == 0)) by (bit_vector);
        let a = read_node(auth, (i as usize) * 16);
        let base = hash_ctx.add_to_ctx(adrs);
        let ctx = if (idx & 1) == 0 {
            base.add_to_ctx(&node).add_to_ctx(&a)
        } else {
            base.add_to_ctx(&a).add_to_ctx(&node)
        };
        node = finalize_node(h, &ctx);
        proof {
            assert(((i + 1) as nat - 1) as nat == i as nat);
            assert(a@ == auth@.subrange(16 * i as int, 16 * (i + 1) as int));
        }
        idx = idx >> 1u32;
        i += 1;
    }
    Ok(node)
}

/// The address that WOTS+C signing leaves keeps the prefix.
proof fn lemma_wots_sign_adrs_prefix<H: Fn(&[u8]) -> [u8; 32]>(
    h: H,
    p: ParamSet,
    message: Seq<u8>,
    sk_prf: Seq<u8>,
    pk_seed: Seq<u8>,
    pk_root: Seq<u8>,
    ctx: Seq<u8>,
    pre: Seq<u8>,
    idx: u32,
)
    requires
        pre.len() == 16,
    ensures
        crate::wots_c::wots_sign_adrs(
            h,
            p,
            message,
            sk_prf,
            pk_seed,
            pk_root,
            ctx,
            pre,
            idx,
            false,
            true,
        ).subrange(0, 16) == pre,
{
    let a = crate::wots_c::wots_sign_adrs(h, p, message, sk_prf, pk_seed, pk_root, ctx, pre, idx, false, true);
    assert(a.subrange(0, 16) =~= pre);
}

/// Produce an XMSS signature (WOTS+C signature of the 16-byte `message`, then
/// the authentication path) for leaf `idx`.
pub fn xmss_sign<P: Params, H: Fn(&[u8]) -> [u8; 32]>(
    h: &H,
    message: &[u8],
    sk_seed: &[u8],
    sk_prf: &[u8],
    pk_seed: &[u8],
    pk_root: &[u8],
    hash_ctx: &Sha256Ctx,
    adrs: &mut Adrs,
    h_prime: u32,
    idx: u32,
) -> (res: Result<Vec<u8>, Error>)
    requires
        is_hash_fn(*h),
        message@.len() >= 16,
        h_prime <= 32,
    ensures
        ({
            let spec = xmss_sign_spec(
                *h,
                P::spec_params(),
                message@,
                sk_seed@,
                sk_prf@,
                pk_seed@,
                pk_root@,
                hash_ctx@,
                old(adrs)@.subrange(0, 16),
                h_prime as nat,
                idx,
            );
            match res {
                Ok(sig) => spec == Some(sig@),
                Err(e) => e == Error::GrindFailed && spec is None,
            }
        }),
        final(adrs)@ == if res is Ok && h_prime > 0 {
            xmss_node_adrs(
                old(adrs)@.subrange(0, 16),
                (h_prime - 1) as nat,
                sibling_start(idx as int, (h_prime - 1) as nat),
            )
        } else {
            crate::wots_c::wots_sign_adrs(
                *h,
                P::spec_params(),
                message@,
                sk_prf@,
                pk_seed@,
                pk_root@,
                hash_ctx@,
                old(adrs)@.subrange(0, 16),
                idx,
                false,
                true,
            )
        },
        final(adrs)@.subrange(0, 16) == old(adrs)@.subrange(0, 16),
{
    let ghost pre = old(adrs)@.subrange(0, 16);
    let wots_sig = wots_sign::<P, H>(
        h,
        message,
        sk_seed,
        sk_prf,
        pk_seed,
        pk_root,
        hash_ctx,
        adrs,
        idx,
        false,
        true,
    )?;
    proof {
        lemma_wots_sign_adrs_prefix(
            *h,
            P::spec_params(),
            message@,
            sk_prf@,
            pk_seed@,
            pk_root@,
            hash_ctx@,
            pre,
            idx,
        );
    }
    let auth = xmss_auth_path::<P, H>(h, sk_seed, hash_ctx, adrs, h_prime, idx);
    let mut sig = wots_sig;
    append_bytes(&mut sig, auth.as_slice());
    Ok(sig)
}

} // verus!
