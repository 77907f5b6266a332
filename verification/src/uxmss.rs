//! UXMSS: the unbalanced XMSS tree used for **stateful** signatures.
//!
//! The stateful tree has height `hsf` and `hsf + 1` WOTS+C leaves: at level
//! `k` the left child is leaf `k + 1` and the right child is the rest of the
//! tree, except at the deepest level where the right child is the extra leaf
//! `hsf + 1`.
use vstd::prelude::*;

use crate::address::{
    adrs_of, adrs_prefix, lemma_layer_tree, lemma_splice_tail, set_layer_address,
    set_tree_address, set_tree_height, set_tree_index, set_type_and_clear, Adrs,
};
use crate::constants::{ParamSet, Params, SF_TREE, SF_WOTS_GRIND, SF_WOTS_PK};
use crate::hash::{append_bytes, finalize_node, hash_n, is_hash_fn, lemma_digest_len, Sha256Ctx};
use crate::wots_c::{
    concat_nodes, lemma_concat_nodes_index, lemma_concat_nodes_push, read_node, wots_pk_from_sig,
    wots_pk_from_sig_spec, wots_pk_gen, wots_pk_spec, wots_sign, wots_sign_spec, Error, Node,
};

verus! {

// ----------------------------------------------------------------------------
// Specification
// ----------------------------------------------------------------------------

/// The address prefix of the stateful tree: layer 0, tree 0.
pub open spec fn sf_prefix() -> Seq<u8> {
    adrs_prefix(0, 0, 0)
}

/// The stateful WOTS+C public key of leaf `kp`.
pub open spec fn sf_leaf<H: Fn(&[u8]) -> [u8; 32]>(
    h: H,
    p: ParamSet,
    ctx: Seq<u8>,
    pre: Seq<u8>,
    sk_seed: Seq<u8>,
    kp: int,
) -> Seq<u8> {
    wots_pk_spec(h, p, ctx, pre, sk_seed, kp as u32, true)
}

/// The UXMSS node at `level` (0 is the root): its left child is leaf
/// `level + 1`, its right child the node one level down, or leaf `hsf + 1`
/// at the deepest level.
pub open spec fn uxmss_node<H: Fn(&[u8]) -> [u8; 32]>(
    h: H,
    p: ParamSet,
    ctx: Seq<u8>,
    pre: Seq<u8>,
    sk_seed: Seq<u8>,
    level: int,
) -> Seq<u8>
    decreases p.hsf - level,
{
    let left = sf_leaf(h, p, ctx, pre, sk_seed, level + 1);
    let right = if level + 1 >= p.hsf {
        sf_leaf(h, p, ctx, pre, sk_seed, p.hsf + 1)
    } else {
        uxmss_node(h, p, ctx, pre, sk_seed, level + 1)
    };
    hash_n(h, ctx + adrs_of(pre, SF_TREE, 0, (p.hsf - level) as u32, 0) + left + right)
}

/// The authentication path of signature number `q`.
pub open spec fn uxmss_auth_nodes<H: Fn(&[u8]) -> [u8; 32]>(
    h: H,
    p: ParamSet,
    ctx: Seq<u8>,
    pre: Seq<u8>,
    sk_seed: Seq<u8>,
    q: int,
) -> Seq<Seq<u8>> {
    if q <= p.hsf {
        Seq::new(
            if q == 0 { 1nat } else { q as nat },
            |i: int|
                if i == 0 {
                    if q == p.hsf {
                        sf_leaf(h, p, ctx, pre, sk_seed, p.hsf + 1)
                    } else {
                        uxmss_node(h, p, ctx, pre, sk_seed, q)
                    }
                } else {
                    sf_leaf(h, p, ctx, pre, sk_seed, q - i)
                },
        )
    } else {
        Seq::new(p.hsf as nat, |i: int| sf_leaf(h, p, ctx, pre, sk_seed, p.hsf - i))
    }
}

/// The node reached after `k` steps up from `leaf` along `auth` for
/// signature number `q`.
pub open spec fn uxmss_up<H: Fn(&[u8]) -> [u8; 32]>(
    h: H,
    hsf: int,
    ctx: Seq<u8>,
    pre: Seq<u8>,
    leaf: Seq<u8>,
    auth: Seq<u8>,
    q: int,
    k: nat,
) -> Seq<u8>
    decreases k,
{
    if k == 0 {
        leaf
    } else {
        let prev = uxmss_up(h, hsf, ctx, pre, leaf, auth, q, (k - 1) as nat);
        let i = k - 1;
        let a = auth.subrange(16 * i, 16 * i + 16);
        if q <= hsf {
            if i == 0 {
                hash_n(h, ctx + adrs_of(pre, SF_TREE, 0, (hsf - (q - 1)) as u32, 0) + prev + a)
            } else {
                hash_n(h, ctx + adrs_of(pre, SF_TREE, 0, (hsf - (q - 1 - i)) as u32, 0) + a + prev)
            }
        } else {
            hash_n(h, ctx + adrs_of(pre, SF_TREE, 0, (i + 1) as u32, 0) + a + prev)
        }
    }
}

/// The number of steps up from the leaf for signature number `q`.
pub open spec fn uxmss_steps(hsf: int, q: int) -> nat {
    if q <= hsf { q as nat } else { hsf as nat }
}

/// The stateful root that a WOTS+C signature and authentication path give
/// for signature number `q`, when the WOTS+C digest is valid.
pub open spec fn uxmss_pk_from_sig_spec<H: Fn(&[u8]) -> [u8; 32]>(
    h: H,
    p: ParamSet,
    wots_sig: Seq<u8>,
    auth: Seq<u8>,
    message: Seq<u8>,
    pk_root: Seq<u8>,
    ctx: Seq<u8>,
    q: u32,
) -> Option<Seq<u8>> {
    match wots_pk_from_sig_spec(h, p, wots_sig, message, pk_root, ctx, sf_prefix(), q, true, false) {
        None => None,
        Some(leaf) => Some(
            uxmss_up(h, p.hsf as int, ctx, sf_prefix(), leaf, auth, q as int, uxmss_steps(p.hsf as int, q as int)),
        ),
    }
}

/// The stateful signature body for signature number `q`: the WOTS+C
/// signature of leaf `q`, then `q` path nodes (`hsf` for the extra leaf).
pub open spec fn uxmss_sign_spec<H: Fn(&[u8]) -> [u8; 32]>(
    h: H,
    p: ParamSet,
    message: Seq<u8>,
    sk_seed: Seq<u8>,
    sk_prf: Seq<u8>,
    pk_seed: Seq<u8>,
    pk_root: Seq<u8>,
    ctx: Seq<u8>,
    q: u32,
) -> Option<Seq<u8>> {
    let q_auth = if q > p.hsf { q - 1 } else { q as int };
    match wots_sign_spec(h, p, message, sk_seed, sk_prf, pk_seed, pk_root, ctx, sf_prefix(), q, true, false) {
        None => None,
        Some(w) => Some(
            w + concat_nodes(uxmss_auth_nodes(h, p, ctx, sf_prefix(), sk_seed, q as int)).subrange(
                0,
                16 * q_auth,
            ),
        ),
    }
}

// ----------------------------------------------------------------------------
// Executable functions
// ----------------------------------------------------------------------------

/// Build the UXMSS node at `level` (0 is the root).
pub fn uxmss_treehash<P: Params, H: Fn(&[u8]) -> [u8; 32]>(
    h: &H,
    sk_seed: &[u8],
    hash_ctx: &Sha256Ctx,
    adrs: &mut Adrs,
    level: u32,
) -> (res: Node)
    requires
        is_hash_fn(*h),
        level < P::spec_params().hsf,
    ensures
        res@ == uxmss_node(
            *h,
            P::spec_params(),
            hash_ctx@,
            old(adrs)@.subrange(0, 16),
            sk_seed@,
            level as int,
        ),
        final(adrs)@ == adrs_of(
            old(adrs)@.subrange(0, 16),
            SF_TREE,
            0,
            (P::spec_params().hsf - level) as u32,
            0,
        ),
    decreases P::spec_params().hsf - level,
{
    let p = P::params();
    let ghost pre = old(adrs)@.subrange(0, 16);
    let left = wots_pk_gen::<P, H>(h, sk_seed, hash_ctx, adrs, level + 1, true);
    proof {
        lemma_splice_tail(pre, SF_WOTS_PK, (level + 1) as u32, 0, 0, 0);
    }
    let right = if level as usize == p.hsf - 1 {
        let r = wots_pk_gen::<P, H>(h, sk_seed, hash_ctx, adrs, (p.hsf + 1) as u32, true);
        proof {
            lemma_splice_tail(pre, SF_WOTS_PK, (p.hsf + 1) as u32, 0, 0, 0);
        }
        r
    } else {
        let r = uxmss_treehash::<P, H>(h, sk_seed, hash_ctx, adrs, level + 1);
        proof {
            lemma_splice_tail(pre, SF_TREE, 0, (p.hsf - (level + 1)) as u32, 0, 0);
        }
        r
    };
    set_type_and_clear(adrs, SF_TREE);
    set_tree_height(adrs, p.hsf as u32 - level);
    set_tree_index(adrs, 0);
    proof {
        lemma_splice_tail(pre, SF_TREE, 0, 0, 0, (p.hsf - level) as u32);
        lemma_splice_tail(pre, SF_TREE, 0, (p.hsf - level) as u32, 0, 0);
    }
    let ctx = hash_ctx.add_to_ctx(adrs).add_to_ctx(&left).add_to_ctx(&right);
    finalize_node(h, &ctx)
}

/// The address that building the authentication path of signature number
/// `q` leaves behind: at the public key of leaf 1 when the path ends with
/// it, else at the subtree node the path consists of.
pub open spec fn uxmss_auth_adrs(p: ParamSet, q: u32) -> Seq<u8> {
    if q >= 2 {
        adrs_of(sf_prefix(), SF_WOTS_PK, 1, 0, 0)
    } else {
        adrs_of(sf_prefix(), SF_TREE, 0, (p.hsf - q) as u32, 0)
    }
}

/// Set layer 0 and tree 0.
fn set_sf_prefix(adrs: &mut Adrs)
    ensures
        final(adrs)@.subrange(0, 16) == sf_prefix(),
        final(adrs)@.subrange(16, 32) == old(adrs)@.subrange(16, 32),
{
    set_layer_address(adrs, 0);
    set_tree_address(adrs, 0, 0);
    proof {
        lemma_layer_tree(old(adrs)@, 0, 0, 0);
    }
}

/// The stateful tree root (layer 0, tree 0).
pub fn uxmss_root<P: Params, H: Fn(&[u8]) -> [u8; 32]>(
    h: &H,
    sk_seed: &[u8],
    hash_ctx: &Sha256Ctx,
    adrs: &mut Adrs,
) -> (res: Node)
    requires
        is_hash_fn(*h),
    ensures
        res@ == uxmss_node(*h, P::spec_params(), hash_ctx@, sf_prefix(), sk_seed@, 0),
        final(adrs)@ == adrs_of(sf_prefix(), SF_TREE, 0, P::spec_params().hsf as u32, 0),
        final(adrs)@.subrange(0, 16) == sf_prefix(),
{
    let p = P::params();
    set_sf_prefix(adrs);
    let r = uxmss_treehash::<P, H>(h, sk_seed, hash_ctx, adrs, 0);
    proof {
        lemma_splice_tail(sf_prefix(), SF_TREE, 0, p.hsf as u32, 0, 0);
    }
    r
}

/// The UXMSS authentication path for signature number `q` (1-based): `q`
/// nodes, or `hsf` for the extra leaf.
pub fn uxmss_auth_path<P: Params, H: Fn(&[u8]) -> [u8; 32]>(
    h: &H,
    sk_seed: &[u8],
    hash_ctx: &Sha256Ctx,
    adrs: &mut Adrs,
    q: u32,
) -> (auth: Vec<u8>)
    requires
        is_hash_fn(*h),
    ensures
        auth@ == concat_nodes(
            uxmss_auth_nodes(*h, P::spec_params(), hash_ctx@, sf_prefix(), sk_seed@, q as int),
        ),
        final(adrs)@ == uxmss_auth_adrs(P::spec_params(), q),
        final(adrs)@.subrange(0, 16) == sf_prefix(),
{
    let p = P::params();
    let ghost pre = sf_prefix();
    let ghost nodes = uxmss_auth_nodes(*h, p, hash_ctx@, pre, sk_seed@, q as int);
    set_sf_prefix(adrs);
    let mut auth: Vec<u8> = Vec::new();
    if q as usize <= p.hsf {
        let first = if q as usize == p.hsf {
            let r = wots_pk_gen::<P, H>(h, sk_seed, hash_ctx, adrs, (p.hsf + 1) as u32, true);
            proof {
                lemma_splice_tail(pre, SF_WOTS_PK, (p.hsf + 1) as u32, 0, 0, 0);
            }
            r
        } else {
            let r = uxmss_treehash::<P, H>(h, sk_seed, hash_ctx, adrs, q);
            proof {
                lemma_splice_tail(pre, SF_TREE, 0, (p.hsf - q) as u32, 0, 0);
            }
            r
        };
        let ghost first_adrs = adrs@;
        append_bytes(&mut auth, &first);
        proof {
            lemma_concat_nodes_push(nodes.subrange(0, 0), nodes[0]);
            assert(nodes.subrange(0, 1) =~= nodes.subrange(0, 0).push(nodes[0]));
        }
        let mut i: u32 = 1;
        while i < q
            invariant
                is_hash_fn(*h),
                p == P::spec_params(),
                p.wf(),
                q <= p.hsf,
                1 <= i,
                i <= (if q == 0 { 1 } else { q }),
                adrs@.subrange(0, 16) == pre,
                pre == sf_prefix(),
                nodes == uxmss_auth_nodes(*h, p, hash_ctx@, pre, sk_seed@, q as int),
                auth@ == concat_nodes(nodes.subrange(0, i as int)),
                first_adrs == if q as int == p.hsf {
                    adrs_of(pre, SF_WOTS_PK, (p.hsf + 1) as u32, 0, 0)
                } else {
                    adrs_of(pre, SF_TREE, 0, (p.hsf - q) as u32, 0)
                },
                adrs@ == if i == 1 {
                    first_adrs
                } else {
                    adrs_of(pre, SF_WOTS_PK, (q - (i - 1)) as u32, 0, 0)
                },
            decreases q - i,
        {
            let tmp = wots_pk_gen::<P, H>(h, sk_seed, hash_ctx, adrs, q - i, true);
            proof {
                lemma_splice_tail(pre, SF_WOTS_PK, (q - i) as u32, 0, 0, 0);
            }
            append_bytes(&mut auth, &tmp);
            proof {
                lemma_concat_nodes_push(nodes.subrange(0, i as int), nodes[i as int]);
                assert(nodes.subrange(0, i + 1) =~= nodes.subrange(0, i as int).push(nodes[i as int]));
            }
            i += 1;
        }
        assert(i as int == nodes.len());
        assert(nodes.subrange(0, i as int) =~= nodes);
    } else {
        let mut i: usize = 0;
        while i < p.hsf
            invariant
                is_hash_fn(*h),
                p == P::spec_params(),
                p.wf(),
                q > p.hsf,
                0 <= i <= p.hsf,
                adrs@.subrange(0, 16) == pre,
                pre == sf_prefix(),
                nodes == uxmss_auth_nodes(*h, p, hash_ctx@, pre, sk_seed@, q as int),
                auth@ == concat_nodes(nodes.subrange(0, i as int)),
                i > 0 ==> adrs@ == adrs_of(pre, SF_WOTS_PK, (p.hsf - (i - 1)) as u32, 0, 0),
            decreases p.hsf - i,
        {
            let tmp = wots_pk_gen::<P, H>(h, sk_seed, hash_ctx, adrs, (p.hsf - i) as u32, true);
            proof {
                lemma_splice_tail(pre, SF_WOTS_PK, (p.hsf - i) as u32, 0, 0, 0);
            }
            append_bytes(&mut auth, &tmp);
            proof {
                lemma_concat_nodes_push(nodes.subrange(0, i as int), nodes[i as int]);
                assert(nodes.subrange(0, i + 1) =~= nodes.subrange(0, i as int).push(nodes[i as int]));
            }
            i += 1;
        }
        assert(nodes.subrange(0, i as int) =~= nodes);
    }
    auth
}

/// Rebuild the stateful root from a WOTS+C signature and an authentication
/// path for signature number `q >= 1`.
pub fn uxmss_pk_from_sig<P: Params, H: Fn(&[u8]) -> [u8; 32]>(
    h: &H,
    wots_sig: &[u8],
    auth: &[u8],
    message: &[u8],
    pk_root: &[u8],
    hash_ctx: &Sha256Ctx,
    adrs: &mut Adrs,
    q: u32,
) -> (res: Result<Node, Error>)
    requires
        is_hash_fn(*h),
        q >= 1,
        wots_sig@.len() >= P::spec_params().spec_wots_sign_len(),
        auth@.len() >= 16 * uxmss_steps(P::spec_params().hsf as int, q as int),
    ensures
        ({
            let spec = uxmss_pk_from_sig_spec(
                *h,
                P::spec_params(),
                wots_sig@,
                auth@,
                message@,
                pk_root@,
                hash_ctx@,
                q,
            );
            match res {
                Ok(node) => spec == Some(node@),
                Err(e) => e == Error::DigestInvalid && spec is None,
            }
        }),
        final(adrs)@ == if res is Ok {
            adrs_of(sf_prefix(), SF_TREE, 0, P::spec_params().hsf as u32, 0)
        } else {
            adrs_of(sf_prefix(), SF_WOTS_GRIND, q, 0, 0)
        },
        final(adrs)@.subrange(0, 16) == sf_prefix(),
{
    let p = P::params();
    let ghost pre = sf_prefix();
    set_sf_prefix(adrs);
    let mut node = match wots_pk_from_sig::<P, H>(
        h,
        wots_sig,
        message,
        pk_root,
        hash_ctx,
        adrs,
        q,
        true,
        false,
    ) {
        Ok(n) => n,
        Err(e) => {
            return Err(e);
        },
    };
    let ghost leaf = node@;
    let ghost hsf = p.hsf as int;
    set_type_and_clear(adrs, SF_TREE);
    proof {
        p.lemma_sizes();
        lemma_splice_tail(pre, SF_TREE, 0, 0, 0, 0);
    }
    let alen = auth.len();
    if q as usize <= p.hsf {
        set_tree_height(adrs, p.hsf as u32 - (q - 1));
        set_tree_index(adrs, 0);
        proof {
            lemma_splice_tail(pre, SF_TREE, 0, 0, 0, (p.hsf - (q - 1)) as u32);
            lemma_splice_tail(pre, SF_TREE, 0, (p.hsf - (q - 1)) as u32, 0, 0);
        }
        let a0 = read_node(auth, 0);
        assert(adrs@ == adrs_of(pre, SF_TREE, 0, (p.hsf - (q - 1)) as u32, 0));
        assert(node@ == leaf);
        let ctx = hash_ctx.add_to_ctx(adrs).add_to_ctx(&node).add_to_ctx(&a0);
        node = finalize_node(h, &ctx);
        assert(a0@ == auth@.subrange(0, 16));
        assert(uxmss_up(*h, hsf, hash_ctx@, pre, leaf, auth@, q as int, 0) == leaf);
        assert(node@ == uxmss_up(*h, hsf, hash_ctx@, pre, leaf, auth@, q as int, 1));
        let mut i: u32 = 1;
        while i < q
            invariant
                is_hash_fn(*h),
                p == P::spec_params(),
                p.wf(),
                hsf == p.hsf,
                1 <= q <= p.hsf,
                1 <= i <= q,
                alen == auth@.len(),
                auth@.len() >= 16 * q,
                pre == sf_prefix(),
                adrs@ == adrs_of(pre, SF_TREE, 0, (p.hsf - (q - 1 - (i - 1))) as u32, 0),
                node@ == uxmss_up(*h, hsf, hash_ctx@, pre, leaf, auth@, q as int, i as nat),
            decreases q - i,
        {
            set_tree_height(adrs, p.hsf as u32 - (q - 1 - i));
            set_tree_index(adrs, 0);
            proof {
                lemma_splice_tail(pre, SF_TREE, 0, (p.hsf - (q - 1 - (i - 1))) as u32, 0, (p.hsf - (q - 1 - i)) as u32);
                lemma_splice_tail(pre, SF_TREE, 0, (p.hsf - (q - 1 - i)) as u32, 0, 0);
            }
            let a = read_node(auth, (i as usize) * 16);
            let ctx = hash_ctx.add_to_ctx(adrs).add_to_ctx(&a).add_to_ctx(&node);
            node = finalize_node(h, &ctx);
            i += 1;
        }
        Ok(node)
    } else {
        let mut i: usize = 0;
        while i < p.hsf
            invariant
                is_hash_fn(*h),
                p == P::spec_params(),
                p.wf(),
                hsf == p.hsf,
                q > p.hsf,
                0 <= i <= p.hsf,
                alen == auth@.len(),
                auth@.len() >= 16 * p.hsf,
                pre == sf_prefix(),
                adrs@.subrange(0, 16) == pre,
                adrs@ == adrs_of(pre, SF_TREE, 0, i as u32, 0),
                node@ == uxmss_up(*h, hsf, hash_ctx@, pre, leaf, auth@, q as int, i as nat),
            decreases p.hsf - i,
        {
            set_tree_height(adrs, (i + 1) as u32);
            set_tree_index(adrs, 0);
            proof {
                lemma_splice_tail(pre, SF_TREE, 0, i as u32, 0, (i + 1) as u32);
                lemma_splice_tail(pre, SF_TREE, 0, (i + 1) as u32, 0, 0);
            }
            let a = read_node(auth, i * 16);
            let ctx = hash_ctx.add_to_ctx(adrs).add_to_ctx(&a).add_to_ctx(&node);
            node = finalize_node(h, &ctx);
            i += 1;
        }
        Ok(node)
    }
}

/// Produce the stateful signature body for signature number `q`: the WOTS+C
/// signature of leaf `q` and its authentication path (`hsf` nodes for the
/// extra leaf `hsf + 1`).
pub fn uxmss_sign<P: Params, H: Fn(&[u8]) -> [u8; 32]>(
    h: &H,
    message: &[u8],
    sk_seed: &[u8],
    sk_prf: &[u8],
    pk_seed: &[u8],
    pk_root: &[u8],
    hash_ctx: &Sha256Ctx,
    adrs: &mut Adrs,
    q: u32,
) -> (res: Result<Vec<u8>, Error>)
    requires
        is_hash_fn(*h),
        q <= P::spec_params().hsf + 1,
    ensures
        ({
            let spec = uxmss_sign_spec(
                *h,
                P::spec_params(),
                message@,
                sk_seed@,
                sk_prf@,
                pk_seed@,
                pk_root@,
                hash_ctx@,
                q,
            );
            match res {
                Ok(sig) => spec == Some(sig@),
                Err(e) => e == Error::GrindFailed && spec is None,
            }
        }),
        final(adrs)@ == if res is Ok {
            uxmss_auth_adrs(P::spec_params(), q)
        } else {
            crate::wots_c::wots_sign_adrs(
                *h,
                P::spec_params(),
                message@,
                sk_prf@,
                pk_seed@,
                pk_root@,
                hash_ctx@,
                sf_prefix(),
                q,
                true,
                false,
            )
        },
        final(adrs)@.subrange(0, 16) == sf_prefix(),
{
    let p = P::params();
    set_sf_prefix(adrs);
    let wots_sig = wots_sign::<P, H>(
        h,
        message,
        sk_seed,
        sk_prf,
        pk_seed,
        pk_root,
        hash_ctx,
        adrs,
        q,
        true,
        false,
    )?;
    let auth = uxmss_auth_path::<P, H>(h, sk_seed, hash_ctx, adrs, q);
    let q_auth: usize = if q as usize > p.hsf { (q - 1) as usize } else { q as usize };
    let ghost nodes = uxmss_auth_nodes(*h, p, hash_ctx@, sf_prefix(), sk_seed@, q as int);
    proof {
        assert forall|i: int| 0 <= i < nodes.len() implies (#[trigger] nodes[i]).len() == 16 by {
            lemma_uxmss_nodes_len(*h, p, hash_ctx@, sf_prefix(), sk_seed@, q as int, i);
        }
        lemma_concat_nodes_index(nodes);
        p.lemma_sizes();
    }
    let mut sig = wots_sig;
    let mut i: usize = 0;
    while i < q_auth * 16
        invariant
            q_auth <= p.hsf,
            p.wf(),
            q_auth * 16 <= auth@.len(),
            0 <= i <= q_auth * 16,
            sig@ == wots_sig@ + auth@.subrange(0, i as int),
        decreases q_auth * 16 - i,
    {
        sig.push(auth[i]);
        i += 1;
        assert(sig@ =~= wots_sig@ + auth@.subrange(0, i as int));
    }
    Ok(sig)
}

pub proof fn lemma_uxmss_node_len<H: Fn(&[u8]) -> [u8; 32]>(
    h: H,
    p: ParamSet,
    ctx: Seq<u8>,
    pre: Seq<u8>,
    sk_seed: Seq<u8>,
    level: int,
)
    ensures
        uxmss_node(h, p, ctx, pre, sk_seed, level).len() == 16,
        forall|kp: int| #[trigger] sf_leaf(h, p, ctx, pre, sk_seed, kp).len() == 16,
{
    let left = sf_leaf(h, p, ctx, pre, sk_seed, level + 1);
    let right = if level + 1 >= p.hsf {
        sf_leaf(h, p, ctx, pre, sk_seed, p.hsf + 1)
    } else {
        uxmss_node(h, p, ctx, pre, sk_seed, level + 1)
    };
    lemma_digest_len(h, ctx + adrs_of(pre, SF_TREE, 0, (p.hsf - level) as u32, 0) + left + right);
    assert forall|kp: int| #[trigger] sf_leaf(h, p, ctx, pre, sk_seed, kp).len() == 16 by {
        let chains = crate::wots_c::wots_pk_chains(h, p, ctx, pre, sk_seed, kp as u32, true);
        lemma_digest_len(
            h,
            ctx + adrs_of(pre, crate::wots_c::spec_types(true).1, kp as u32, 0, 0)
                + concat_nodes(chains),
        );
    }
}

pub proof fn lemma_uxmss_nodes_len<H: Fn(&[u8]) -> [u8; 32]>(
    h: H,
    p: ParamSet,
    ctx: Seq<u8>,
    pre: Seq<u8>,
    sk_seed: Seq<u8>,
    q: int,
    i: int,
)
    requires
        0 <= i < uxmss_auth_nodes(h, p, ctx, pre, sk_seed, q).len(),
    ensures
        uxmss_auth_nodes(h, p, ctx, pre, sk_seed, q)[i].len() == 16,
{
    lemma_uxmss_node_len(h, p, ctx, pre, sk_seed, q);
}

/// Climbing `k` steps from leaf `q` along its authentication path gives the
/// UXMSS node `k` levels up.
pub proof fn lemma_uxmss_up<H: Fn(&[u8]) -> [u8; 32]>(
    h: H,
    p: ParamSet,
    ctx: Seq<u8>,
    pre: Seq<u8>,
    sk_seed: Seq<u8>,
    q: int,
    k: nat,
)
    requires
        p.wf(),
        1 <= q <= p.hsf + 1,
        1 <= k <= uxmss_steps(p.hsf as int, q),
    ensures
        uxmss_up(
            h,
            p.hsf as int,
            ctx,
            pre,
            sf_leaf(h, p, ctx, pre, sk_seed, q),
            concat_nodes(uxmss_auth_nodes(h, p, ctx, pre, sk_seed, q)),
            q,
            k,
        ) == uxmss_node(h, p, ctx, pre, sk_seed, if q <= p.hsf { q - k } else { p.hsf - k }),
    decreases k,
{
    let nodes = uxmss_auth_nodes(h, p, ctx, pre, sk_seed, q);
    assert forall|i: int| 0 <= i < nodes.len() implies (#[trigger] nodes[i]).len() == 16 by {
        lemma_uxmss_nodes_len(h, p, ctx, pre, sk_seed, q, i);
    }
    lemma_concat_nodes_index(nodes);
    let auth = concat_nodes(nodes);
    let leaf = sf_leaf(h, p, ctx, pre, sk_seed, q);
    let hsf = p.hsf as int;
    let i = k - 1;
    assert(auth.subrange(16 * i, 16 * i + 16) == nodes[i]);
    let target = if q <= hsf { q - k } else { hsf - k };
    let up = uxmss_up(h, hsf, ctx, pre, leaf, auth, q, k);
    let prev = uxmss_up(h, hsf, ctx, pre, leaf, auth, q, (k - 1) as nat);
    if k > 1 {
        lemma_uxmss_up(h, p, ctx, pre, sk_seed, q, (k - 1) as nat);
        assert(prev == uxmss_node(h, p, ctx, pre, sk_seed, target + 1));
        assert(nodes[i] == sf_leaf(h, p, ctx, pre, sk_seed, target + 1));
        assert(target + 1 < hsf);
        if q <= hsf {
            assert(hsf - (q - 1 - i) == hsf - target);
            assert(up == hash_n(h, ctx + adrs_of(pre, SF_TREE, 0, (hsf - target) as u32, 0) + nodes[i] + prev));
        } else {
            assert(i + 1 == hsf - target);
            assert(up == hash_n(h, ctx + adrs_of(pre, SF_TREE, 0, (hsf - target) as u32, 0) + nodes[i] + prev));
        }
    } else {
        assert(prev == leaf);
        if q <= hsf {
            assert(up == hash_n(h, ctx + adrs_of(pre, SF_TREE, 0, (hsf - target) as u32, 0) + leaf + nodes[0]));
        } else {
            assert(nodes[0] == sf_leaf(h, p, ctx, pre, sk_seed, hsf));
            assert(up == hash_n(h, ctx + adrs_of(pre, SF_TREE, 0, (hsf - target) as u32, 0) + nodes[0] + leaf));
        }
    }
}

/// A stateful signature checks out: rebuilding the stateful root from the
/// signature body that `uxmss_sign` makes for signature number
/// `1 <= q <= hsf + 1` gives the root of the stateful tree.
pub proof fn lemma_uxmss_sign_verify<H: Fn(&[u8]) -> [u8; 32]>(
    h: H,
    p: ParamSet,
    message: Seq<u8>,
    sk_seed: Seq<u8>,
    sk_prf: Seq<u8>,
    pk_seed: Seq<u8>,
    pk_root: Seq<u8>,
    ctx: Seq<u8>,
    q: u32,
)
    requires
        p.wf(),
        1 <= q <= p.hsf + 1,
        uxmss_sign_spec(h, p, message, sk_seed, sk_prf, pk_seed, pk_root, ctx, q) is Some,
    ensures
        ({
            let sig = uxmss_sign_spec(h, p, message, sk_seed, sk_prf, pk_seed, pk_root, ctx, q)->0;
            let w = p.spec_wots_sign_len();
            &&& sig.len() == w + 16 * uxmss_steps(p.hsf as int, q as int)
            &&& uxmss_pk_from_sig_spec(
                h,
                p,
                sig.subrange(0, w),
                sig.subrange(w, sig.len() as int),
                message,
                pk_root,
                ctx,
                q,
            ) == Some(uxmss_node(h, p, ctx, sf_prefix(), sk_seed, 0))
        }),
{
    let pre = sf_prefix();
    let w = wots_sign_spec(h, p, message, sk_seed, sk_prf, pk_seed, pk_root, ctx, pre, q, true, false)->0;
    crate::wots_c::lemma_wots_sign_len(h, p, message, sk_seed, sk_prf, pk_seed, pk_root, ctx, pre, q, true, false);
    crate::wots_c::lemma_wots_sign_verify(h, p, message, sk_seed, sk_prf, pk_seed, pk_root, ctx, pre, q, true, false);
    let nodes = uxmss_auth_nodes(h, p, ctx, pre, sk_seed, q as int);
    assert forall|i: int| 0 <= i < nodes.len() implies (#[trigger] nodes[i]).len() == 16 by {
        lemma_uxmss_nodes_len(h, p, ctx, pre, sk_seed, q as int, i);
    }
    lemma_concat_nodes_index(nodes);
    let auth = concat_nodes(nodes);
    let q_auth = if q > p.hsf { q - 1 } else { q as int };
    assert(auth.subrange(0, 16 * q_auth) =~= auth);
    let sig = w + auth.subrange(0, 16 * q_auth);
    let wl = p.spec_wots_sign_len();
    assert(sig.subrange(0, wl) =~= w);
    assert(sig.subrange(wl, sig.len() as int) =~= auth);
    let steps = uxmss_steps(p.hsf as int, q as int);
    lemma_uxmss_up(h, p, ctx, pre, sk_seed, q as int, steps);
}

} // verus!
