//! What a PORS+FP signature gives back.
//!
//! Rebuilding the root from a signature walks the tree level by level as the
//! octopus path was laid out when signing: every revealed leaf climbs to its
//! parent, paired with its revealed sibling or with the next path node. The
//! lemmas here follow both walks in step and show that, under the address
//! prefix the signature was made with, the rebuilt key is the signing tree's.
use vstd::prelude::*;

use crate::address::adrs_of;
use crate::constants::{ParamSet, PORS_PK, PORS_PRF, PORS_TREE, R_LEN};
use crate::hash::{hash_n, lemma_digest_len, lemma_prf_blocks_len, prf_input};
use crate::pors_fp::{
    leaf_entries, lemma_msg_indices, lemma_octopus_fits, lemma_pors_first, lemma_pors_node_len,
    octo_levels, octo_pass, pairs_fwd, pk_levels, pk_pass, pors_auth_nodes, pors_grind_ctr,
    pors_indices, pors_leaf, pors_node, pors_octopus_spec, pors_parent, pors_pk_from_sig_spec,
    pors_r, pors_s, pors_sign_spec, pors_sks, pors_try, split_i, split_ie, split_p, split_pe,
    xof_input, zero_prefix,
};
use crate::wots_c::{concat_nodes, lemma_concat_nodes_index};
use crate::xmss::p2;

verus! {

/// Each entry holds the PORS+FP node at `lvl` of its position.
pub open spec fn nodes_at<H: Fn(&[u8]) -> [u8; 32]>(
    h: H,
    p: ParamSet,
    ctx: Seq<u8>,
    pre: Seq<u8>,
    sk_seed: Seq<u8>,
    e: Seq<(u32, Seq<u8>)>,
    lvl: nat,
) -> bool {
    forall|j: int|
        0 <= j < e.len() ==> (#[trigger] e[j]).1 == pors_node(h, p, ctx, pre, sk_seed, lvl, e[j].0 as int)
}

/// The octopus list `l` names, at `lvl`, the positions of the entries `e`.
pub open spec fn mirrors(e: Seq<(u32, Seq<u8>)>, l: Seq<(u32, u32)>, lvl: nat) -> bool {
    &&& l.len() == e.len()
    &&& forall|j: int| 0 <= j < e.len() ==> (#[trigger] l[j]) == (lvl as u32, e[j].0)
}

/// The positions of `e` strictly increase and stay below `bound`.
pub open spec fn increasing_below(e: Seq<(u32, Seq<u8>)>, bound: int) -> bool {
    &&& forall|a: int, b: int| 0 <= a < b < e.len() ==> (#[trigger] e[a]).0 < (#[trigger] e[b]).0
    &&& forall|j: int| 0 <= j < e.len() ==> ((#[trigger] e[j]).0 as int) < bound
}

/// From byte `base` on, `sig` holds the nodes of the path `a`, 16 bytes each.
pub open spec fn holds_path<H: Fn(&[u8]) -> [u8; 32]>(
    h: H,
    p: ParamSet,
    ctx: Seq<u8>,
    pre: Seq<u8>,
    sk_seed: Seq<u8>,
    sig: Seq<u8>,
    base: int,
    a: Seq<(u32, u32)>,
) -> bool {
    &&& 0 <= base
    &&& base + 16 * a.len() <= sig.len()
    &&& forall|m: int|
        0 <= m < a.len() ==> sig.subrange(base + 16 * m, base + 16 * m + 16) == pors_node(
            h,
            p,
            ctx,
            pre,
            sk_seed,
            (#[trigger] a[m]).0 as nat,
            a[m].1 as int,
        )
}

/// Halving, parity and sibling of a position.
proof fn lemma_position_bits(x: u32)
    ensures
        (x >> 1u32) as int == x as int / 2,
        (x & 1u32 == 0u32) == (x as int % 2 == 0),
        x as int % 2 == 0 ==> (x ^ 1u32) as int == x + 1,
        x as int % 2 == 1 ==> (x ^ 1u32) as int == x - 1,
{
    assert(((x >> 1u32) == x / 2) && ((x & 1u32 == 0u32) == (x % 2 == 0)) && (x % 2 == 0 ==> (
    x ^ 1u32) == x + 1) && (x % 2 == 1 ==> (x ^ 1u32) == x - 1)) by (bit_vector);
}

/// A pass of the octopus walk only adds to the path it starts from.
proof fn lemma_octo_pass_prefix(
    list: Seq<(u32, u32)>,
    i: nat,
    cur: u32,
    a: Seq<(u32, u32)>,
    next: Seq<(u32, u32)>,
    m: nat,
)
    ensures
        octo_pass(list, i, cur, a, next, m) matches Some(r) ==> a.is_prefix_of(r.0),
    decreases list.len() - i,
{
    if i < list.len() {
        let e = list[i as int];
        let sib = e.1 ^ 1u32;
        let nxt = next.push(((e.0 + 1) as u32, e.1 >> 1u32));
        if i + 1 < list.len() && list[i + 1 as int].1 == sib {
            lemma_octo_pass_prefix(list, i + 2, cur, a, nxt, m);
        } else if a.len() < m {
            lemma_octo_pass_prefix(list, i + 1, cur, a.push((cur, sib)), nxt, m);
            if let Some(r) = octo_pass(list, i, cur, a, next, m) {
                assert(a.is_prefix_of(r.0)) by {
                    assert forall|j: int| 0 <= j < a.len() implies a[j] == r.0[j] by {
                        assert(a.push((cur, sib))[j] == a[j]);
                    }
                    assert(a =~= r.0.subrange(0, a.len() as int));
                }
            }
        }
    } else {
        assert(a =~= a.subrange(0, a.len() as int));
    }
}

/// Appending a parent past the last position keeps the parents in order.
proof fn lemma_push_parent<H: Fn(&[u8]) -> [u8; 32]>(
    h: H,
    p: ParamSet,
    ctx: Seq<u8>,
    pre: Seq<u8>,
    sk_seed: Seq<u8>,
    ne: Seq<(u32, Seq<u8>)>,
    nl: Seq<(u32, u32)>,
    lvl: nat,
    q: u32,
    hb: int,
)
    requires
        lvl <= 64,
        nodes_at(h, p, ctx, pre, sk_seed, ne, lvl),
        mirrors(ne, nl, lvl),
        increasing_below(ne, hb),
        (q as int) < hb,
        ne.len() > 0 ==> ne.last().0 < q,
    ensures
        ({
            let ne2 = ne.push((q, pors_node(h, p, ctx, pre, sk_seed, lvl, q as int)));
            &&& nodes_at(h, p, ctx, pre, sk_seed, ne2, lvl)
            &&& mirrors(ne2, nl.push((lvl as u32, q)), lvl)
            &&& increasing_below(ne2, hb)
        }),
{
    let ne2 = ne.push((q, pors_node(h, p, ctx, pre, sk_seed, lvl, q as int)));
    assert forall|a: int, b: int| 0 <= a < b < ne2.len() implies (#[trigger] ne2[a]).0 < (
    #[trigger] ne2[b]).0 by {
        if b == ne.len() {
            if a < ne.len() - 1 {
                assert(ne[a].0 < ne[ne.len() - 1].0);
            }
        }
    }
}

/// One level of rebuilding, followed in step with the octopus pass that laid
/// out the path: from position `i`, with the parents `ne` built so far for
/// the parents `nl` the walk has named, rebuilding takes the path nodes in
/// the walk's order and builds exactly the parents the walk names, each of
/// them the tree's node.
proof fn lemma_pass_match<H: Fn(&[u8]) -> [u8; 32]>(
    h: H,
    p: ParamSet,
    ctx: Seq<u8>,
    pre: Seq<u8>,
    sk_seed: Seq<u8>,
    sig: Seq<u8>,
    e: Seq<(u32, Seq<u8>)>,
    l: Seq<(u32, u32)>,
    i: nat,
    cur: u32,
    a: Seq<(u32, u32)>,
    nl: Seq<(u32, u32)>,
    ne: Seq<(u32, Seq<u8>)>,
    m: nat,
    full: Seq<(u32, u32)>,
    base: int,
    hb: int,
)
    requires
        cur < 64,
        nodes_at(h, p, ctx, pre, sk_seed, e, cur as nat),
        mirrors(e, l, cur as nat),
        increasing_below(e, 2 * hb),
        cur == 0 ==> hb <= pors_s(p),
        i <= e.len(),
        i > 0 ==> !pairs_fwd(e, i - 1),
        nodes_at(h, p, ctx, pre, sk_seed, ne, (cur + 1) as nat),
        mirrors(ne, nl, (cur + 1) as nat),
        increasing_below(ne, hb),
        ne.len() > 0 && i < e.len() ==> 2 * ne.last().0 + 2 <= e[i as int].0,
        octo_pass(l, i, cur, a, nl, m) is Some,
        (octo_pass(l, i, cur, a, nl, m)->0).0.is_prefix_of(full),
        holds_path(h, p, ctx, pre, sk_seed, sig, base, full),
    ensures
        ({
            let r = octo_pass(l, i, cur, a, nl, m)->0;
            &&& pk_pass(h, ctx, pre, sig, e, i, cur, base + 16 * a.len(), ne) matches Some((ne2, off2))
            &&& off2 == base + 16 * r.0.len()
            &&& nodes_at(h, p, ctx, pre, sk_seed, ne2, (cur + 1) as nat)
            &&& mirrors(ne2, r.1, (cur + 1) as nat)
            &&& increasing_below(ne2, hb)
            &&& (i < e.len() ==> ne2.len() > 0)
        }),
    decreases e.len() - i,
{
    if i < e.len() {
        let x = e[i as int].0;
        lemma_position_bits(x);
        let q = x >> 1u32;
        let sib = x ^ 1u32;
        let lvl = (cur + 1) as nat;
        assert(l[i as int] == (cur, x));
        let node = pors_node(h, p, ctx, pre, sk_seed, lvl, q as int);
        let nl2 = nl.push(((cur + 1) as u32, q));
        let ne2 = ne.push((q, node));
        assert((q as int) < hb);
        assert(cur == 0 ==> (q as int) < pors_s(p));
        lemma_push_parent(h, p, ctx, pre, sk_seed, ne, nl, lvl, q, hb);
        if i + 1 < e.len() && l[i + 1 as int].1 == sib {
            let y = e[i + 1 as int].0;
            lemma_position_bits(y);
            assert(x < y);
            assert(x as int % 2 == 0);
            assert(y as int == x + 1);
            assert(pairs_fwd(e, i as int));
            assert(e[i as int].1 == pors_node(h, p, ctx, pre, sk_seed, cur as nat, x as int));
            assert(e[i + 1 as int].1 == pors_node(h, p, ctx, pre, sk_seed, cur as nat, y as int));
            assert(hash_n(
                h,
                ctx + adrs_of(pre, PORS_TREE, 0, (cur + 1) as u32, y >> 1u32) + e[i as int].1
                    + e[i + 1 as int].1,
            ) == node) by {
                assert(2 * (q as int) == x);
                assert(pors_parent(
                    h,
                    ctx,
                    pre,
                    lvl as int,
                    q as int,
                    pors_node(h, p, ctx, pre, sk_seed, cur as nat, x as int),
                    pors_node(h, p, ctx, pre, sk_seed, cur as nat, y as int),
                ) == node);
            }
            if i + 2 < e.len() {
                assert(e[i + 1 as int].0 < e[i + 2 as int].0);
            }
            let off = base + 16 * a.len();
            assert(octo_pass(l, i, cur, a, nl, m) == octo_pass(l, i + 2, cur, a, nl2, m));
            assert(pk_pass(h, ctx, pre, sig, e, i, cur, off, ne) == pk_pass(
                h,
                ctx,
                pre,
                sig,
                e,
                i + 1,
                cur,
                off,
                ne,
            ));
            assert(pk_pass(h, ctx, pre, sig, e, i + 1, cur, off, ne) == pk_pass(
                h,
                ctx,
                pre,
                sig,
                e,
                i + 2,
                cur,
                off,
                ne2,
            ));
            lemma_pass_match(
                h,
                p,
                ctx,
                pre,
                sk_seed,
                sig,
                e,
                l,
                i + 2,
                cur,
                a,
                nl2,
                ne2,
                m,
                full,
                base,
                hb,
            );
        } else {
            let a2 = a.push((cur, sib));
            lemma_octo_pass_prefix(l, i + 1, cur, a2, nl2, m);
            let r = octo_pass(l, i, cur, a, nl, m)->0;
            assert(a2.is_prefix_of(full)) by {
                assert forall|j: int| 0 <= j < a2.len() implies a2[j] == full[j] by {
                    assert(a2[j] == r.0[j]);
                    assert(r.0[j] == full[j]);
                }
                assert(a2 =~= full.subrange(0, a2.len() as int));
            }
            assert(full[a.len() as int] == (cur, sib)) by {
                assert(a2[a.len() as int] == (cur, sib));
                assert(a2.len() <= full.len());
                assert(full.subrange(0, a2.len() as int)[a.len() as int] == full[a.len() as int]);
            }
            let off = base + 16 * a.len();
            let auth = sig.subrange(off, off + 16);
            assert(auth == pors_node(h, p, ctx, pre, sk_seed, cur as nat, sib as int));
            assert(!pairs_fwd(e, i as int));
            let adrs = adrs_of(pre, PORS_TREE, 0, (cur + 1) as u32, q);
            assert(e[i as int].1 == pors_node(h, p, ctx, pre, sk_seed, cur as nat, x as int));
            if x as int % 2 == 0 {
                assert(hash_n(h, ctx + adrs + e[i as int].1 + auth) == node) by {
                    assert(2 * (q as int) == x);
                }
            } else {
                assert(hash_n(h, ctx + adrs + auth + e[i as int].1) == node) by {
                    assert(2 * (q as int) + 1 == x);
                }
            }
            if i + 1 < e.len() {
                assert(e[i as int].0 < e[i + 1 as int].0);
            }
            assert(octo_pass(l, i, cur, a, nl, m) == octo_pass(l, i + 1, cur, a2, nl2, m));
            assert(pk_pass(h, ctx, pre, sig, e, i, cur, off, ne) == pk_pass(
                h,
                ctx,
                pre,
                sig,
                e,
                i + 1,
                cur,
                off + 16,
                ne2,
            ));
            lemma_pass_match(
                h,
                p,
                ctx,
                pre,
                sk_seed,
                sig,
                e,
                l,
                i + 1,
                cur,
                a2,
                nl2,
                ne2,
                m,
                full,
                base,
                hb,
            );
        }
    }
}

/// The level at which the octopus walk from level `cur` ends: the top level
/// `b`, or the first level whose list is the single node 0.
pub open spec fn octo_top(
    list: Seq<(u32, u32)>,
    plist: Seq<(u32, u32)>,
    cur: nat,
    b: nat,
    a: Seq<(u32, u32)>,
    m: nat,
) -> nat
    decreases b - cur,
{
    if cur >= b {
        b
    } else {
        match octo_pass(list, 0, cur as u32, a, Seq::empty(), m) {
            None => b,
            Some(r) => {
                let nl = r.1 + plist;
                if nl.len() == 1 && nl[0].1 == 0 {
                    cur + 1
                } else {
                    octo_top(nl, Seq::empty(), cur + 1, b, r.0, m)
                }
            },
        }
    }
}

proof fn lemma_prefix_trans(x: Seq<(u32, u32)>, y: Seq<(u32, u32)>, z: Seq<(u32, u32)>)
    requires
        x.is_prefix_of(y),
        y.is_prefix_of(z),
    ensures
        x.is_prefix_of(z),
{
    assert forall|j: int| 0 <= j < x.len() implies x[j] == z[j] by {
        assert(x[j] == y.subrange(0, x.len() as int)[j]);
        assert(y[j] == z.subrange(0, y.len() as int)[j]);
    }
    assert(x =~= z.subrange(0, x.len() as int));
}

/// The octopus walk from `cur` on only adds to the path it starts from.
proof fn lemma_octo_levels_prefix(
    list: Seq<(u32, u32)>,
    plist: Seq<(u32, u32)>,
    cur: nat,
    b: nat,
    a: Seq<(u32, u32)>,
    m: nat,
)
    ensures
        octo_levels(list, plist, cur, b, a, m) matches Some(r) ==> a.is_prefix_of(r),
    decreases b - cur,
{
    if cur < b {
        lemma_octo_pass_prefix(list, 0, cur as u32, a, Seq::empty(), m);
        if let Some(r) = octo_pass(list, 0, cur as u32, a, Seq::empty(), m) {
            let nl = r.1 + plist;
            if nl.len() == 1 && nl[0].1 == 0 {
            } else {
                lemma_octo_levels_prefix(nl, Seq::empty(), cur + 1, b, r.0, m);
                if let Some(f) = octo_levels(list, plist, cur, b, a, m) {
                    lemma_prefix_trans(a, r.0, f);
                }
            }
        }
    } else {
        assert(a =~= a.subrange(0, a.len() as int));
    }
}

/// Rebuilding from level `cur >= 1`, followed in step with the octopus walk
/// that laid out the path, ends with the single tree node 0 at the level
/// where the walk ends.
proof fn lemma_levels_match<H: Fn(&[u8]) -> [u8; 32]>(
    h: H,
    p: ParamSet,
    ctx: Seq<u8>,
    pre: Seq<u8>,
    sk_seed: Seq<u8>,
    sig: Seq<u8>,
    e: Seq<(u32, Seq<u8>)>,
    l: Seq<(u32, u32)>,
    cur: nat,
    b: nat,
    a: Seq<(u32, u32)>,
    m: nat,
    full: Seq<(u32, u32)>,
    base: int,
)
    requires
        1 <= cur <= b <= 24,
        nodes_at(h, p, ctx, pre, sk_seed, e, cur),
        mirrors(e, l, cur),
        increasing_below(e, p2((b - cur) as nat)),
        e.len() > 0,
        octo_levels(l, Seq::empty(), cur, b, a, m) == Some(full),
        holds_path(h, p, ctx, pre, sk_seed, sig, base, full),
    ensures
        pk_levels(h, ctx, pre, sig, e, Seq::empty(), cur, b, base + 16 * a.len()) == Some(
            seq![(0u32, pors_node(h, p, ctx, pre, sk_seed, octo_top(l, Seq::empty(), cur, b, a, m), 0))],
        ),
    decreases b - cur,
{
    if cur >= b {
        assert(p2(0) == 1) by {
            vstd::arithmetic::power2::lemma2_to64();
        }
        if e.len() > 1 {
            assert(e[0].0 < e[1].0);
        }
        assert(e[0].0 == 0);
        assert(e =~= seq![(0u32, pors_node(h, p, ctx, pre, sk_seed, b, 0))]);
    } else {
        let empty = Seq::<(u32, u32)>::empty();
        let r = octo_pass(l, 0, cur as u32, a, empty, m)->0;
        let hb = p2((b - cur - 1) as nat);
        vstd::arithmetic::power2::lemma_pow2_unfold((b - cur) as nat);
        let nl = r.1 + empty;
        assert(nl =~= r.1);
        if nl.len() == 1 && nl[0].1 == 0 {
            assert(r.0 == full);
            assert(r.0 =~= full.subrange(0, r.0.len() as int));
        } else {
            lemma_octo_levels_prefix(r.1, empty, cur + 1, b, r.0, m);
        }
        lemma_pass_match(
            h,
            p,
            ctx,
            pre,
            sk_seed,
            sig,
            e,
            l,
            0,
            cur as u32,
            a,
            empty,
            Seq::empty(),
            m,
            full,
            base,
            hb,
        );
        let pr = pk_pass(h, ctx, pre, sig, e, 0, cur as u32, base + 16 * a.len(), Seq::empty())->0;
        let ne = pr.0 + Seq::<(u32, Seq<u8>)>::empty();
        assert(ne =~= pr.0);
        if nl.len() == 1 && nl[0].1 == 0 {
            assert(ne[0].0 == 0);
            assert(ne =~= seq![(0u32, pors_node(h, p, ctx, pre, sk_seed, cur + 1, 0))]);
        } else {
            lemma_levels_match(h, p, ctx, pre, sk_seed, sig, pr.0, r.1, cur + 1, b, r.0, m, full, base);
        }
    }
}

/// Splitting the revealed leaves by level keeps them in order and puts each
/// at the tree node it is: the lower leaves at the bottom, below `2s`, the
/// upper ones at `s ..` one level up.
proof fn lemma_split_entries<H: Fn(&[u8]) -> [u8; 32]>(
    h: H,
    p: ParamSet,
    ctx: Seq<u8>,
    pre: Seq<u8>,
    sk_seed: Seq<u8>,
    e: Seq<(u32, Seq<u8>)>,
    idx: Seq<u32>,
)
    requires
        p.wf(),
        e.len() == idx.len(),
        forall|j: int| 0 <= j < e.len() ==> (#[trigger] e[j]).0 == idx[j],
        forall|j: int|
            0 <= j < e.len() ==> (#[trigger] e[j]).1 == pors_leaf(h, ctx, pre, sk_seed, e[j].0 as int),
        forall|j: int| 0 <= j < e.len() ==> ((#[trigger] e[j]).0 as int) < p.t,
        forall|a: int, b: int| 0 <= a < b < e.len() ==> (#[trigger] e[a]).0 < (#[trigger] e[b]).0,
    ensures
        ({
            let ie = split_ie(p, e);
            let pe = split_pe(p, e);
            &&& ie.len() + pe.len() == e.len()
            &&& mirrors(ie, split_i(p, idx), 0)
            &&& nodes_at(h, p, ctx, pre, sk_seed, ie, 0)
            &&& increasing_below(ie, 2 * pors_s(p))
            &&& mirrors(pe, split_p(p, idx), 1)
            &&& nodes_at(h, p, ctx, pre, sk_seed, pe, 1)
            &&& increasing_below(pe, p2((p.b - 1) as nat))
            &&& forall|j: int| 0 <= j < pe.len() ==> ((#[trigger] pe[j]).0 as int) >= pors_s(p)
            &&& e.len() > 0 ==> forall|j: int| 0 <= j < ie.len() ==> (#[trigger] ie[j]).0 <= e.last().0
            &&& e.len() > 0 ==> forall|j: int|
                0 <= j < pe.len() ==> (#[trigger] pe[j]).0 + pors_s(p) <= e.last().0
        }),
    decreases e.len(),
{
    vstd::arithmetic::power2::lemma2_to64();
    if e.len() > 0 {
        let d = e.drop_last();
        let di = idx.drop_last();
        assert forall|a: int, b: int| 0 <= a < b < d.len() implies (#[trigger] d[a]).0 < (
        #[trigger] d[b]).0 by {
            assert(e[a].0 < e[b].0);
        }
        assert forall|j: int| 0 <= j < d.len() implies (#[trigger] d[j]).0 == di[j] by {
            assert(e[j].0 == idx[j]);
        }
        assert forall|j: int| 0 <= j < d.len() implies (#[trigger] d[j]).1 == pors_leaf(
            h,
            ctx,
            pre,
            sk_seed,
            d[j].0 as int,
        ) by {
            assert(e[j].1 == pors_leaf(h, ctx, pre, sk_seed, e[j].0 as int));
        }
        assert forall|j: int| 0 <= j < d.len() implies ((#[trigger] d[j]).0 as int) < p.t by {
            assert((e[j].0 as int) < p.t);
        }
        lemma_split_entries(h, p, ctx, pre, sk_seed, d, di);
        let x = e.last();
        assert(x == e[e.len() - 1]);
        assert(idx.last() == x.0);
        assert(x.1 == pors_leaf(h, ctx, pre, sk_seed, x.0 as int));
        assert((x.0 as int) < p.t);
        if d.len() > 0 {
            assert(d.last().0 < x.0) by {
                assert(e[e.len() - 2].0 < e[e.len() - 1].0);
            }
        }
        let ie = split_ie(p, e);
        let pe = split_pe(p, e);
        let die = split_ie(p, d);
        let dpe = split_pe(p, d);
        if (x.0 as int) < 2 * pors_s(p) {
            assert(ie == die.push(x));
            assert(pe == dpe);
            assert(split_i(p, idx) == split_i(p, di).push((0u32, idx.last())));
            assert(forall|a: int, b: int| 0 <= a < b < ie.len() ==> (#[trigger] ie[a]).0 < (
            #[trigger] ie[b]).0) by {
                assert forall|a: int, b: int| 0 <= a < b < ie.len() implies (#[trigger] ie[a]).0 < (
                #[trigger] ie[b]).0 by {
                    if b == die.len() {
                        assert(die[a].0 <= d.last().0);
                    } else {
                        assert(die[a].0 < die[b].0);
                    }
                }
            }
            assert(nodes_at(h, p, ctx, pre, sk_seed, ie, 0)) by {
                assert forall|j: int| 0 <= j < ie.len() implies (#[trigger] ie[j]).1 == pors_node(
                    h,
                    p,
                    ctx,
                    pre,
                    sk_seed,
                    0,
                    ie[j].0 as int,
                ) by {
                    if j < die.len() {
                        assert(ie[j] == die[j]);
                    }
                }
            }
            assert forall|j: int| 0 <= j < pe.len() implies (#[trigger] pe[j]).0 + pors_s(p)
                <= e.last().0 by {
                assert(dpe[j].0 + pors_s(p) <= d.last().0);
            }
        } else {
            let y: (u32, Seq<u8>) = ((x.0 - pors_s(p)) as u32, x.1);
            assert(ie == die);
            assert(pe == dpe.push(y));
            assert(split_p(p, idx) == split_p(p, di).push((1u32, (idx.last() - pors_s(p)) as u32)));
            assert(forall|a: int, b: int| 0 <= a < b < pe.len() ==> (#[trigger] pe[a]).0 < (
            #[trigger] pe[b]).0) by {
                assert forall|a: int, b: int| 0 <= a < b < pe.len() implies (#[trigger] pe[a]).0 < (
                #[trigger] pe[b]).0 by {
                    if b == dpe.len() {
                        assert(dpe[a].0 + pors_s(p) <= d.last().0);
                    } else {
                        assert(dpe[a].0 < dpe[b].0);
                    }
                }
            }
            assert(nodes_at(h, p, ctx, pre, sk_seed, pe, 1)) by {
                assert forall|j: int| 0 <= j < pe.len() implies (#[trigger] pe[j]).1 == pors_node(
                    h,
                    p,
                    ctx,
                    pre,
                    sk_seed,
                    1,
                    pe[j].0 as int,
                ) by {
                    if j < dpe.len() {
                        assert(pe[j] == dpe[j]);
                    } else {
                        assert(pe[j] == y);
                        assert(pors_s(p) + y.0 == x.0);
                    }
                }
            }
            assert forall|j: int| 0 <= j < ie.len() implies (#[trigger] ie[j]).0 <= e.last().0 by {
                assert(die[j].0 <= d.last().0);
            }
        }
    }
}

/// The PORS+FP public key of a tree whose octopus walk ends at level `top`:
/// the tree's node 0 at that level, compressed.
pub open spec fn pors_pk_spec<H: Fn(&[u8]) -> [u8; 32]>(
    h: H,
    p: ParamSet,
    ctx: Seq<u8>,
    pre: Seq<u8>,
    sk_seed: Seq<u8>,
    top: nat,
) -> Seq<u8> {
    hash_n(h, ctx + adrs_of(pre, PORS_PK, 0, 0, 0) + pors_node(h, p, ctx, pre, sk_seed, top, 0))
}

/// The level at which the octopus walk of `indices` ends: the tree height
/// `b`, unless the walk comes down to the single node 0 of a lower level
/// first.
pub open spec fn pors_top_level(p: ParamSet, indices: Seq<u32>) -> nat {
    octo_top(split_i(p, indices), split_p(p, indices), 0, p.b as nat, Seq::empty(), p.m_max as nat)
}

/// Rebuilding the public key from a PORS+FP signature, under the address
/// prefix the signature was made with, gives the signing tree's key: its
/// node 0 at the level where the octopus walk of the indices ends (the root
/// at level `b`, unless all revealed leaves lie under one lower node 0).
/// This holds whenever the digest selects all `k` indices.
pub proof fn lemma_pors_sign_recover<H: Fn(&[u8]) -> [u8; 32]>(
    h: H,
    p: ParamSet,
    ctx: Seq<u8>,
    pre: Seq<u8>,
    message: Seq<u8>,
    sk_seed: Seq<u8>,
    sk_prf: Seq<u8>,
    pk_seed: Seq<u8>,
    pk_root: Seq<u8>,
)
    requires
        p.wf(),
    ensures
        pors_sign_spec(h, p, ctx, pre, message, sk_seed, sk_prf, pk_seed, pk_root, None) matches Some(
            (psig, dg),
        ) ==> pors_indices(h, p, ctx, dg).len() == p.k ==> pors_pk_from_sig_spec(
            h,
            p,
            psig,
            pors_indices(h, p, ctx, dg),
            ctx,
            pre,
        ) == Some(pors_pk_spec(h, p, ctx, pre, sk_seed, pors_top_level(p, pors_indices(h, p, ctx, dg)))),
{
    if let Some((psig, dg)) = pors_sign_spec(
        h,
        p,
        ctx,
        pre,
        message,
        sk_seed,
        sk_prf,
        pk_seed,
        pk_root,
        None,
    ) {
        let idx = pors_indices(h, p, ctx, dg);
        if idx.len() == p.k {
            p.lemma_layout();
            vstd::arithmetic::power2::lemma2_to64();
            let ctr = pors_grind_ctr(h, p, ctx, pre, message, sk_prf, pk_seed, pk_root, pk_seed);
            let r = pors_r(h, message, sk_prf, pk_seed, pk_seed, ctr);
            let c = choose|c: u32| #[trigger]
                pors_try(h, p, ctx, pre, message, sk_prf, pk_seed, pk_root, pk_seed, c);
            lemma_pors_first(h, p, ctx, pre, message, sk_prf, pk_seed, pk_root, pk_seed, c);
            lemma_msg_indices(h, p, xof_input(ctx, zero_prefix(), dg));
            lemma_octopus_fits(p, idx);
            let a = pors_octopus_spec(p, idx)->0;
            lemma_prf_blocks_len(
                h,
                prf_input(sk_prf, pk_seed, pk_seed, message, true, ctr),
                ((R_LEN + 31) / 32) as nat,
            );
            assert(r.len() == 32);
            let sks = pors_sks(h, ctx, pre, sk_seed, idx);
            assert forall|i: int| 0 <= i < sks.len() implies (#[trigger] sks[i]).len() == 16 by {
                lemma_digest_len(h, ctx + adrs_of(pre, PORS_PRF, 0, 0, idx[i] as u32) + sk_seed);
            }
            lemma_concat_nodes_index(sks);
            let nodes = pors_auth_nodes(h, p, ctx, pre, sk_seed, a);
            assert forall|i: int| 0 <= i < nodes.len() implies (#[trigger] nodes[i]).len() == 16 by {
                lemma_pors_node_len(h, p, ctx, pre, sk_seed, a[i].0 as nat, a[i].1 as int);
            }
            lemma_concat_nodes_index(nodes);
            let cs = concat_nodes(sks);
            let cn = concat_nodes(nodes);
            let body = r + cs + cn;
            let base: int = 32 + 16 * idx.len() as int;
            assert(body.len() == base + 16 * a.len());
            assert(psig == body + Seq::new((p.spec_pors_sign_len() - body.len()) as nat, |i: int| 0u8));
            // The revealed secret values, and the leaves they give.
            let e = leaf_entries(h, ctx, pre, psig, idx);
            assert forall|j: int| 0 <= j < e.len() implies (#[trigger] e[j]).1 == pors_leaf(
                h,
                ctx,
                pre,
                sk_seed,
                e[j].0 as int,
            ) && e[j].0 == idx[j] && (e[j].0 as int) < p.t by {
                assert(psig.subrange(32 + 16 * j, 48 + 16 * j) =~= body.subrange(32 + 16 * j, 48 + 16 * j));
                assert(body.subrange(32 + 16 * j, 48 + 16 * j) =~= cs.subrange(16 * j, 16 * j + 16));
                assert(cs.subrange(16 * j, 16 * j + 16) == sks[j]);
            }
            assert forall|x: int, y: int| 0 <= x < y < e.len() implies (#[trigger] e[x]).0 < (
            #[trigger] e[y]).0 by {
                assert(idx[x] < idx[y]);
            }
            lemma_split_entries(h, p, ctx, pre, sk_seed, e, idx);
            // The path nodes.
            assert(holds_path(h, p, ctx, pre, sk_seed, psig, base, a)) by {
                assert forall|m: int| 0 <= m < a.len() implies psig.subrange(
                    base + 16 * m,
                    base + 16 * m + 16,
                ) == pors_node(h, p, ctx, pre, sk_seed, (#[trigger] a[m]).0 as nat, a[m].1 as int) by {
                    assert(psig.subrange(base + 16 * m, base + 16 * m + 16) =~= body.subrange(
                        base + 16 * m,
                        base + 16 * m + 16,
                    ));
                    assert(body.subrange(base + 16 * m, base + 16 * m + 16) =~= cn.subrange(
                        16 * m,
                        16 * m + 16,
                    ));
                    assert(cn.subrange(16 * m, 16 * m + 16) == nodes[m]);
                }
            }
            // The bottom level.
            let mm = p.m_max as nat;
            let b = p.b as nat;
            let empty = Seq::<(u32, u32)>::empty();
            let l0 = split_i(p, idx);
            let pl = split_p(p, idx);
            let ie = split_ie(p, e);
            let pe = split_pe(p, e);
            let r0 = octo_pass(l0, 0, 0, empty, empty, mm)->0;
            let nlo = r0.1 + pl;
            if nlo.len() == 1 && nlo[0].1 == 0 {
                assert(r0.0 =~= a.subrange(0, r0.0.len() as int));
            } else {
                lemma_octo_levels_prefix(nlo, empty, 1, b, r0.0, mm);
            }
            lemma_pass_match(
                h,
                p,
                ctx,
                pre,
                sk_seed,
                psig,
                ie,
                l0,
                0,
                0,
                empty,
                empty,
                Seq::empty(),
                mm,
                a,
                base,
                pors_s(p),
            );
            let pr = pk_pass(h, ctx, pre, psig, ie, 0, 0, base, Seq::empty())->0;
            let nle = pr.0 + pe;
            assert(mirrors(nle, nlo, 1)) by {
                assert forall|j: int| 0 <= j < nle.len() implies (#[trigger] nlo[j]) == (
                1u32,
                nle[j].0,
                ) by {
                    if j >= pr.0.len() {
                        assert(nle[j] == pe[j - pr.0.len()]);
                        assert(nlo[j] == pl[j - pr.0.len()]);
                    }
                }
            }
            assert(nodes_at(h, p, ctx, pre, sk_seed, nle, 1)) by {
                assert forall|j: int| 0 <= j < nle.len() implies (#[trigger] nle[j]).1 == pors_node(
                    h,
                    p,
                    ctx,
                    pre,
                    sk_seed,
                    1,
                    nle[j].0 as int,
                ) by {
                    if j >= pr.0.len() {
                        assert(nle[j] == pe[j - pr.0.len()]);
                    } else {
                        assert(nle[j] == pr.0[j]);
                    }
                }
            }
            assert(increasing_below(nle, p2((b - 1) as nat))) by {
                assert forall|x: int, y: int| 0 <= x < y < nle.len() implies (#[trigger] nle[x]).0 < (
                #[trigger] nle[y]).0 by {
                    if y < pr.0.len() {
                        assert(pr.0[x].0 < pr.0[y].0);
                    } else if x >= pr.0.len() {
                        assert(pe[x - pr.0.len()].0 < pe[y - pr.0.len()].0);
                    } else {
                        assert((pr.0[x].0 as int) < pors_s(p));
                        assert((pe[y - pr.0.len()].0 as int) >= pors_s(p));
                    }
                }
                assert forall|j: int| 0 <= j < nle.len() implies ((#[trigger] nle[j]).0 as int) < p2(
                    (b - 1) as nat,
                ) by {
                    if j >= pr.0.len() {
                        assert(nle[j] == pe[j - pr.0.len()]);
                    } else {
                        assert(nle[j] == pr.0[j]);
                    }
                }
            }
            assert(nle.len() > 0);
            if nlo.len() == 1 && nlo[0].1 == 0 {
                assert(nle[0].0 == 0);
                assert(nle =~= seq![(0u32, pors_node(h, p, ctx, pre, sk_seed, 1, 0))]);
            } else {
                lemma_levels_match(h, p, ctx, pre, sk_seed, psig, nle, nlo, 1, b, r0.0, mm, a, base);
            }
        }
    }
}

proof fn lemma_octo_top_bound(
    list: Seq<(u32, u32)>,
    plist: Seq<(u32, u32)>,
    cur: nat,
    b: nat,
    a: Seq<(u32, u32)>,
    m: nat,
)
    ensures
        octo_top(list, plist, cur, b, a, m) <= b || cur > b,
    decreases b - cur,
{
    if cur < b {
        if let Some(r) = octo_pass(list, 0, cur as u32, a, Seq::empty(), m) {
            let nl = r.1 + plist;
            if !(nl.len() == 1 && nl[0].1 == 0) {
                lemma_octo_top_bound(nl, Seq::empty(), cur + 1, b, r.0, m);
            }
        }
    }
}

/// The octopus walk of any indices ends at a level of the tree: at most `b`.
pub proof fn lemma_top_level_bound(p: ParamSet, indices: Seq<u32>)
    ensures
        pors_top_level(p, indices) <= p.b,
{
    lemma_octo_top_bound(split_i(p, indices), split_p(p, indices), 0, p.b as nat, Seq::empty(), p.m_max as nat);
}

// ----------------------------------------------------------------------------
// What recovery reads
// ----------------------------------------------------------------------------

/// `sig` and `sig2` agree on the bytes `from .. to`, and both have them.
pub open spec fn agree_on(sig: Seq<u8>, sig2: Seq<u8>, from: int, to: int) -> bool {
    &&& 0 <= from <= to
    &&& to <= sig.len()
    &&& to <= sig2.len()
    &&& forall|j: int| from <= j < to ==> sig2[j] == sig[j]
}

proof fn lemma_push_position(
    ne: Seq<(u32, Seq<u8>)>,
    nl: Seq<(u32, u32)>,
    lvl: nat,
    q: u32,
    node: Seq<u8>,
    hb: int,
)
    requires
        lvl <= 64,
        mirrors(ne, nl, lvl),
        increasing_below(ne, hb),
        (q as int) < hb,
        ne.len() > 0 ==> ne.last().0 < q,
    ensures
        mirrors(ne.push((q, node)), nl.push((lvl as u32, q)), lvl),
        increasing_below(ne.push((q, node)), hb),
{
    let ne2 = ne.push((q, node));
    assert forall|a: int, b: int| 0 <= a < b < ne2.len() implies (#[trigger] ne2[a]).0 < (
    #[trigger] ne2[b]).0 by {
        if b == ne.len() {
            if a < ne.len() - 1 {
                assert(ne[a].0 < ne[ne.len() - 1].0);
            }
        }
    }
}

/// One level of rebuilding over entries in increasing order, in step with
/// the octopus pass: it succeeds, takes exactly the path nodes the pass
/// names, and reads nothing else of the signature.
proof fn lemma_pass_reads<H: Fn(&[u8]) -> [u8; 32]>(
    h: H,
    ctx: Seq<u8>,
    pre: Seq<u8>,
    sig: Seq<u8>,
    sig2: Seq<u8>,
    e: Seq<(u32, Seq<u8>)>,
    l: Seq<(u32, u32)>,
    i: nat,
    cur: u32,
    a: Seq<(u32, u32)>,
    nl: Seq<(u32, u32)>,
    ne: Seq<(u32, Seq<u8>)>,
    m: nat,
    full: Seq<(u32, u32)>,
    base: int,
    hb: int,
)
    requires
        cur < 64,
        mirrors(e, l, cur as nat),
        increasing_below(e, 2 * hb),
        i <= e.len(),
        i > 0 ==> !pairs_fwd(e, i - 1),
        mirrors(ne, nl, (cur + 1) as nat),
        increasing_below(ne, hb),
        ne.len() > 0 && i < e.len() ==> 2 * ne.last().0 + 2 <= e[i as int].0,
        octo_pass(l, i, cur, a, nl, m) is Some,
        (octo_pass(l, i, cur, a, nl, m)->0).0.is_prefix_of(full),
        agree_on(sig, sig2, base, base + 16 * full.len()),
    ensures
        ({
            let r = octo_pass(l, i, cur, a, nl, m)->0;
            let off = base + 16 * a.len();
            &&& pk_pass(h, ctx, pre, sig2, e, i, cur, off, ne) == pk_pass(h, ctx, pre, sig, e, i, cur, off, ne)
            &&& pk_pass(h, ctx, pre, sig, e, i, cur, off, ne) matches Some((ne2, off2))
            &&& off2 == base + 16 * r.0.len()
            &&& mirrors(ne2, r.1, (cur + 1) as nat)
            &&& increasing_below(ne2, hb)
            &&& (i < e.len() ==> ne2.len() > 0)
        }),
    decreases e.len() - i,
{
    if i < e.len() {
        let x = e[i as int].0;
        lemma_position_bits(x);
        let q = x >> 1u32;
        let sib = x ^ 1u32;
        let lvl = (cur + 1) as nat;
        let off = base + 16 * a.len();
        assert(l[i as int] == (cur, x));
        let nl2 = nl.push(((cur + 1) as u32, q));
        assert((q as int) < hb);
        let adrs = adrs_of(pre, PORS_TREE, 0, (cur + 1) as u32, q);
        if i + 1 < e.len() && l[i + 1 as int].1 == sib {
            let y = e[i + 1 as int].0;
            lemma_position_bits(y);
            assert(x < y);
            assert(x as int % 2 == 0);
            assert(pairs_fwd(e, i as int));
            assert(y >> 1u32 == q);
            let parent = hash_n(h, ctx + adrs + e[i as int].1 + e[i + 1 as int].1);
            let ne2 = ne.push((q, parent));
            lemma_push_position(ne, nl, lvl, q, parent, hb);
            if i + 2 < e.len() {
                assert(e[i + 1 as int].0 < e[i + 2 as int].0);
            }
            assert(octo_pass(l, i, cur, a, nl, m) == octo_pass(l, i + 2, cur, a, nl2, m));
            assert(pk_pass(h, ctx, pre, sig, e, i, cur, off, ne) == pk_pass(
                h,
                ctx,
                pre,
                sig,
                e,
                i + 1,
                cur,
                off,
                ne,
            ));
            assert(pk_pass(h, ctx, pre, sig, e, i + 1, cur, off, ne) == pk_pass(
                h,
                ctx,
                pre,
                sig,
                e,
                i + 2,
                cur,
                off,
                ne2,
            ));
            assert(pk_pass(h, ctx, pre, sig2, e, i, cur, off, ne) == pk_pass(
                h,
                ctx,
                pre,
                sig2,
                e,
                i + 1,
                cur,
                off,
                ne,
            ));
            assert(pk_pass(h, ctx, pre, sig2, e, i + 1, cur, off, ne) == pk_pass(
                h,
                ctx,
                pre,
                sig2,
                e,
                i + 2,
                cur,
                off,
                ne2,
            ));
            lemma_pass_reads(h, ctx, pre, sig, sig2, e, l, i + 2, cur, a, nl2, ne2, m, full, base, hb);
        } else {
            let a2 = a.push((cur, sib));
            lemma_octo_pass_prefix(l, i + 1, cur, a2, nl2, m);
            let r = octo_pass(l, i, cur, a, nl, m)->0;
            assert(a2.is_prefix_of(full)) by {
                assert forall|j: int| 0 <= j < a2.len() implies a2[j] == full[j] by {
                    assert(a2[j] == r.0[j]);
                    assert(r.0[j] == full[j]);
                }
                assert(a2 =~= full.subrange(0, a2.len() as int));
            }
            assert(a2.len() <= full.len());
            assert(!pairs_fwd(e, i as int));
            let auth = sig.subrange(off, off + 16);
            assert(sig2.subrange(off, off + 16) =~= auth);
            let parent = if x as int % 2 == 0 {
                hash_n(h, ctx + adrs + e[i as int].1 + auth)
            } else {
                hash_n(h, ctx + adrs + auth + e[i as int].1)
            };
            let ne2 = ne.push((q, parent));
            lemma_push_position(ne, nl, lvl, q, parent, hb);
            if i + 1 < e.len() {
                assert(e[i as int].0 < e[i + 1 as int].0);
            }
            assert(octo_pass(l, i, cur, a, nl, m) == octo_pass(l, i + 1, cur, a2, nl2, m));
            assert(pk_pass(h, ctx, pre, sig, e, i, cur, off, ne) == pk_pass(
                h,
                ctx,
                pre,
                sig,
                e,
                i + 1,
                cur,
                off + 16,
                ne2,
            ));
            assert(pk_pass(h, ctx, pre, sig2, e, i, cur, off, ne) == pk_pass(
                h,
                ctx,
                pre,
                sig2,
                e,
                i + 1,
                cur,
                off + 16,
                ne2,
            ));
            lemma_pass_reads(h, ctx, pre, sig, sig2, e, l, i + 1, cur, a2, nl2, ne2, m, full, base, hb);
        }
    }
}

/// Rebuilding from level `cur >= 1` over entries in increasing order, in
/// step with the octopus walk, ends with a single node at index 0 and reads
/// only the path nodes the walk names.
proof fn lemma_levels_reads<H: Fn(&[u8]) -> [u8; 32]>(
    h: H,
    ctx: Seq<u8>,
    pre: Seq<u8>,
    sig: Seq<u8>,
    sig2: Seq<u8>,
    e: Seq<(u32, Seq<u8>)>,
    l: Seq<(u32, u32)>,
    cur: nat,
    b: nat,
    a: Seq<(u32, u32)>,
    m: nat,
    full: Seq<(u32, u32)>,
    base: int,
)
    requires
        1 <= cur <= b <= 24,
        mirrors(e, l, cur),
        increasing_below(e, p2((b - cur) as nat)),
        e.len() > 0,
        octo_levels(l, Seq::empty(), cur, b, a, m) == Some(full),
        agree_on(sig, sig2, base, base + 16 * full.len()),
    ensures
        pk_levels(h, ctx, pre, sig2, e, Seq::empty(), cur, b, base + 16 * a.len()) == pk_levels(
            h,
            ctx,
            pre,
            sig,
            e,
            Seq::empty(),
            cur,
            b,
            base + 16 * a.len(),
        ),
        pk_levels(h, ctx, pre, sig, e, Seq::empty(), cur, b, base + 16 * a.len()) matches Some(fin)
            && fin.len() == 1 && fin[0].0 == 0,
    decreases b - cur,
{
    if cur >= b {
        assert(p2(0) == 1) by {
            vstd::arithmetic::power2::lemma2_to64();
        }
        if e.len() > 1 {
            assert(e[0].0 < e[1].0);
        }
    } else {
        let empty = Seq::<(u32, u32)>::empty();
        let r = octo_pass(l, 0, cur as u32, a, empty, m)->0;
        let hb = p2((b - cur - 1) as nat);
        vstd::arithmetic::power2::lemma_pow2_unfold((b - cur) as nat);
        let nl = r.1 + empty;
        assert(nl =~= r.1);
        if nl.len() == 1 && nl[0].1 == 0 {
            assert(r.0 =~= full.subrange(0, r.0.len() as int));
        } else {
            lemma_octo_levels_prefix(r.1, empty, cur + 1, b, r.0, m);
        }
        lemma_pass_reads(h, ctx, pre, sig, sig2, e, l, 0, cur as u32, a, empty, Seq::empty(), m, full, base, hb);
        let pr = pk_pass(h, ctx, pre, sig, e, 0, cur as u32, base + 16 * a.len(), Seq::empty())->0;
        let ne = pr.0 + Seq::<(u32, Seq<u8>)>::empty();
        assert(ne =~= pr.0);
        if !(nl.len() == 1 && nl[0].1 == 0) {
            lemma_levels_reads(h, ctx, pre, sig, sig2, pr.0, r.1, cur + 1, b, r.0, m, full, base);
        }
    }
}

/// Splitting entries in increasing order by level keeps them in order: the
/// lower ones below `2s`, the upper ones at `s ..` below `2^(b-1)`.
proof fn lemma_split_order(p: ParamSet, e: Seq<(u32, Seq<u8>)>, idx: Seq<u32>)
    requires
        p.wf(),
        e.len() == idx.len(),
        forall|j: int| 0 <= j < e.len() ==> (#[trigger] e[j]).0 == idx[j],
        forall|j: int| 0 <= j < e.len() ==> ((#[trigger] e[j]).0 as int) < p.t,
        forall|a: int, b: int| 0 <= a < b < e.len() ==> (#[trigger] e[a]).0 < (#[trigger] e[b]).0,
    ensures
        ({
            let ie = split_ie(p, e);
            let pe = split_pe(p, e);
            &&& ie.len() + pe.len() == e.len()
            &&& mirrors(ie, split_i(p, idx), 0)
            &&& increasing_below(ie, 2 * pors_s(p))
            &&& mirrors(pe, split_p(p, idx), 1)
            &&& increasing_below(pe, p2((p.b - 1) as nat))
            &&& forall|j: int| 0 <= j < pe.len() ==> ((#[trigger] pe[j]).0 as int) >= pors_s(p)
            &&& e.len() > 0 ==> forall|j: int| 0 <= j < ie.len() ==> (#[trigger] ie[j]).0 <= e.last().0
            &&& e.len() > 0 ==> forall|j: int|
                0 <= j < pe.len() ==> (#[trigger] pe[j]).0 + pors_s(p) <= e.last().0
        }),
    decreases e.len(),
{
    vstd::arithmetic::power2::lemma2_to64();
    if e.len() > 0 {
        let d = e.drop_last();
        let di = idx.drop_last();
        assert forall|a: int, b: int| 0 <= a < b < d.len() implies (#[trigger] d[a]).0 < (
        #[trigger] d[b]).0 by {
            assert(e[a].0 < e[b].0);
        }
        assert forall|j: int| 0 <= j < d.len() implies (#[trigger] d[j]).0 == di[j] by {
            assert(e[j].0 == idx[j]);
        }
        assert forall|j: int| 0 <= j < d.len() implies ((#[trigger] d[j]).0 as int) < p.t by {
            assert((e[j].0 as int) < p.t);
        }
        lemma_split_order(p, d, di);
        let x = e.last();
        assert(x == e[e.len() - 1]);
        assert(idx.last() == x.0);
        assert((x.0 as int) < p.t);
        if d.len() > 0 {
            assert(d.last().0 < x.0) by {
                assert(e[e.len() - 2].0 < e[e.len() - 1].0);
            }
        }
        let ie = split_ie(p, e);
        let pe = split_pe(p, e);
        let die = split_ie(p, d);
        let dpe = split_pe(p, d);
        if (x.0 as int) < 2 * pors_s(p) {
            assert(ie == die.push(x));
            assert(pe == dpe);
            assert(split_i(p, idx) == split_i(p, di).push((0u32, idx.last())));
            assert forall|a: int, b: int| 0 <= a < b < ie.len() implies (#[trigger] ie[a]).0 < (
            #[trigger] ie[b]).0 by {
                if b == die.len() {
                    assert(die[a].0 <= d.last().0);
                } else {
                    assert(die[a].0 < die[b].0);
                }
            }
            assert forall|j: int| 0 <= j < pe.len() implies (#[trigger] pe[j]).0 + pors_s(p)
                <= e.last().0 by {
                assert(dpe[j].0 + pors_s(p) <= d.last().0);
            }
        } else {
            let y: (u32, Seq<u8>) = ((x.0 - pors_s(p)) as u32, x.1);
            assert(ie == die);
            assert(pe == dpe.push(y));
            assert(split_p(p, idx) == split_p(p, di).push((1u32, (idx.last() - pors_s(p)) as u32)));
            assert forall|a: int, b: int| 0 <= a < b < pe.len() implies (#[trigger] pe[a]).0 < (
            #[trigger] pe[b]).0 by {
                if b == dpe.len() {
                    assert(dpe[a].0 + pors_s(p) <= d.last().0);
                } else {
                    assert(dpe[a].0 < dpe[b].0);
                }
            }
            assert forall|j: int| 0 <= j < ie.len() implies (#[trigger] ie[j]).0 <= e.last().0 by {
                assert(die[j].0 <= d.last().0);
            }
        }
    }
}

/// For revealed indices in increasing order, below `t`, whose octopus path
/// `a` fits, rebuilding the PORS+FP public key from a signature long enough
/// for the secrets and the path succeeds, and it reads nothing of the
/// signature but the revealed secrets and the `a.len()` path nodes: neither
/// the randomizer nor the padding after the path.
pub proof fn lemma_pors_pk_reads<H: Fn(&[u8]) -> [u8; 32]>(
    h: H,
    p: ParamSet,
    sig: Seq<u8>,
    sig2: Seq<u8>,
    indices: Seq<u32>,
    ctx: Seq<u8>,
    pre: Seq<u8>,
)
    requires
        p.wf(),
        indices.len() > 0,
        forall|x: int, y: int| 0 <= x < y < indices.len() ==> #[trigger] indices[x] < #[trigger] indices[y],
        forall|j: int| 0 <= j < indices.len() ==> (#[trigger] indices[j] as int) < p.t,
        pors_octopus_spec(p, indices) is Some,
        agree_on(
            sig,
            sig2,
            32,
            32 + 16 * (indices.len() + (pors_octopus_spec(p, indices)->0).len()) as int,
        ),
    ensures
        pors_pk_from_sig_spec(h, p, sig, indices, ctx, pre) is Some,
        pors_pk_from_sig_spec(h, p, sig2, indices, ctx, pre) == pors_pk_from_sig_spec(
            h,
            p,
            sig,
            indices,
            ctx,
            pre,
        ),
{
    p.lemma_layout();
    vstd::arithmetic::power2::lemma2_to64();
    let a = pors_octopus_spec(p, indices)->0;
    let base: int = 32 + 16 * indices.len() as int;
    let e = leaf_entries(h, ctx, pre, sig, indices);
    let e2 = leaf_entries(h, ctx, pre, sig2, indices);
    assert forall|j: int| 0 <= j < indices.len() implies #[trigger] e2[j] == e[j] by {
        assert(16 * j + 48 <= base) by (nonlinear_arith)
            requires
                0 <= j < indices.len(),
                base == 32 + 16 * indices.len(),
        ;
        assert(sig2.subrange(32 + 16 * j, 48 + 16 * j) =~= sig.subrange(32 + 16 * j, 48 + 16 * j));
    }
    assert(e2 =~= e);
    assert forall|j: int| 0 <= j < e.len() implies (#[trigger] e[j]).0 == indices[j] && (
    e[j].0 as int) < p.t by {}
    assert forall|x: int, y: int| 0 <= x < y < e.len() implies (#[trigger] e[x]).0 < (
    #[trigger] e[y]).0 by {
        assert(indices[x] < indices[y]);
    }
    lemma_split_order(p, e, indices);
    assert(agree_on(sig, sig2, base, base + 16 * a.len()));
    let mm = p.m_max as nat;
    let b = p.b as nat;
    let empty = Seq::<(u32, u32)>::empty();
    let l0 = split_i(p, indices);
    let pl = split_p(p, indices);
    let ie = split_ie(p, e);
    let pe = split_pe(p, e);
    let r0 = octo_pass(l0, 0, 0, empty, empty, mm)->0;
    let nlo = r0.1 + pl;
    if nlo.len() == 1 && nlo[0].1 == 0 {
        assert(r0.0 =~= a.subrange(0, r0.0.len() as int));
    } else {
        lemma_octo_levels_prefix(nlo, empty, 1, b, r0.0, mm);
    }
    lemma_pass_reads(h, ctx, pre, sig, sig2, ie, l0, 0, 0, empty, empty, Seq::empty(), mm, a, base, pors_s(p));
    let pr = pk_pass(h, ctx, pre, sig, ie, 0, 0, base, Seq::empty())->0;
    let nle = pr.0 + pe;
    assert(mirrors(nle, nlo, 1)) by {
        assert forall|j: int| 0 <= j < nle.len() implies (#[trigger] nlo[j]) == (1u32, nle[j].0) by {
            if j >= pr.0.len() {
                assert(nle[j] == pe[j - pr.0.len()]);
                assert(nlo[j] == pl[j - pr.0.len()]);
            }
        }
    }
    assert(increasing_below(nle, p2((b - 1) as nat))) by {
        assert forall|x: int, y: int| 0 <= x < y < nle.len() implies (#[trigger] nle[x]).0 < (
        #[trigger] nle[y]).0 by {
            if y < pr.0.len() {
                assert(pr.0[x].0 < pr.0[y].0);
            } else if x >= pr.0.len() {
                assert(pe[x - pr.0.len()].0 < pe[y - pr.0.len()].0);
            } else {
                assert((pr.0[x].0 as int) < pors_s(p));
                assert((pe[y - pr.0.len()].0 as int) >= pors_s(p));
            }
        }
        assert forall|j: int| 0 <= j < nle.len() implies ((#[trigger] nle[j]).0 as int) < p2(
            (b - 1) as nat,
        ) by {
            if j >= pr.0.len() {
                assert(nle[j] == pe[j - pr.0.len()]);
            } else {
                assert(nle[j] == pr.0[j]);
            }
        }
    }
    assert(nle.len() > 0);
    if !(nlo.len() == 1 && nlo[0].1 == 0) {
        lemma_levels_reads(h, ctx, pre, sig, sig2, nle, nlo, 1, b, r0.0, mm, a, base);
    }
}

// ----------------------------------------------------------------------------
// When an octopus path exists
// ----------------------------------------------------------------------------

/// The octopus path that `indices` need, with no bound on its length (a
/// walk over `n` indices adds at most `n` nodes per level).
pub open spec fn octo_needed(p: ParamSet, indices: Seq<u32>) -> Seq<(u32, u32)> {
    octo_levels(
        split_i(p, indices),
        split_p(p, indices),
        0,
        p.b as nat,
        Seq::empty(),
        (indices.len() * p.b) as nat,
    )->0
}

proof fn lemma_split_len(p: ParamSet, s: Seq<u32>)
    ensures
        split_i(p, s).len() + split_p(p, s).len() == s.len(),
    decreases s.len(),
{
    if s.len() > 0 {
        lemma_split_len(p, s.drop_last());
    }
}

/// A pass with room for a node per remaining entry never runs out.
proof fn lemma_octo_pass_room(
    list: Seq<(u32, u32)>,
    i: nat,
    cur: u32,
    a: Seq<(u32, u32)>,
    next: Seq<(u32, u32)>,
    m: nat,
)
    requires
        i <= list.len(),
        a.len() + (list.len() - i) <= m,
    ensures
        octo_pass(list, i, cur, a, next, m) matches Some(r) && r.0.len() <= a.len() + (list.len()
            - i) && r.1.len() <= next.len() + (list.len() - i),
    decreases list.len() - i,
{
    if i < list.len() {
        let e = list[i as int];
        let sib = e.1 ^ 1u32;
        let nxt = next.push(((e.0 + 1) as u32, e.1 >> 1u32));
        if i + 1 < list.len() && list[i + 1 as int].1 == sib {
            lemma_octo_pass_room(list, i + 2, cur, a, nxt, m);
        } else {
            lemma_octo_pass_room(list, i + 1, cur, a.push((cur, sib)), nxt, m);
        }
    }
}

/// The walk never runs out when it has room for `k` nodes per level left,
/// `k` bounding the entries of every level.
proof fn lemma_octo_levels_room(
    list: Seq<(u32, u32)>,
    plist: Seq<(u32, u32)>,
    cur: nat,
    b: nat,
    a: Seq<(u32, u32)>,
    m: nat,
    k: nat,
)
    requires
        cur <= b,
        list.len() + plist.len() <= k,
        a.len() + k * (b - cur) <= m,
    ensures
        octo_levels(list, plist, cur, b, a, m) is Some,
    decreases b - cur,
{
    if cur < b {
        assert(k * (b - cur) == k + k * (b - cur - 1)) by (nonlinear_arith)
            requires
                cur < b,
        ;
        lemma_octo_pass_room(list, 0, cur as u32, a, Seq::empty(), m);
        let r = octo_pass(list, 0, cur as u32, a, Seq::empty(), m)->0;
        let nl = r.1 + plist;
        if !(nl.len() == 1 && nl[0].1 == 0) {
            lemma_octo_levels_room(nl, Seq::empty(), cur + 1, b, r.0, m, k);
        }
    }
}

/// A pass under a smaller bound gives what it gives under a larger one
/// when that result fits the smaller bound, and nothing otherwise.
proof fn lemma_octo_pass_bound(
    list: Seq<(u32, u32)>,
    i: nat,
    cur: u32,
    a: Seq<(u32, u32)>,
    next: Seq<(u32, u32)>,
    m1: nat,
    m2: nat,
)
    requires
        m1 <= m2,
        a.len() <= m1,
        octo_pass(list, i, cur, a, next, m2) is Some,
    ensures
        octo_pass(list, i, cur, a, next, m1) == if (octo_pass(list, i, cur, a, next, m2)->0).0.len()
            <= m1 {
            octo_pass(list, i, cur, a, next, m2)
        } else {
            None
        },
    decreases list.len() - i,
{
    if i < list.len() {
        let e = list[i as int];
        let sib = e.1 ^ 1u32;
        let nxt = next.push(((e.0 + 1) as u32, e.1 >> 1u32));
        if i + 1 < list.len() && list[i + 1 as int].1 == sib {
            lemma_octo_pass_bound(list, i + 2, cur, a, nxt, m1, m2);
        } else {
            lemma_octo_pass_prefix(list, i + 1, cur, a.push((cur, sib)), nxt, m2);
            assert(a.push((cur, sib)).len() <= (octo_pass(list, i, cur, a, next, m2)->0).0.len());
            if a.len() < m1 {
                lemma_octo_pass_bound(list, i + 1, cur, a.push((cur, sib)), nxt, m1, m2);
            }
        }
    }
}

/// The walk under a smaller bound gives what it gives under a larger one
/// when that path fits the smaller bound, and nothing otherwise.
proof fn lemma_octo_levels_bound(
    list: Seq<(u32, u32)>,
    plist: Seq<(u32, u32)>,
    cur: nat,
    b: nat,
    a: Seq<(u32, u32)>,
    m1: nat,
    m2: nat,
)
    requires
        m1 <= m2,
        a.len() <= m1,
        octo_levels(list, plist, cur, b, a, m2) is Some,
    ensures
        octo_levels(list, plist, cur, b, a, m1) == if (octo_levels(list, plist, cur, b, a, m2)->0).len()
            <= m1 {
            octo_levels(list, plist, cur, b, a, m2)
        } else {
            None
        },
    decreases b - cur,
{
    if cur < b {
        lemma_octo_pass_bound(list, 0, cur as u32, a, Seq::empty(), m1, m2);
        let r = octo_pass(list, 0, cur as u32, a, Seq::empty(), m2)->0;
        let nl = r.1 + plist;
        if !(nl.len() == 1 && nl[0].1 == 0) {
            lemma_octo_levels_prefix(nl, Seq::empty(), cur + 1, b, r.0, m2);
            if r.0.len() <= m1 {
                lemma_octo_levels_bound(nl, Seq::empty(), cur + 1, b, r.0, m1, m2);
            }
        }
    }
}

/// The octopus path of `indices` exists exactly when the path they need
/// has at most `m_max` nodes, and then it is that path.
pub proof fn lemma_octopus_when(p: ParamSet, indices: Seq<u32>)
    requires
        p.wf(),
    ensures
        pors_octopus_spec(p, indices) == if octo_needed(p, indices).len() <= p.m_max {
            Some(octo_needed(p, indices))
        } else {
            None
        },
{
    let l0 = split_i(p, indices);
    let pl = split_p(p, indices);
    let b = p.b as nat;
    let big = (indices.len() * p.b) as nat;
    let mm = p.m_max as nat;
    let empty = Seq::<(u32, u32)>::empty();
    lemma_split_len(p, indices);
    assert(0 + indices.len() * (b - 0) <= big) by (nonlinear_arith)
        requires
            big == indices.len() * b,
    ;
    lemma_octo_levels_room(l0, pl, 0, b, empty, big, indices.len());
    if big >= mm {
        lemma_octo_levels_bound(l0, pl, 0, b, empty, mm, big);
    } else {
        assert(0 + indices.len() * (b - 0) <= mm);
        lemma_octo_levels_room(l0, pl, 0, b, empty, mm, indices.len());
        lemma_octo_levels_bound(l0, pl, 0, b, empty, big, mm);
    }
}

/// The levels of the nodes of `a` never decrease, and all are at most `top`.
pub open spec fn levels_ordered(a: Seq<(u32, u32)>, top: int) -> bool {
    &&& forall|x: int, y: int| 0 <= x < y < a.len() ==> (#[trigger] a[x]).0 <= (#[trigger] a[y]).0
    &&& forall|x: int| 0 <= x < a.len() ==> ((#[trigger] a[x]).0 as int) <= top
}

proof fn lemma_octo_pass_ordered(
    list: Seq<(u32, u32)>,
    i: nat,
    cur: u32,
    a: Seq<(u32, u32)>,
    next: Seq<(u32, u32)>,
    m: nat,
)
    requires
        levels_ordered(a, cur as int),
    ensures
        octo_pass(list, i, cur, a, next, m) matches Some(r) ==> levels_ordered(r.0, cur as int),
    decreases list.len() - i,
{
    if i < list.len() {
        let e = list[i as int];
        let sib = e.1 ^ 1u32;
        let nxt = next.push(((e.0 + 1) as u32, e.1 >> 1u32));
        if i + 1 < list.len() && list[i + 1 as int].1 == sib {
            lemma_octo_pass_ordered(list, i + 2, cur, a, nxt, m);
        } else if a.len() < m {
            let a2 = a.push((cur, sib));
            assert(levels_ordered(a2, cur as int)) by {
                assert forall|x: int, y: int| 0 <= x < y < a2.len() implies (#[trigger] a2[x]).0 <= (
                #[trigger] a2[y]).0 by {
                    if y < a.len() {
                        assert(a[x].0 <= a[y].0);
                    } else {
                        assert((a[x].0 as int) <= cur);
                    }
                }
            }
            lemma_octo_pass_ordered(list, i + 1, cur, a2, nxt, m);
        }
    }
}

proof fn lemma_octo_levels_ordered(
    list: Seq<(u32, u32)>,
    plist: Seq<(u32, u32)>,
    cur: nat,
    b: nat,
    a: Seq<(u32, u32)>,
    m: nat,
)
    requires
        b <= 32,
        cur <= b,
        levels_ordered(a, cur as int),
    ensures
        octo_levels(list, plist, cur, b, a, m) matches Some(r) ==> levels_ordered(r, b as int),
    decreases b - cur,
{
    if cur < b {
        lemma_octo_pass_ordered(list, 0, cur as u32, a, Seq::empty(), m);
        if let Some(r) = octo_pass(list, 0, cur as u32, a, Seq::empty(), m) {
            let nl = r.1 + plist;
            if !(nl.len() == 1 && nl[0].1 == 0) {
                lemma_octo_levels_ordered(nl, Seq::empty(), cur + 1, b, r.0, m);
            }
        }
    }
}

/// The nodes of an octopus path come level by level, from the bottom up.
pub proof fn lemma_octopus_levels_ordered(p: ParamSet, indices: Seq<u32>)
    requires
        p.wf(),
    ensures
        pors_octopus_spec(p, indices) matches Some(a) ==> levels_ordered(a, p.b as int),
{
    lemma_octo_levels_ordered(
        split_i(p, indices),
        split_p(p, indices),
        0,
        p.b as nat,
        Seq::empty(),
        p.m_max as nat,
    );
}

/// The nodes of `a` strictly increase by level, then by index: the path
/// names no node twice.
pub open spec fn path_increasing(a: Seq<(u32, u32)>) -> bool {
    forall|x: int, y: int|
        0 <= x < y < a.len() ==> (#[trigger] a[x]).0 < (#[trigger] a[y]).0 || (a[x].0 == a[y].0
            && a[x].1 < a[y].1)
}

/// The positions of `l` strictly increase and stay below `bound`.
pub open spec fn positions_below(l: Seq<(u32, u32)>, bound: int) -> bool {
    &&& forall|x: int, y: int| 0 <= x < y < l.len() ==> (#[trigger] l[x]).1 < (#[trigger] l[y]).1
    &&& forall|j: int| 0 <= j < l.len() ==> ((#[trigger] l[j]).1 as int) < bound
}

proof fn lemma_octo_pass_increasing(
    list: Seq<(u32, u32)>,
    i: nat,
    cur: u32,
    a: Seq<(u32, u32)>,
    next: Seq<(u32, u32)>,
    m: nat,
    hb: int,
)
    requires
        cur < 64,
        positions_below(list, 2 * hb),
        i <= list.len(),
        path_increasing(a),
        levels_ordered(a, cur as int),
        a.len() > 0 && a.last().0 == cur && i < list.len() ==> a.last().1 + 1 <= 2 * (
        list[i as int].1 / 2),
        positions_below(next, hb),
        next.len() > 0 && i < list.len() ==> 2 * next.last().1 + 2 <= list[i as int].1,
        octo_pass(list, i, cur, a, next, m) is Some,
    ensures
        ({
            let r = octo_pass(list, i, cur, a, next, m)->0;
            &&& path_increasing(r.0)
            &&& levels_ordered(r.0, cur as int)
            &&& positions_below(r.1, hb)
            &&& r.1.len() >= next.len()
            &&& (i < list.len() ==> r.1.len() > 0)
        }),
    decreases list.len() - i,
{
    if i < list.len() {
        let e = list[i as int];
        let x = e.1;
        lemma_position_bits(x);
        let q = x >> 1u32;
        let sib = x ^ 1u32;
        let nxt = next.push(((e.0 + 1) as u32, q));
        assert(positions_below(nxt, hb)) by {
            assert forall|u: int, v: int| 0 <= u < v < nxt.len() implies (#[trigger] nxt[u]).1 < (
            #[trigger] nxt[v]).1 by {
                if v == next.len() && u < next.len() - 1 {
                    assert(next[u].1 < next[next.len() - 1].1);
                }
            }
        }
        if i + 1 < list.len() && list[i + 1 as int].1 == sib {
            let y = list[i + 1 as int].1;
            lemma_position_bits(y);
            assert(x < y);
            if i + 2 < list.len() {
                assert(y < list[i + 2 as int].1);
                lemma_position_bits(list[i + 2 as int].1);
            }
            lemma_octo_pass_increasing(list, i + 2, cur, a, nxt, m, hb);
        } else {
            let a2 = a.push((cur, sib));
            if i + 1 < list.len() {
                assert(x < list[i + 1 as int].1);
                lemma_position_bits(list[i + 1 as int].1);
            }
            if a.len() < m {
                assert(path_increasing(a2)) by {
                    assert forall|u: int, v: int| 0 <= u < v < a2.len() implies (#[trigger] a2[u]).0
                        < (#[trigger] a2[v]).0 || (a2[u].0 == a2[v].0 && a2[u].1 < a2[v].1) by {
                        if v == a.len() {
                            assert((a[u].0 as int) <= cur);
                            if a[u].0 == cur {
                                assert(a[u].0 <= a[a.len() - 1].0);
                                if u < a.len() - 1 {
                                    assert(a[u].0 < a[a.len() - 1].0 || (a[u].0 == a[a.len() - 1].0
                                        && a[u].1 < a[a.len() - 1].1));
                                }
                            }
                        }
                    }
                }
                assert(levels_ordered(a2, cur as int)) by {
                    assert forall|u: int, v: int| 0 <= u < v < a2.len() implies (#[trigger] a2[u]).0
                        <= (#[trigger] a2[v]).0 by {
                        if v < a.len() {
                            assert(a[u].0 <= a[v].0);
                        }
                    }
                }
                lemma_octo_pass_increasing(list, i + 1, cur, a2, nxt, m, hb);
            }
        }
    }
}

proof fn lemma_octo_levels_increasing(
    list: Seq<(u32, u32)>,
    cur: nat,
    b: nat,
    a: Seq<(u32, u32)>,
    m: nat,
)
    requires
        1 <= cur <= b <= 24,
        positions_below(list, p2((b - cur) as nat)),
        path_increasing(a),
        levels_ordered(a, cur - 1),
        octo_levels(list, Seq::empty(), cur, b, a, m) is Some,
    ensures
        path_increasing(octo_levels(list, Seq::empty(), cur, b, a, m)->0),
    decreases b - cur,
{
    if cur < b {
        let empty = Seq::<(u32, u32)>::empty();
        vstd::arithmetic::power2::lemma_pow2_unfold((b - cur) as nat);
        lemma_octo_pass_increasing(list, 0, cur as u32, a, empty, m, p2((b - cur - 1) as nat));
        let r = octo_pass(list, 0, cur as u32, a, empty, m)->0;
        let nl = r.1 + empty;
        assert(nl =~= r.1);
        if !(nl.len() == 1 && nl[0].1 == 0) {
            lemma_octo_levels_increasing(r.1, cur + 1, b, r.0, m);
        }
    }
}

/// The octopus path of revealed indices in increasing order, below `t`,
/// names each node at most once: its nodes strictly increase by level,
/// then by index.
pub proof fn lemma_octopus_increasing(p: ParamSet, indices: Seq<u32>)
    requires
        p.wf(),
        forall|x: int, y: int| 0 <= x < y < indices.len() ==> #[trigger] indices[x] < #[trigger] indices[y],
        forall|j: int| 0 <= j < indices.len() ==> (#[trigger] indices[j] as int) < p.t,
    ensures
        pors_octopus_spec(p, indices) matches Some(a) ==> path_increasing(a) && a.no_duplicates(),
{
    if let Some(a) = pors_octopus_spec(p, indices) {
        p.lemma_layout();
        vstd::arithmetic::power2::lemma2_to64();
        let e = Seq::new(indices.len(), |j: int| (indices[j], Seq::<u8>::empty()));
        assert forall|x: int, y: int| 0 <= x < y < e.len() implies (#[trigger] e[x]).0 < (
        #[trigger] e[y]).0 by {
            assert(indices[x] < indices[y]);
        }
        lemma_split_order(p, e, indices);
        let l0 = split_i(p, indices);
        let pl = split_p(p, indices);
        let ie = split_ie(p, e);
        let pe = split_pe(p, e);
        assert(positions_below(l0, 2 * pors_s(p))) by {
            assert forall|x: int, y: int| 0 <= x < y < l0.len() implies (#[trigger] l0[x]).1 < (
            #[trigger] l0[y]).1 by {
                assert(ie[x].0 < ie[y].0);
            }
            assert forall|j: int| 0 <= j < l0.len() implies ((#[trigger] l0[j]).1 as int) < 2
                * pors_s(p) by {
                assert((ie[j].0 as int) < 2 * pors_s(p));
            }
        }
        let empty = Seq::<(u32, u32)>::empty();
        let mm = p.m_max as nat;
        let b = p.b as nat;
        lemma_octo_pass_increasing(l0, 0, 0, empty, empty, mm, pors_s(p));
        let r0 = octo_pass(l0, 0, 0, empty, empty, mm)->0;
        let nl = r0.1 + pl;
        if !(nl.len() == 1 && nl[0].1 == 0) {
            assert(positions_below(nl, p2((b - 1) as nat))) by {
                assert forall|x: int, y: int| 0 <= x < y < nl.len() implies (#[trigger] nl[x]).1 < (
                #[trigger] nl[y]).1 by {
                    if y < r0.1.len() {
                        assert(r0.1[x].1 < r0.1[y].1);
                    } else if x >= r0.1.len() {
                        assert(pl[x - r0.1.len()].1 == pe[x - r0.1.len()].0);
                        assert(pl[y - r0.1.len()].1 == pe[y - r0.1.len()].0);
                        assert(pe[x - r0.1.len()].0 < pe[y - r0.1.len()].0);
                    } else {
                        assert((r0.1[x].1 as int) < pors_s(p));
                        assert(pl[y - r0.1.len()].1 == pe[y - r0.1.len()].0);
                        assert((pe[y - r0.1.len()].0 as int) >= pors_s(p));
                    }
                }
                assert forall|j: int| 0 <= j < nl.len() implies ((#[trigger] nl[j]).1 as int) < p2(
                    (b - 1) as nat,
                ) by {
                    if j >= r0.1.len() {
                        assert(nl[j] == pl[j - r0.1.len()]);
                        assert(pl[j - r0.1.len()].1 == pe[j - r0.1.len()].0);
                    } else {
                        assert(nl[j] == r0.1[j]);
                    }
                }
            }
            lemma_octo_levels_increasing(nl, 1, b, r0.0, mm);
        }
        assert forall|x: int, y: int| 0 <= x < a.len() && 0 <= y < a.len() && x != y implies a[x]
            != a[y] by {
            if x < y {
                assert(a[x].0 < a[y].0 || (a[x].0 == a[y].0 && a[x].1 < a[y].1));
            } else {
                assert(a[y].0 < a[x].0 || (a[y].0 == a[x].0 && a[y].1 < a[x].1));
            }
        }
    }
}

} // verus!
