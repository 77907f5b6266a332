//! WOTS+C (Winternitz One-Time Signature with Checksum).
//!
//! The one-time signature scheme used at every leaf of the stateful UXMSS tree
//! and of each stateless XMSS layer.
use vstd::prelude::*;

use crate::address::{
    adrs_of, be32, be32_bytes, lemma_splice_tail, lemma_tail3, set_chain_address, set_hash_address,
    set_key_pair_address, set_type_and_clear, splice, Adrs,
};
use crate::constants::{
    ParamSet, Params, N, R_LEN, SF_H_MSG, SF_WOTS_GRIND, SF_WOTS_HASH, SF_WOTS_PK, SF_WOTS_PRF,
    SL_H_MSG, SL_WOTS_GRIND, SL_WOTS_HASH, SL_WOTS_PK, SL_WOTS_PRF,
};
use crate::hash::{
    append_bytes, finalize_node, hash_n, is_hash_fn, lemma_digest_len, lemma_prf_blocks_len,
    prf_input, prf_msg,
    prf_stream, Sha256Ctx,
};

verus! {

/// A 16-byte hash node.
pub type Node = [u8; 16];

/// Error raised when WOTS+C signing or verification fails.
#[derive(Debug, Clone, Copy, PartialEq, Eq, Structural)]
pub enum Error {
    /// The recomputed WOTS+C digest did not meet the target sum.
    DigestInvalid,
    /// No counter below `2^32` gives a digest that meets the target sum.
    GrindFailed,
}

// ----------------------------------------------------------------------------
// Specification
// ----------------------------------------------------------------------------

/// The chain-hash, public-key and PRF address types of the stateful
/// (`sf`) or stateless domain.
pub open spec fn spec_types(sf: bool) -> (u32, u32, u32) {
    if sf {
        (SF_WOTS_HASH, SF_WOTS_PK, SF_WOTS_PRF)
    } else {
        (SL_WOTS_HASH, SL_WOTS_PK, SL_WOTS_PRF)
    }
}

pub open spec fn grind_type(sf: bool) -> u32 {
    if sf { SF_WOTS_GRIND } else { SL_WOTS_GRIND }
}

pub open spec fn h_msg_type(sf: bool) -> u32 {
    if sf { SF_H_MSG } else { SL_H_MSG }
}

/// Digit `i` of the base-`w` decomposition of `m`: bits are read MSB-first,
/// `log2(w)` at a time.
pub open spec fn digit(p: ParamSet, m: Seq<u8>, i: int) -> u8 {
    let wl = p.spec_w_log();
    (m[(i * wl) / 8] >> ((8 - (i * wl) % 8 - wl) as u32)) & ((p.w - 1) as u8)
}

/// The `l` base-`w` digits of `m`.
pub open spec fn base_w_spec(p: ParamSet, m: Seq<u8>) -> Seq<u8> {
    Seq::new(p.l as nat, |i: int| digit(p, m, i))
}

/// The sum of a sequence of digits.
pub open spec fn digit_sum(s: Seq<u8>) -> int
    decreases s.len(),
{
    if s.len() == 0 {
        0
    } else {
        digit_sum(s.drop_last()) + s.last()
    }
}

/// The concatenation of a sequence of byte strings.
pub open spec fn concat_nodes(s: Seq<Seq<u8>>) -> Seq<u8>
    decreases s.len(),
{
    if s.len() == 0 {
        Seq::empty()
    } else {
        concat_nodes(s.drop_last()) + s.last()
    }
}

/// One chain step: hash the node `x` under address `a` with hash field `i`.
pub open spec fn chain_step<H: Fn(&[u8]) -> [u8; 32]>(
    h: H,
    ctx: Seq<u8>,
    a: Seq<u8>,
    x: Seq<u8>,
    i: int,
) -> Seq<u8> {
    hash_n(h, ctx + splice(a, 28, be32(i as u32)) + x)
}

/// `steps` chain steps applied to `x`, with hash fields `start, start + 1, ...`.
pub open spec fn chain_spec<H: Fn(&[u8]) -> [u8; 32]>(
    h: H,
    ctx: Seq<u8>,
    a: Seq<u8>,
    x: Seq<u8>,
    start: int,
    steps: nat,
) -> Seq<u8>
    decreases steps,
{
    if steps == 0 {
        x
    } else {
        chain_step(h, ctx, a, chain_spec(h, ctx, a, x, start, (steps - 1) as nat), start + steps - 1)
    }
}

/// The secret start of chain `i` of key pair `kp`.
pub open spec fn wots_sk<H: Fn(&[u8]) -> [u8; 32]>(
    h: H,
    ctx: Seq<u8>,
    pre: Seq<u8>,
    sk_seed: Seq<u8>,
    kp: u32,
    sf: bool,
    i: int,
) -> Seq<u8> {
    hash_n(h, ctx + adrs_of(pre, spec_types(sf).2, kp, i as u32, 0) + sk_seed)
}

/// The end of chain `i` of key pair `kp`: `w - 1` steps from its secret start.
pub open spec fn wots_pk_chain<H: Fn(&[u8]) -> [u8; 32]>(
    h: H,
    p: ParamSet,
    ctx: Seq<u8>,
    pre: Seq<u8>,
    sk_seed: Seq<u8>,
    kp: u32,
    sf: bool,
    i: int,
) -> Seq<u8> {
    chain_spec(
        h,
        ctx,
        adrs_of(pre, spec_types(sf).0, kp, i as u32, 0),
        wots_sk(h, ctx, pre, sk_seed, kp, sf, i),
        0,
        (p.w - 1) as nat,
    )
}

/// Compress the `l` chain ends of key pair `kp` into its public key.
pub open spec fn wots_compress<H: Fn(&[u8]) -> [u8; 32]>(
    h: H,
    ctx: Seq<u8>,
    pre: Seq<u8>,
    kp: u32,
    sf: bool,
    ends: Seq<Seq<u8>>,
) -> Seq<u8> {
    hash_n(h, ctx + adrs_of(pre, spec_types(sf).1, kp, 0, 0) + concat_nodes(ends))
}

/// The `l` chain ends of key pair `kp`.
pub open spec fn wots_pk_chains<H: Fn(&[u8]) -> [u8; 32]>(
    h: H,
    p: ParamSet,
    ctx: Seq<u8>,
    pre: Seq<u8>,
    sk_seed: Seq<u8>,
    kp: u32,
    sf: bool,
) -> Seq<Seq<u8>> {
    Seq::new(p.l as nat, |i: int| wots_pk_chain(h, p, ctx, pre, sk_seed, kp, sf, i))
}

/// The WOTS+C public key of key pair `kp`.
pub open spec fn wots_pk_spec<H: Fn(&[u8]) -> [u8; 32]>(
    h: H,
    p: ParamSet,
    ctx: Seq<u8>,
    pre: Seq<u8>,
    sk_seed: Seq<u8>,
    kp: u32,
    sf: bool,
) -> Seq<u8> {
    wots_compress(h, ctx, pre, kp, sf, wots_pk_chains(h, p, ctx, pre, sk_seed, kp, sf))
}

/// The grinding digest of `msg` for counter `ctr`.
pub open spec fn grind_digest<H: Fn(&[u8]) -> [u8; 32]>(
    h: H,
    ctx: Seq<u8>,
    pre: Seq<u8>,
    kp: u32,
    sf: bool,
    msg: Seq<u8>,
    ctr: u32,
) -> Seq<u8> {
    hash_n(h, ctx + adrs_of(pre, grind_type(sf), kp, 0, 0) + msg + be32(ctr))
}

/// The digits for counter `ctr`, when their sum is the target `swn`.
pub open spec fn wots_digest_spec<H: Fn(&[u8]) -> [u8; 32]>(
    h: H,
    p: ParamSet,
    ctx: Seq<u8>,
    pre: Seq<u8>,
    kp: u32,
    sf: bool,
    msg: Seq<u8>,
    ctr: u32,
) -> Option<Seq<u8>> {
    let d = base_w_spec(p, grind_digest(h, ctx, pre, kp, sf, msg, ctr));
    if digit_sum(d) == p.swn {
        Some(d)
    } else {
        None
    }
}

/// `ctr` is the smallest counter whose digits meet the target sum.
pub open spec fn first_valid_ctr<H: Fn(&[u8]) -> [u8; 32]>(
    h: H,
    p: ParamSet,
    ctx: Seq<u8>,
    pre: Seq<u8>,
    kp: u32,
    sf: bool,
    msg: Seq<u8>,
    ctr: u32,
) -> bool {
    &&& wots_digest_spec(h, p, ctx, pre, kp, sf, msg, ctr) is Some
    &&& forall|c: u32| c < ctr ==> #[trigger] wots_digest_spec(h, p, ctx, pre, kp, sf, msg, c) is None
}

/// Some counter meets the target sum.
pub open spec fn grind_possible<H: Fn(&[u8]) -> [u8; 32]>(
    h: H,
    p: ParamSet,
    ctx: Seq<u8>,
    pre: Seq<u8>,
    kp: u32,
    sf: bool,
    msg: Seq<u8>,
) -> bool {
    exists|c: u32| #[trigger] wots_digest_spec(h, p, ctx, pre, kp, sf, msg, c) is Some
}

/// The smallest counter that meets the target sum.
pub open spec fn grind_ctr<H: Fn(&[u8]) -> [u8; 32]>(
    h: H,
    p: ParamSet,
    ctx: Seq<u8>,
    pre: Seq<u8>,
    kp: u32,
    sf: bool,
    msg: Seq<u8>,
) -> u32 {
    choose|c: u32| #[trigger] first_valid_ctr(h, p, ctx, pre, kp, sf, msg, c)
}

/// The 16-byte digest that is signed: the message itself for internal
/// (hypertree) messages, else `H(adrs ‖ r ‖ pk_root ‖ message)`.
pub open spec fn msg_digest<H: Fn(&[u8]) -> [u8; 32]>(
    h: H,
    ctx: Seq<u8>,
    pre: Seq<u8>,
    sf: bool,
    r: Seq<u8>,
    pk_root: Seq<u8>,
    message: Seq<u8>,
    is_internal: bool,
) -> Seq<u8> {
    if is_internal {
        message.subrange(0, 16)
    } else {
        hash_n(h, ctx + adrs_of(pre, h_msg_type(sf), 0, 0, 0) + r + pk_root + message)
    }
}

/// The value of four big-endian bytes.
pub open spec fn be32_value(s: Seq<u8>) -> u32 {
    ((s[0] as u32) << 24u32) | ((s[1] as u32) << 16u32) | ((s[2] as u32) << 8u32) | (s[3] as u32)
}

/// Node `i` of the chain part of a WOTS+C signature.
pub open spec fn sig_node(sig: Seq<u8>, i: int) -> Seq<u8> {
    sig.subrange(R_LEN + 4 + N * i, R_LEN + 4 + N * (i + 1))
}

/// The chain ends recovered from the chain part of a signature for digits `d`.
pub open spec fn wots_recover_chains<H: Fn(&[u8]) -> [u8; 32]>(
    h: H,
    p: ParamSet,
    ctx: Seq<u8>,
    pre: Seq<u8>,
    kp: u32,
    sf: bool,
    sig: Seq<u8>,
    d: Seq<u8>,
) -> Seq<Seq<u8>> {
    Seq::new(
        p.l as nat,
        |i: int|
            chain_spec(
                h,
                ctx,
                adrs_of(pre, spec_types(sf).0, kp, i as u32, 0),
                sig_node(sig, i),
                d[i] as int,
                (p.w - 1 - d[i]) as nat,
            ),
    )
}

/// The public key that a WOTS+C signature gives, when its digest is valid.
pub open spec fn wots_pk_from_sig_spec<H: Fn(&[u8]) -> [u8; 32]>(
    h: H,
    p: ParamSet,
    sig: Seq<u8>,
    message: Seq<u8>,
    pk_root: Seq<u8>,
    ctx: Seq<u8>,
    pre: Seq<u8>,
    kp: u32,
    sf: bool,
    is_internal: bool,
) -> Option<Seq<u8>> {
    let r = sig.subrange(0, R_LEN as int);
    let ctr = be32_value(sig.subrange(R_LEN as int, R_LEN + 4));
    let md = msg_digest(h, ctx, pre, sf, r, pk_root, message, is_internal);
    match wots_digest_spec(h, p, ctx, pre, kp, sf, md, ctr) {
        None => None,
        Some(d) => Some(
            wots_compress(h, ctx, pre, kp, sf, wots_recover_chains(h, p, ctx, pre, kp, sf, sig, d)),
        ),
    }
}

/// The randomizer `r` of a WOTS+C signature.
pub open spec fn wots_r<H: Fn(&[u8]) -> [u8; 32]>(
    h: H,
    message: Seq<u8>,
    sk_prf: Seq<u8>,
    pk_seed: Seq<u8>,
) -> Seq<u8> {
    prf_stream(h, prf_input(sk_prf, pk_seed, pk_seed, message, false, 0), R_LEN as nat)
}

/// The chain part of a WOTS+C signature for the digits `d`.
pub open spec fn wots_sig_nodes<H: Fn(&[u8]) -> [u8; 32]>(
    h: H,
    p: ParamSet,
    ctx: Seq<u8>,
    pre: Seq<u8>,
    sk_seed: Seq<u8>,
    kp: u32,
    sf: bool,
    d: Seq<u8>,
) -> Seq<Seq<u8>> {
    Seq::new(
        p.l as nat,
        |i: int|
            chain_spec(
                h,
                ctx,
                adrs_of(pre, spec_types(sf).0, kp, i as u32, 0),
                wots_sk(h, ctx, pre, sk_seed, kp, sf, i),
                0,
                d[i] as nat,
            ),
    )
}

/// The WOTS+C signature `r ‖ ctr ‖ chain nodes`, or `None` when no counter
/// meets the target sum.
pub open spec fn wots_sign_spec<H: Fn(&[u8]) -> [u8; 32]>(
    h: H,
    p: ParamSet,
    message: Seq<u8>,
    sk_seed: Seq<u8>,
    sk_prf: Seq<u8>,
    pk_seed: Seq<u8>,
    pk_root: Seq<u8>,
    ctx: Seq<u8>,
    pre: Seq<u8>,
    kp: u32,
    sf: bool,
    is_internal: bool,
) -> Option<Seq<u8>> {
    let r = wots_r(h, message, sk_prf, pk_seed);
    let md = msg_digest(h, ctx, pre, sf, r, pk_root, message, is_internal);
    if grind_possible(h, p, ctx, pre, kp, sf, md) {
        let ctr = grind_ctr(h, p, ctx, pre, kp, sf, md);
        let d = base_w_spec(p, grind_digest(h, ctx, pre, kp, sf, md, ctr));
        Some(r + be32(ctr) + concat_nodes(wots_sig_nodes(h, p, ctx, pre, sk_seed, kp, sf, d)))
    } else {
        None
    }
}

/// The hash field that the chain of digit `d` leaves in the address: the
/// last step's, or 0 when the chain has no step.
pub open spec fn last_step(d: u8) -> u32 {
    if d > 0 {
        (d - 1) as u32
    } else {
        0
    }
}

/// The address that WOTS+C signing leaves behind: at the last step of the
/// last chain when a counter meets the target sum, else at the grinding
/// address.
pub open spec fn wots_sign_adrs<H: Fn(&[u8]) -> [u8; 32]>(
    h: H,
    p: ParamSet,
    message: Seq<u8>,
    sk_prf: Seq<u8>,
    pk_seed: Seq<u8>,
    pk_root: Seq<u8>,
    ctx: Seq<u8>,
    pre: Seq<u8>,
    kp: u32,
    sf: bool,
    is_internal: bool,
) -> Seq<u8> {
    let r = wots_r(h, message, sk_prf, pk_seed);
    let md = msg_digest(h, ctx, pre, sf, r, pk_root, message, is_internal);
    if grind_possible(h, p, ctx, pre, kp, sf, md) {
        let ctr = grind_ctr(h, p, ctx, pre, kp, sf, md);
        let d = base_w_spec(p, grind_digest(h, ctx, pre, kp, sf, md, ctr));
        adrs_of(pre, spec_types(sf).0, kp, (p.l - 1) as u32, last_step(d[p.l - 1]))
    } else {
        adrs_of(pre, grind_type(sf), kp, 0, 0)
    }
}

// ----------------------------------------------------------------------------
// Lemmas
// ----------------------------------------------------------------------------

pub proof fn lemma_concat_nodes_push(s: Seq<Seq<u8>>, x: Seq<u8>)
    ensures
        concat_nodes(s.push(x)) == concat_nodes(s) + x,
{
    assert(s.push(x).drop_last() =~= s);
}

/// The concatenation of `n` nodes of 16 bytes has `16 n` bytes, and node `i`
/// stands at offset `16 i`.
pub proof fn lemma_concat_nodes_index(s: Seq<Seq<u8>>)
    requires
        forall|i: int| 0 <= i < s.len() ==> (#[trigger] s[i]).len() == 16,
    ensures
        concat_nodes(s).len() == 16 * s.len(),
        forall|i: int|
            0 <= i < s.len() ==> concat_nodes(s).subrange(16 * i, 16 * i + 16) == #[trigger] s[i],
    decreases s.len(),
{
    if s.len() > 0 {
        let t = s.drop_last();
        lemma_concat_nodes_index(t);
        assert forall|i: int| 0 <= i < s.len() implies concat_nodes(s).subrange(
            16 * i,
            16 * i + 16,
        ) == #[trigger] s[i] by {
            if i < s.len() - 1 {
                assert(t[i] == s[i]);
                assert(concat_nodes(s).subrange(16 * i, 16 * i + 16) =~= concat_nodes(t).subrange(
                    16 * i,
                    16 * i + 16,
                ));
            } else {
                assert(concat_nodes(s).subrange(16 * i, 16 * i + 16) =~= s.last());
            }
        }
    }
}

/// `m` steps then `n` more steps are `m + n` steps.
pub proof fn lemma_chain_compose<H: Fn(&[u8]) -> [u8; 32]>(
    h: H,
    ctx: Seq<u8>,
    a: Seq<u8>,
    x: Seq<u8>,
    s: int,
    m: nat,
    n: nat,
)
    ensures
        chain_spec(h, ctx, a, chain_spec(h, ctx, a, x, s, m), s + m, n) == chain_spec(
            h,
            ctx,
            a,
            x,
            s,
            m + n,
        ),
    decreases n,
{
    if n > 0 {
        lemma_chain_compose(h, ctx, a, x, s, m, (n - 1) as nat);
        assert((m + n - 1) as nat == m + (n - 1) as nat);
    }
}

pub proof fn lemma_digit_sum_push(s: Seq<u8>, x: u8)
    ensures
        digit_sum(s.push(x)) == digit_sum(s) + x,
{
    assert(s.push(x).drop_last() =~= s);
}

pub proof fn lemma_digit_sum_bound(s: Seq<u8>)
    ensures
        0 <= digit_sum(s) <= 255 * s.len(),
    decreases s.len(),
{
    if s.len() > 0 {
        lemma_digit_sum_bound(s.drop_last());
    }
}

/// A digit is at most `w - 1`.
pub proof fn lemma_digit_bound(p: ParamSet, m: Seq<u8>, i: int)
    requires
        p.wf(),
    ensures
        digit(p, m, i) <= p.w - 1,
{
    let wl = p.spec_w_log();
    let x = m[(i * wl) / 8] >> ((8 - (i * wl) % 8 - wl) as u32);
    if p.w == 4 {
        assert(x & 3u8 <= 3u8) by (bit_vector);
    } else {
        assert(x & 255u8 <= 255u8) by (bit_vector);
    }
}

/// Reading back four big-endian bytes gives the value written.
pub proof fn lemma_be32_value(x: u32)
    ensures
        be32_value(be32(x)) == x,
{
    let b = be32(x);
    assert(b[0] == (x >> 24u32) as u8 && b[1] == (x >> 16u32) as u8 && b[2] == (x >> 8u32) as u8
        && b[3] == x as u8);
    assert(((((x >> 24u32) as u8) as u32) << 24u32) | ((((x >> 16u32) as u8) as u32) << 16u32) | ((
    ((x >> 8u32) as u8) as u32) << 8u32) | ((x as u8) as u32) == x) by (bit_vector);
}

/// Some counter meets the target sum exactly when a smallest one does.
pub proof fn lemma_grind_first<H: Fn(&[u8]) -> [u8; 32]>(
    h: H,
    p: ParamSet,
    ctx: Seq<u8>,
    pre: Seq<u8>,
    kp: u32,
    sf: bool,
    msg: Seq<u8>,
    c: u32,
)
    requires
        wots_digest_spec(h, p, ctx, pre, kp, sf, msg, c) is Some,
    ensures
        first_valid_ctr(h, p, ctx, pre, kp, sf, msg, grind_ctr(h, p, ctx, pre, kp, sf, msg)),
    decreases c,
{
    if exists|c2: u32| c2 < c && #[trigger] wots_digest_spec(h, p, ctx, pre, kp, sf, msg, c2) is Some {
        let c2 = choose|c2: u32| c2 < c && #[trigger] wots_digest_spec(h, p, ctx, pre, kp, sf, msg, c2) is Some;
        lemma_grind_first(h, p, ctx, pre, kp, sf, msg, c2);
    } else {
        assert(first_valid_ctr(h, p, ctx, pre, kp, sf, msg, c));
    }
}

/// The smallest valid counter is unique.
pub proof fn lemma_first_unique<H: Fn(&[u8]) -> [u8; 32]>(
    h: H,
    p: ParamSet,
    ctx: Seq<u8>,
    pre: Seq<u8>,
    kp: u32,
    sf: bool,
    msg: Seq<u8>,
    c: u32,
)
    requires
        first_valid_ctr(h, p, ctx, pre, kp, sf, msg, c),
    ensures
        grind_ctr(h, p, ctx, pre, kp, sf, msg) == c,
{
    lemma_grind_first(h, p, ctx, pre, kp, sf, msg, c);
    let g = grind_ctr(h, p, ctx, pre, kp, sf, msg);
    if g < c {
        assert(wots_digest_spec(h, p, ctx, pre, kp, sf, msg, g) is None);
    } else if c < g {
        assert(wots_digest_spec(h, p, ctx, pre, kp, sf, msg, c) is None);
    }
}

// ----------------------------------------------------------------------------
// Executable functions
// ----------------------------------------------------------------------------

/// A fresh vector of `n` zero bytes.
pub fn zero_bytes(n: usize) -> (v: Vec<u8>)
    ensures
        v@ == Seq::new(n as nat, |i: int| 0u8),
{
    let mut v: Vec<u8> = Vec::new();
    let mut i: usize = 0;
    while i < n
        invariant
            0 <= i <= n,
            v@ == Seq::new(i as nat, |j: int| 0u8),
        decreases n - i,
    {
        v.push(0u8);
        i += 1;
        assert(v@ =~= Seq::new(i as nat, |j: int| 0u8));
    }
    v
}

/// The 16 bytes of `s` from offset `off`.
pub fn read_node(s: &[u8], off: usize) -> (r: Node)
    requires
        off + 16 <= s@.len(),
    ensures
        r@ == s@.subrange(off as int, off + 16),
{
    let mut r = [0u8; 16];
    let len = s.len();
    let mut i: usize = 0;
    while i < 16
        invariant
            0 <= i <= 16,
            len == s@.len(),
            off + 16 <= s@.len(),
            forall|j: int| 0 <= j < i ==> r@[j] == s@[off + j],
        decreases 16 - i,
    {
        r[i] = s[off + i];
        i += 1;
    }
    assert(r@ =~= s@.subrange(off as int, off + 16));
    r
}

/// The value of the four big-endian bytes of `s` from offset `off`.
pub fn read_be32(s: &[u8], off: usize) -> (r: u32)
    requires
        off + 4 <= s@.len(),
    ensures
        r == be32_value(s@.subrange(off as int, off + 4)),
{
    let ghost t = s@.subrange(off as int, off + 4);
    assert(t[0] == s@[off as int] && t[1] == s@[off + 1] && t[2] == s@[off + 2] && t[3] == s@[off
        + 3]);
    ((s[off] as u32) << 24u32) | ((s[off + 1] as u32) << 16u32) | ((s[off + 2] as u32) << 8u32) | (
    s[off + 3] as u32)
}

/// The sum of the bytes of `v`.
pub fn sum_digits(v: &Vec<u8>) -> (s: u32)
    requires
        v@.len() <= 0x10000,
    ensures
        s == digit_sum(v@),
{
    let mut s: u32 = 0;
    let mut i: usize = 0;
    while i < v.len()
        invariant
            0 <= i <= v@.len() <= 0x10000,
            s == digit_sum(v@.subrange(0, i as int)),
        decreases v@.len() - i,
    {
        proof {
            lemma_digit_sum_bound(v@.subrange(0, i as int));
            lemma_digit_sum_push(v@.subrange(0, i as int), v@[i as int]);
            assert(v@.subrange(0, i as int).push(v@[i as int]) =~= v@.subrange(0, i + 1));
        }
        s = s + v[i] as u32;
        i += 1;
    }
    assert(v@.subrange(0, i as int) =~= v@);
    s
}

/// Select the three WOTS+C address types (chain hash, public key, PRF) for the
/// stateful (`sf == true`) or stateless (`sf == false`) domain.
fn types(sf: bool) -> (r: (u32, u32, u32))
    ensures
        r == spec_types(sf),
{
    if sf {
        (SF_WOTS_HASH, SF_WOTS_PK, SF_WOTS_PRF)
    } else {
        (SL_WOTS_HASH, SL_WOTS_PK, SL_WOTS_PRF)
    }
}

/// Decompose `message` into base-`w` digits, MSB-first, writing the first
/// `min(l, out.len())` of them to the front of `out`.
pub fn base_w<P: Params>(message: &[u8], out: &mut [u8])
    requires
        ({
            let p = P::spec_params();
            let n = if old(out)@.len() < p.l { old(out)@.len() as int } else { p.l as int };
            n == 0 || ((n - 1) * p.spec_w_log()) / 8 < message@.len()
        }),
    ensures
        ({
            let p = P::spec_params();
            let n = if old(out)@.len() < p.l { old(out)@.len() as int } else { p.l as int };
            final(out)@ == base_w_spec(p, message@).subrange(0, n) + old(out)@.subrange(
                n,
                old(out)@.len() as int,
            )
        }),
{
    let p = P::params();
    let wl: usize = if p.w == 4 { 2 } else { 8 };
    let mask: u8 = if p.w == 4 { 3 } else { 255 };
    let n: usize = if out.len() < p.l { out.len() } else { p.l };
    let mut i: usize = 0;
    while i < n
        invariant
            p == P::spec_params(),
            p.wf(),
            wl == p.spec_w_log(),
            mask == (p.w - 1) as u8,
            n == if old(out)@.len() < p.l { old(out)@.len() as int } else { p.l as int },
            n == 0 || ((n - 1) * wl) / 8 < message@.len(),
            0 <= i <= n,
            out@.len() == old(out)@.len(),
            forall|j: int| 0 <= j < i ==> out@[j] == digit(p, message@, j),
            forall|j: int| n <= j < out@.len() ==> out@[j] == old(out)@[j],
        decreases n - i,
    {
        assert((i * wl) / 8 <= ((n - 1) * wl) / 8) by (nonlinear_arith)
            requires
                i <= n - 1,
                0 <= wl,
        ;
        assert((i * wl) % 8 + wl <= 8) by (nonlinear_arith)
            requires
                wl == 2 || wl == 8,
        ;
        let idx = (i * wl) / 8;
        let sh = 8 - (i * wl) % 8 - wl;
        out[i] = (message[idx] >> (sh as u32)) & mask;
        i += 1;
    }
    assert(out@ =~= base_w_spec(p, message@).subrange(0, n as int) + old(out)@.subrange(
        n as int,
        old(out)@.len() as int,
    ));
}

/// Apply `steps` chain hashes to `m`, with hash fields `start, start + 1, ...`,
/// writing the end of the chain to `out`.
pub fn chain<P: Params, H: Fn(&[u8]) -> [u8; 32]>(
    h: &H,
    m: &Node,
    start: u32,
    steps: u32,
    hash_ctx: &Sha256Ctx,
    adrs: &mut Adrs,
    out: &mut Node,
)
    requires
        is_hash_fn(*h),
        start + steps <= u32::MAX,
    ensures
        final(out)@ == chain_spec(*h, hash_ctx@, old(adrs)@, m@, start as int, steps as nat),
        final(adrs)@ == if steps == 0 {
            old(adrs)@
        } else {
            splice(old(adrs)@, 28, be32((start + steps - 1) as u32))
        },
{
    *out = *m;
    let mut i: u32 = start;
    while i < start + steps
        invariant
            is_hash_fn(*h),
            start <= i <= start + steps <= u32::MAX,
            out@ == chain_spec(*h, hash_ctx@, old(adrs)@, m@, start as int, (i - start) as nat),
            adrs@ == if i == start {
                old(adrs)@
            } else {
                splice(old(adrs)@, 28, be32((i - 1) as u32))
            },
        decreases start + steps - i,
    {
        set_hash_address(adrs, i);
        assert(adrs@ =~= splice(old(adrs)@, 28, be32(i)));
        let ctx = hash_ctx.add_to_ctx(adrs).add_to_ctx(out);
        *out = finalize_node(h, &ctx);
        i += 1;
    }
}

/// Generate the WOTS+C public key of key pair `keypair`.
pub fn wots_pk_gen<P: Params, H: Fn(&[u8]) -> [u8; 32]>(
    h: &H,
    sk_seed: &[u8],
    hash_ctx: &Sha256Ctx,
    adrs: &mut Adrs,
    keypair: u32,
    sf: bool,
) -> (res: Node)
    requires
        is_hash_fn(*h),
    ensures
        res@ == wots_pk_spec(
            *h,
            P::spec_params(),
            hash_ctx@,
            old(adrs)@.subrange(0, 16),
            sk_seed@,
            keypair,
            sf,
        ),
        final(adrs)@ == adrs_of(old(adrs)@.subrange(0, 16), spec_types(sf).1, keypair, 0, 0),
{
    let p = P::params();
    let (wots_hash, wots_pk, wots_prf) = types(sf);
    let steps = (p.w - 1) as u32;
    let ghost pre = old(adrs)@.subrange(0, 16);
    let ghost chains = wots_pk_chains(*h, p, hash_ctx@, pre, sk_seed@, keypair, sf);
    let mut pk_nodes: Vec<u8> = Vec::new();
    let mut i: usize = 0;
    while i < p.l
        invariant
            is_hash_fn(*h),
            p == P::spec_params(),
            p.wf(),
            steps == p.w - 1,
            (wots_hash, wots_pk, wots_prf) == spec_types(sf),
            0 <= i <= p.l,
            adrs@.subrange(0, 16) == pre,
            pre.len() == 16,
            chains == wots_pk_chains(*h, p, hash_ctx@, pre, sk_seed@, keypair, sf),
            pk_nodes@ == concat_nodes(chains.subrange(0, i as int)),
        decreases p.l - i,
    {
        let ghost a0 = adrs@;
        set_type_and_clear(adrs, wots_prf);
        set_key_pair_address(adrs, keypair);
        set_chain_address(adrs, i as u32);
        proof {
            lemma_tail3(a0, wots_prf, keypair, i as u32);
        }
        let ctx = hash_ctx.add_to_ctx(adrs).add_to_ctx(sk_seed);
        let sk_i = finalize_node(h, &ctx);
        let ghost a1 = adrs@;
        set_type_and_clear(adrs, wots_hash);
        set_key_pair_address(adrs, keypair);
        set_chain_address(adrs, i as u32);
        proof {
            lemma_tail3(a1, wots_hash, keypair, i as u32);
            lemma_splice_tail(pre, wots_prf, keypair, i as u32, 0, 0);
        }
        let ghost a2 = adrs@;
        let mut node = [0u8; 16];
        chain::<P, H>(h, &sk_i, 0, steps, hash_ctx, adrs, &mut node);
        proof {
            lemma_splice_tail(pre, wots_hash, keypair, i as u32, 0, (steps - 1) as u32);
            assert(a1 == adrs_of(pre, wots_prf, keypair, i as u32, 0));
            assert(sk_i@ == wots_sk(*h, hash_ctx@, pre, sk_seed@, keypair, sf, i as int));
            assert(a2 == adrs_of(pre, wots_hash, keypair, i as u32, 0));
            assert(node@ == chain_spec(*h, hash_ctx@, a2, sk_i@, 0, steps as nat));
            assert(wots_hash == spec_types(sf).0);
            assert(steps as nat == (p.w - 1) as nat);
            assert(node@ == chains[i as int]);
        }
        append_bytes(&mut pk_nodes, &node);
        proof {
            lemma_concat_nodes_push(chains.subrange(0, i as int), chains[i as int]);
            assert(chains.subrange(0, i + 1) =~= chains.subrange(0, i as int).push(chains[i as int]));
        }
        i += 1;
    }
    assert(chains.subrange(0, i as int) =~= chains);
    set_type_and_clear(adrs, wots_pk);
    set_key_pair_address(adrs, keypair);
    proof {
        assert(adrs@ =~= adrs_of(pre, wots_pk, keypair, 0, 0));
    }
    let ctx = hash_ctx.add_to_ctx(adrs).add_to_ctx(pk_nodes.as_slice());
    finalize_node(h, &ctx)
}

/// The view of an optional byte vector.
pub open spec fn opt_bytes(v: Option<Vec<u8>>) -> Option<Seq<u8>> {
    match v {
        Some(x) => Some(x@),
        None => None,
    }
}

/// Recompute the digits for a single counter and keep them when their sum is
/// the target `swn`.
pub fn wots_digest<P: Params, H: Fn(&[u8]) -> [u8; 32]>(
    h: &H,
    message: &[u8],
    hash_ctx: &Sha256Ctx,
    ctr: u32,
    adrs: &mut Adrs,
    keypair: u32,
    sf: bool,
) -> (res: Option<Vec<u8>>)
    requires
        is_hash_fn(*h),
    ensures
        opt_bytes(res) == wots_digest_spec(
            *h,
            P::spec_params(),
            hash_ctx@,
            old(adrs)@.subrange(0, 16),
            keypair,
            sf,
            message@,
            ctr,
        ),
        final(adrs)@ == adrs_of(old(adrs)@.subrange(0, 16), grind_type(sf), keypair, 0, 0),
{
    let p = P::params();
    let ghost pre = old(adrs)@.subrange(0, 16);
    let gt = if sf { SF_WOTS_GRIND } else { SL_WOTS_GRIND };
    set_type_and_clear(adrs, gt);
    set_key_pair_address(adrs, keypair);
    proof {
        lemma_splice_tail(pre, gt, 0, 0, 0, keypair);
    }
    let cb = be32_bytes(ctr);
    let ctx = hash_ctx.add_to_ctx(adrs).add_to_ctx(message).add_to_ctx(&cb);
    let res = finalize_node(h, &ctx);
    let mut msg = zero_bytes(p.l);
    base_w::<P>(&res, msg.as_mut_slice());
    proof {
        assert(msg@ =~= base_w_spec(p, res@));
    }
    let sum = sum_digits(&msg);
    if sum as usize == p.swn {
        Some(msg)
    } else {
        None
    }
}

/// Search the counters `0, 1, ..., 2^32 - 1` in turn for the first whose
/// digits meet the target sum; return it with its digits.
pub fn wots_grind<P: Params, H: Fn(&[u8]) -> [u8; 32]>(
    h: &H,
    message: &[u8],
    hash_ctx: &Sha256Ctx,
    adrs: &mut Adrs,
    keypair: u32,
    sf: bool,
) -> (res: Result<(u32, Vec<u8>), Error>)
    requires
        is_hash_fn(*h),
    ensures
        ({
            let p = P::spec_params();
            let pre = old(adrs)@.subrange(0, 16);
            match res {
                Ok((ctr, d)) => first_valid_ctr(*h, p, hash_ctx@, pre, keypair, sf, message@, ctr)
                    && wots_digest_spec(*h, p, hash_ctx@, pre, keypair, sf, message@, ctr)
                    == Some(d@),
                Err(e) => e == Error::GrindFailed && !grind_possible(
                    *h,
                    p,
                    hash_ctx@,
                    pre,
                    keypair,
                    sf,
                    message@,
                ),
            }
        }),
        final(adrs)@ == adrs_of(old(adrs)@.subrange(0, 16), grind_type(sf), keypair, 0, 0),
{
    let p = P::params();
    let ghost pre = old(adrs)@.subrange(0, 16);
    let gt = if sf { SF_WOTS_GRIND } else { SL_WOTS_GRIND };
    set_type_and_clear(adrs, gt);
    set_key_pair_address(adrs, keypair);
    proof {
        lemma_splice_tail(pre, gt, 0, 0, 0, keypair);
    }
    let ctx = hash_ctx.add_to_ctx(adrs).add_to_ctx(message);
    let mut ctr: u32 = 0;
    loop
        invariant
            is_hash_fn(*h),
            p == P::spec_params(),
            p.wf(),
            ctx@ == hash_ctx@ + adrs_of(pre, grind_type(sf), keypair, 0, 0) + message@,
            pre == old(adrs)@.subrange(0, 16),
            adrs@ == adrs_of(pre, grind_type(sf), keypair, 0, 0),
            forall|c: u32|
                c < ctr ==> #[trigger] wots_digest_spec(
                    *h,
                    p,
                    hash_ctx@,
                    pre,
                    keypair,
                    sf,
                    message@,
                    c,
                ) is None,
        decreases u32::MAX - ctr,
    {
        let cb = be32_bytes(ctr);
        let ctx_c = ctx.add_to_ctx(&cb);
        let res = finalize_node(h, &ctx_c);
        let mut digits = zero_bytes(p.l);
        base_w::<P>(&res, digits.as_mut_slice());
        proof {
            assert(digits@ =~= base_w_spec(p, res@));
        }
        let sum = sum_digits(&digits);
        if sum as usize == p.swn {
            return Ok((ctr, digits));
        }
        if ctr == u32::MAX {
            proof {
                assert forall|c: u32| #[trigger]
                    wots_digest_spec(*h, p, hash_ctx@, pre, keypair, sf, message@, c)
                        is None by {
                    if c < ctr {
                    }
                }
            }
            return Err(Error::GrindFailed);
        }
        ctr += 1;
    }
}

/// The 32 bytes of `s` from offset `off`.
pub fn read_bytes32(s: &[u8], off: usize) -> (r: [u8; 32])
    requires
        off + 32 <= s@.len(),
    ensures
        r@ == s@.subrange(off as int, off + 32),
{
    let mut r = [0u8; 32];
    let len = s.len();
    let mut i: usize = 0;
    while i < 32
        invariant
            0 <= i <= 32,
            len == s@.len(),
            off + 32 <= s@.len(),
            forall|j: int| 0 <= j < i ==> r@[j] == s@[off + j],
        decreases 32 - i,
    {
        r[i] = s[off + i];
        i += 1;
    }
    assert(r@ =~= s@.subrange(off as int, off + 32));
    r
}

pub proof fn lemma_chain_len<H: Fn(&[u8]) -> [u8; 32]>(
    h: H,
    ctx: Seq<u8>,
    a: Seq<u8>,
    x: Seq<u8>,
    s: int,
    n: nat,
)
    requires
        x.len() == 16,
    ensures
        chain_spec(h, ctx, a, x, s, n).len() == 16,
    decreases n,
{
    if n > 0 {
        lemma_chain_len(h, ctx, a, x, s, (n - 1) as nat);
        lemma_digest_len(h, ctx + splice(a, 28, be32((s + n - 1) as u32)) + chain_spec(h, ctx, a, x, s, (n - 1) as nat));
    }
}

/// The 16-byte digest signed for `message`.
fn message_digest<H: Fn(&[u8]) -> [u8; 32]>(
    h: &H,
    message: &[u8],
    r: &[u8],
    pk_root: &[u8],
    hash_ctx: &Sha256Ctx,
    adrs: &mut Adrs,
    sf: bool,
    is_internal: bool,
) -> (res: Node)
    requires
        is_hash_fn(*h),
        is_internal ==> message@.len() >= 16,
    ensures
        res@ == msg_digest(
            *h,
            hash_ctx@,
            old(adrs)@.subrange(0, 16),
            sf,
            r@,
            pk_root@,
            message@,
            is_internal,
        ),
        final(adrs)@.subrange(0, 16) == old(adrs)@.subrange(0, 16),
{
    if is_internal {
        read_node(message, 0)
    } else {
        let ghost pre = old(adrs)@.subrange(0, 16);
        let hm = if sf { SF_H_MSG } else { SL_H_MSG };
        set_type_and_clear(adrs, hm);
        proof {
            lemma_splice_tail(pre, hm, 0, 0, 0, 0);
        }
        let ctx = hash_ctx.add_to_ctx(adrs).add_to_ctx(r).add_to_ctx(pk_root).add_to_ctx(message);
        finalize_node(h, &ctx)
    }
}

/// Sign `message` with key pair `keypair`, returning `r ‖ ctr ‖ l` chain nodes.
///
/// When `is_internal` the first 16 bytes of the message are signed directly
/// (hypertree chaining); otherwise the message is first hashed under the
/// message-hash domain together with `r` and `pk_root`.
pub fn wots_sign<P: Params, H: Fn(&[u8]) -> [u8; 32]>(
    h: &H,
    message: &[u8],
    sk_seed: &[u8],
    sk_prf: &[u8],
    pk_seed: &[u8],
    pk_root: &[u8],
    hash_ctx: &Sha256Ctx,
    adrs: &mut Adrs,
    keypair: u32,
    sf: bool,
    is_internal: bool,
) -> (res: Result<Vec<u8>, Error>)
    requires
        is_hash_fn(*h),
        is_internal ==> message@.len() >= 16,
    ensures
        ({
            let spec = wots_sign_spec(
                *h,
                P::spec_params(),
                message@,
                sk_seed@,
                sk_prf@,
                pk_seed@,
                pk_root@,
                hash_ctx@,
                old(adrs)@.subrange(0, 16),
                keypair,
                sf,
                is_internal,
            );
            match res {
                Ok(sig) => spec == Some(sig@),
                Err(e) => e == Error::GrindFailed && spec is None,
            }
        }),
        final(adrs)@ == wots_sign_adrs(
            *h,
            P::spec_params(),
            message@,
            sk_prf@,
            pk_seed@,
            pk_root@,
            hash_ctx@,
            old(adrs)@.subrange(0, 16),
            keypair,
            sf,
            is_internal,
        ),
        final(adrs)@.subrange(0, 16) == old(adrs)@.subrange(0, 16),
{
    let p = P::params();
    let ghost pre = old(adrs)@.subrange(0, 16);
    let (wots_hash, _wots_pk, wots_prf) = types(sf);
    let mut r = [0u8; 32];
    prf_msg(h, sk_prf, pk_seed, pk_seed, message, false, 0, R_LEN, &mut r);
    assert(r@ =~= wots_r(*h, message@, sk_prf@, pk_seed@));
    let digest = message_digest(h, message, &r, pk_root, hash_ctx, adrs, sf, is_internal);
    let ghost md = digest@;
    let (ctr, msg) = match wots_grind::<P, H>(h, &digest, hash_ctx, adrs, keypair, sf) {
        Ok(x) => x,
        Err(e) => {
            return Err(e);
        },
    };
    proof {
        lemma_first_unique(*h, p, hash_ctx@, pre, keypair, sf, md, ctr);
        assert forall|j: int| 0 <= j < p.l implies msg@[j] <= p.w - 1 by {
            lemma_digit_bound(p, grind_digest(*h, hash_ctx@, pre, keypair, sf, md, ctr), j);
        }
    }
    let ghost nodes = wots_sig_nodes(*h, p, hash_ctx@, pre, sk_seed@, keypair, sf, msg@);
    let mut sig: Vec<u8> = Vec::new();
    append_bytes(&mut sig, &r);
    let cb = be32_bytes(ctr);
    append_bytes(&mut sig, &cb);
    let mut i: usize = 0;
    while i < p.l
        invariant
            is_hash_fn(*h),
            p == P::spec_params(),
            p.wf(),
            (wots_hash, _wots_pk, wots_prf) == spec_types(sf),
            0 <= i <= p.l,
            msg@.len() == p.l,
            forall|j: int| 0 <= j < p.l ==> msg@[j] <= p.w - 1,
            adrs@.subrange(0, 16) == pre,
            pre.len() == 16,
            nodes == wots_sig_nodes(*h, p, hash_ctx@, pre, sk_seed@, keypair, sf, msg@),
            sig@ == r@ + be32(ctr) + concat_nodes(nodes.subrange(0, i as int)),
            i > 0 ==> adrs@ == adrs_of(pre, wots_hash, keypair, (i - 1) as u32, last_step(msg@[i - 1])),
        decreases p.l - i,
    {
        let ghost a0 = adrs@;
        set_type_and_clear(adrs, wots_prf);
        set_key_pair_address(adrs, keypair);
        set_chain_address(adrs, i as u32);
        proof {
            lemma_tail3(a0, wots_prf, keypair, i as u32);
        }
        let ctx = hash_ctx.add_to_ctx(adrs).add_to_ctx(sk_seed);
        let sk_i = finalize_node(h, &ctx);
        let ghost a1 = adrs@;
        set_type_and_clear(adrs, wots_hash);
        set_key_pair_address(adrs, keypair);
        set_chain_address(adrs, i as u32);
        proof {
            lemma_tail3(a1, wots_hash, keypair, i as u32);
            lemma_splice_tail(pre, wots_prf, keypair, i as u32, 0, 0);
        }
        let ghost a2 = adrs@;
        let d_i = msg[i];
        let mut node = [0u8; 16];
        chain::<P, H>(h, &sk_i, 0, d_i as u32, hash_ctx, adrs, &mut node);
        proof {
            if d_i > 0 {
                lemma_splice_tail(pre, wots_hash, keypair, i as u32, 0, (d_i - 1) as u32);
            }
            assert(a1 == adrs_of(pre, wots_prf, keypair, i as u32, 0));
            assert(sk_i@ == wots_sk(*h, hash_ctx@, pre, sk_seed@, keypair, sf, i as int));
            assert(a2 == adrs_of(pre, wots_hash, keypair, i as u32, 0));
            assert(node@ == nodes[i as int]);
            assert(adrs@ == adrs_of(pre, wots_hash, keypair, i as u32, last_step(d_i)));
        }
        append_bytes(&mut sig, &node);
        proof {
            lemma_concat_nodes_push(nodes.subrange(0, i as int), nodes[i as int]);
            assert(nodes.subrange(0, i + 1) =~= nodes.subrange(0, i as int).push(nodes[i as int]));
        }
        i += 1;
    }
    assert(nodes.subrange(0, i as int) =~= nodes);
    Ok(sig)
}

/// Recover the WOTS+C public key from a signature; fails when the digest for
/// the signature's counter does not meet the target sum.
pub fn wots_pk_from_sig<P: Params, H: Fn(&[u8]) -> [u8; 32]>(
    h: &H,
    sig: &[u8],
    message: &[u8],
    pk_root: &[u8],
    hash_ctx: &Sha256Ctx,
    adrs: &mut Adrs,
    keypair: u32,
    sf: bool,
    is_internal: bool,
) -> (res: Result<Node, Error>)
    requires
        is_hash_fn(*h),
        sig@.len() >= P::spec_params().spec_wots_sign_len(),
        is_internal ==> message@.len() >= 16,
    ensures
        ({
            let spec = wots_pk_from_sig_spec(
                *h,
                P::spec_params(),
                sig@,
                message@,
                pk_root@,
                hash_ctx@,
                old(adrs)@.subrange(0, 16),
                keypair,
                sf,
                is_internal,
            );
            match res {
                Ok(node) => spec == Some(node@),
                Err(e) => e == Error::DigestInvalid && spec is None,
            }
        }),
        final(adrs)@ == adrs_of(
            old(adrs)@.subrange(0, 16),
            if res is Ok {
                spec_types(sf).1
            } else {
                grind_type(sf)
            },
            keypair,
            0,
            0,
        ),
        final(adrs)@.subrange(0, 16) == old(adrs)@.subrange(0, 16),
{
    let p = P::params();
    let ghost pre = old(adrs)@.subrange(0, 16);
    let (wots_hash, wots_pk, _wots_prf) = types(sf);
    let r = read_bytes32(sig, 0);
    let ctr = read_be32(sig, R_LEN);
    let digest = message_digest(h, message, &r, pk_root, hash_ctx, adrs, sf, is_internal);
    let msg = match wots_digest::<P, H>(h, &digest, hash_ctx, ctr, adrs, keypair, sf) {
        Some(m) => m,
        None => {
            return Err(Error::DigestInvalid);
        },
    };
    proof {
        assert forall|j: int| 0 <= j < p.l implies msg@[j] <= p.w - 1 by {
            lemma_digit_bound(p, grind_digest(*h, hash_ctx@, pre, keypair, sf, digest@, ctr), j);
        }
    }
    let ghost ends = wots_recover_chains(*h, p, hash_ctx@, pre, keypair, sf, sig@, msg@);
    let to_step = (p.w - 1) as u32;
    let mut pk_nodes: Vec<u8> = Vec::new();
    let mut i: usize = 0;
    while i < p.l
        invariant
            is_hash_fn(*h),
            p == P::spec_params(),
            p.wf(),
            to_step == p.w - 1,
            (wots_hash, wots_pk, _wots_prf) == spec_types(sf),
            0 <= i <= p.l,
            sig@.len() >= p.spec_wots_sign_len(),
            msg@.len() == p.l,
            forall|j: int| 0 <= j < p.l ==> msg@[j] <= p.w - 1,
            adrs@.subrange(0, 16) == pre,
            pre.len() == 16,
            ends == wots_recover_chains(*h, p, hash_ctx@, pre, keypair, sf, sig@, msg@),
            pk_nodes@ == concat_nodes(ends.subrange(0, i as int)),
        decreases p.l - i,
    {
        let ghost a0 = adrs@;
        set_type_and_clear(adrs, wots_hash);
        set_key_pair_address(adrs, keypair);
        set_chain_address(adrs, i as u32);
        proof {
            lemma_tail3(a0, wots_hash, keypair, i as u32);
            p.lemma_sizes();
        }
        let ghost a1 = adrs@;
        let sig_i = read_node(sig, R_LEN + 4 + i * N);
        let d_i = msg[i];
        let mut pk_i = [0u8; 16];
        chain::<P, H>(h, &sig_i, d_i as u32, to_step - d_i as u32, hash_ctx, adrs, &mut pk_i);
        proof {
            if to_step - d_i as u32 > 0 {
                lemma_splice_tail(pre, wots_hash, keypair, i as u32, 0, (to_step - 1) as u32);
            }
            assert(sig_i@ == sig_node(sig@, i as int));
            assert(pk_i@ == ends[i as int]);
        }
        append_bytes(&mut pk_nodes, &pk_i);
        proof {
            lemma_concat_nodes_push(ends.subrange(0, i as int), ends[i as int]);
            assert(ends.subrange(0, i + 1) =~= ends.subrange(0, i as int).push(ends[i as int]));
        }
        i += 1;
    }
    assert(ends.subrange(0, i as int) =~= ends);
    set_type_and_clear(adrs, wots_pk);
    set_key_pair_address(adrs, keypair);
    proof {
        assert(adrs@ =~= adrs_of(pre, wots_pk, keypair, 0, 0));
    }
    let ctx = hash_ctx.add_to_ctx(adrs).add_to_ctx(pk_nodes.as_slice());
    Ok(finalize_node(h, &ctx))
}

/// Under an internal (tree-node) message, recovering the public key does
/// not read the randomizer `r`: signatures that differ only there give the
/// same key.
pub proof fn lemma_internal_ignores_r<H: Fn(&[u8]) -> [u8; 32]>(
    h: H,
    p: ParamSet,
    sig: Seq<u8>,
    sig2: Seq<u8>,
    message: Seq<u8>,
    pk_root: Seq<u8>,
    ctx: Seq<u8>,
    pre: Seq<u8>,
    kp: u32,
    sf: bool,
)
    requires
        sig.len() == p.spec_wots_sign_len(),
        sig2.len() == sig.len(),
        forall|j: int| R_LEN <= j < sig.len() ==> sig2[j] == sig[j],
    ensures
        wots_pk_from_sig_spec(h, p, sig2, message, pk_root, ctx, pre, kp, sf, true)
            == wots_pk_from_sig_spec(h, p, sig, message, pk_root, ctx, pre, kp, sf, true),
{
    assert(sig2.subrange(R_LEN as int, R_LEN + 4) =~= sig.subrange(R_LEN as int, R_LEN + 4));
    assert forall|i: int| 0 <= i < p.l implies sig_node(sig2, i) == sig_node(sig, i) by {
        assert(R_LEN + 4 + N * (i + 1) <= sig.len()) by (nonlinear_arith)
            requires
                0 <= i < p.l,
                sig.len() == R_LEN + 4 + p.l * N,
        ;
        assert(sig_node(sig2, i) =~= sig_node(sig, i));
    }
    let md = msg_digest(h, ctx, pre, sf, sig.subrange(0, R_LEN as int), pk_root, message, true);
    let ctr = be32_value(sig.subrange(R_LEN as int, R_LEN + 4));
    if let Some(d) = wots_digest_spec(h, p, ctx, pre, kp, sf, md, ctr) {
        assert(wots_recover_chains(h, p, ctx, pre, kp, sf, sig2, d) =~= wots_recover_chains(
            h,
            p,
            ctx,
            pre,
            kp,
            sf,
            sig,
            d,
        ));
    }
}

/// A WOTS+C signature checks out: recovering the public key from the
/// signature that `wots_sign` makes for a message gives the public key of the
/// key pair that signed it.
pub proof fn lemma_wots_sign_verify<H: Fn(&[u8]) -> [u8; 32]>(
    h: H,
    p: ParamSet,
    message: Seq<u8>,
    sk_seed: Seq<u8>,
    sk_prf: Seq<u8>,
    pk_seed: Seq<u8>,
    pk_root: Seq<u8>,
    ctx: Seq<u8>,
    pre: Seq<u8>,
    kp: u32,
    sf: bool,
    is_internal: bool,
)
    requires
        p.wf(),
        pre.len() == 16,
        is_internal ==> message.len() >= 16,
        wots_sign_spec(h, p, message, sk_seed, sk_prf, pk_seed, pk_root, ctx, pre, kp, sf, is_internal)
            is Some,
    ensures
        wots_pk_from_sig_spec(
            h,
            p,
            wots_sign_spec(
                h,
                p,
                message,
                sk_seed,
                sk_prf,
                pk_seed,
                pk_root,
                ctx,
                pre,
                kp,
                sf,
                is_internal,
            )->0,
            message,
            pk_root,
            ctx,
            pre,
            kp,
            sf,
            is_internal,
        ) == Some(wots_pk_spec(h, p, ctx, pre, sk_seed, kp, sf)),
{
    let r = wots_r(h, message, sk_prf, pk_seed);
    let md = msg_digest(h, ctx, pre, sf, r, pk_root, message, is_internal);
    let ctr = grind_ctr(h, p, ctx, pre, kp, sf, md);
    let c0 = choose|c: u32| #[trigger] wots_digest_spec(h, p, ctx, pre, kp, sf, md, c) is Some;
    lemma_grind_first(h, p, ctx, pre, kp, sf, md, c0);
    let d = base_w_spec(p, grind_digest(h, ctx, pre, kp, sf, md, ctr));
    let nodes = wots_sig_nodes(h, p, ctx, pre, sk_seed, kp, sf, d);
    let sig = r + be32(ctr) + concat_nodes(nodes);
    lemma_prf_blocks_len(h, prf_input(sk_prf, pk_seed, pk_seed, message, false, 0), 1);
    assert(r.len() == 32);
    assert forall|i: int| 0 <= i < nodes.len() implies (#[trigger] nodes[i]).len() == 16 by {
        lemma_digest_len(h, ctx + adrs_of(pre, spec_types(sf).2, kp, i as u32, 0) + sk_seed);
        lemma_chain_len(
            h,
            ctx,
            adrs_of(pre, spec_types(sf).0, kp, i as u32, 0),
            wots_sk(h, ctx, pre, sk_seed, kp, sf, i),
            0,
            d[i] as nat,
        );
    }
    lemma_concat_nodes_index(nodes);
    assert(sig.subrange(0, 32) =~= r);
    assert(sig.subrange(32, 36) =~= be32(ctr));
    lemma_be32_value(ctr);
    let ends = wots_recover_chains(h, p, ctx, pre, kp, sf, sig, d);
    let want = wots_pk_chains(h, p, ctx, pre, sk_seed, kp, sf);
    assert forall|i: int| 0 <= i < p.l implies ends[i] == want[i] by {
        assert(sig_node(sig, i) =~= concat_nodes(nodes).subrange(16 * i, 16 * i + 16));
        assert(sig_node(sig, i) == nodes[i]);
        lemma_digit_bound(p, grind_digest(h, ctx, pre, kp, sf, md, ctr), i);
        lemma_chain_compose(
            h,
            ctx,
            adrs_of(pre, spec_types(sf).0, kp, i as u32, 0),
            wots_sk(h, ctx, pre, sk_seed, kp, sf, i),
            0,
            d[i] as nat,
            (p.w - 1 - d[i]) as nat,
        );
        assert(d[i] as nat + (p.w - 1 - d[i]) as nat == (p.w - 1) as nat);
        assert(ends[i] == chain_spec(
            h,
            ctx,
            adrs_of(pre, spec_types(sf).0, kp, i as u32, 0),
            nodes[i],
            d[i] as int,
            (p.w - 1 - d[i]) as nat,
        ));
    }
    assert(ends =~= want);
}

/// A WOTS+C signature has `r_len + 4 + l n` bytes.
pub proof fn lemma_wots_sign_len<H: Fn(&[u8]) -> [u8; 32]>(
    h: H,
    p: ParamSet,
    message: Seq<u8>,
    sk_seed: Seq<u8>,
    sk_prf: Seq<u8>,
    pk_seed: Seq<u8>,
    pk_root: Seq<u8>,
    ctx: Seq<u8>,
    pre: Seq<u8>,
    kp: u32,
    sf: bool,
    is_internal: bool,
)
    requires
        wots_sign_spec(h, p, message, sk_seed, sk_prf, pk_seed, pk_root, ctx, pre, kp, sf, is_internal)
            is Some,
    ensures
        wots_sign_spec(
            h,
            p,
            message,
            sk_seed,
            sk_prf,
            pk_seed,
            pk_root,
            ctx,
            pre,
            kp,
            sf,
            is_internal,
        )->0.len() == p.spec_wots_sign_len(),
{
    let r = wots_r(h, message, sk_prf, pk_seed);
    let md = msg_digest(h, ctx, pre, sf, r, pk_root, message, is_internal);
    let ctr = grind_ctr(h, p, ctx, pre, kp, sf, md);
    let d = base_w_spec(p, grind_digest(h, ctx, pre, kp, sf, md, ctr));
    let nodes = wots_sig_nodes(h, p, ctx, pre, sk_seed, kp, sf, d);
    lemma_prf_blocks_len(h, prf_input(sk_prf, pk_seed, pk_seed, message, false, 0), 1);
    assert forall|i: int| 0 <= i < nodes.len() implies (#[trigger] nodes[i]).len() == 16 by {
        lemma_digest_len(h, ctx + adrs_of(pre, spec_types(sf).2, kp, i as u32, 0) + sk_seed);
        lemma_chain_len(
            h,
            ctx,
            adrs_of(pre, spec_types(sf).0, kp, i as u32, 0),
            wots_sk(h, ctx, pre, sk_seed, kp, sf, i),
            0,
            d[i] as nat,
        );
    }
    lemma_concat_nodes_index(nodes);
}

} // verus!
