//! SHA-256 hashing through a caller-supplied digest function.
//!
//! Every hash in SHRINCS is `SHA-256(base ‖ more)`, where a fixed base (the
//! public seed and 48 zero bytes) is extended by per-call data. A
//! [`Sha256Ctx`] holds the bytes absorbed so far; extending it leaves the base
//! untouched, and finalizing hashes all absorbed bytes at once.
//!
//! The digest function itself is handed in by the caller as `h`, a function
//! from bytes to a 32-byte digest (SHA-256 in every use of this crate). All
//! contracts speak of [`digest`], the value that `h` gives.
use vstd::prelude::*;

use crate::address::be32;

verus! {

/// `h` computes a function of its input bytes: it accepts every input and
/// gives equal digests for inputs with equal bytes.
pub open spec fn is_hash_fn<H: Fn(&[u8]) -> [u8; 32]>(h: H) -> bool {
    &&& forall|d: &[u8]| #[trigger] call_requires(h, (d,))
    &&& forall|d1: &[u8], d2: &[u8], r1: [u8; 32], r2: [u8; 32]|
        #![trigger call_ensures(h, (d1,), r1), call_ensures(h, (d2,), r2)]
        call_ensures(h, (d1,), r1) && call_ensures(h, (d2,), r2) && d1@ == d2@ ==> r1 == r2
}

/// `h` may answer `r` on some input whose bytes are `d`.
pub open spec fn produces<H: Fn(&[u8]) -> [u8; 32]>(h: H, d: Seq<u8>, r: [u8; 32]) -> bool {
    exists|s: &[u8]| s@ == d && #[trigger] call_ensures(h, (s,), r)
}

/// The 32-byte digest that `h` gives for the bytes `d`.
pub open spec fn digest<H: Fn(&[u8]) -> [u8; 32]>(h: H, d: Seq<u8>) -> Seq<u8> {
    (choose|r: [u8; 32]| #[trigger] produces(h, d, r))@
}

/// The first `N = 16` bytes of the digest of `d`.
pub open spec fn hash_n<H: Fn(&[u8]) -> [u8; 32]>(h: H, d: Seq<u8>) -> Seq<u8> {
    digest(h, d).subrange(0, 16)
}

pub proof fn lemma_digest_len<H: Fn(&[u8]) -> [u8; 32]>(h: H, d: Seq<u8>)
    ensures
        digest(h, d).len() == 32,
        hash_n(h, d).len() == 16,
{
}

/// Apply `h` to `data`.
pub fn sha256_of<H: Fn(&[u8]) -> [u8; 32]>(h: &H, data: &[u8]) -> (r: [u8; 32])
    requires
        is_hash_fn(*h),
    ensures
        r@ == digest(*h, data@),
{
    let r = h(data);
    proof {
        assert(produces(*h, data@, r));
        let r2 = choose|r: [u8; 32]| #[trigger] produces(*h, data@, r);
        let s2 = choose|s: &[u8]| s@ == data@ && #[trigger] call_ensures(*h, (s,), r2);
        assert(call_ensures(*h, (s2,), r2));
        assert(r2 == r);
    }
    r
}

/// The bytes absorbed into a SHA-256 computation that is not yet finalized.
pub struct Sha256Ctx {
    data: Vec<u8>,
}

impl View for Sha256Ctx {
    type V = Seq<u8>;

    closed spec fn view(&self) -> Seq<u8> {
        self.data@
    }
}

/// Append the bytes of `s` to `v`.
pub fn append_bytes(v: &mut Vec<u8>, s: &[u8])
    ensures
        final(v)@ == old(v)@ + s@,
{
    let mut i: usize = 0;
    while i < s.len()
        invariant
            0 <= i <= s@.len(),
            v@ == old(v)@ + s@.subrange(0, i as int),
        decreases s@.len() - i,
    {
        v.push(s[i]);
        i += 1;
        assert(v@ =~= old(v)@ + s@.subrange(0, i as int));
    }
    assert(s@.subrange(0, i as int) =~= s@);
}

impl Sha256Ctx {
    /// A fresh context that has absorbed nothing.
    pub fn new() -> (ctx: Self)
        ensures
            ctx@ == Seq::<u8>::empty(),
    {
        Sha256Ctx { data: Vec::new() }
    }

    /// Copy `self`, append `data`, and return the extended context.
    pub fn add_to_ctx(&self, data: &[u8]) -> (ctx: Self)
        ensures
            ctx@ == self@ + data@,
    {
        let mut v = self.data.clone();
        proof {
            assert(v@ =~= self.data@);
        }
        append_bytes(&mut v, data);
        Sha256Ctx { data: v }
    }

    /// The absorbed bytes.
    pub fn bytes(&self) -> (b: &[u8])
        ensures
            b@ == self@,
    {
        self.data.as_slice()
    }
}

/// Finalize a copy of `base_ctx` and return the full 32-byte digest.
pub fn finalize_full<H: Fn(&[u8]) -> [u8; 32]>(h: &H, base_ctx: &Sha256Ctx) -> (r: [u8; 32])
    requires
        is_hash_fn(*h),
    ensures
        r@ == digest(*h, base_ctx@),
{
    sha256_of(h, base_ctx.bytes())
}

/// Finalize a copy of `base_ctx` and return its first 16 bytes.
pub fn finalize_node<H: Fn(&[u8]) -> [u8; 32]>(h: &H, base_ctx: &Sha256Ctx) -> (r: [u8; 16])
    requires
        is_hash_fn(*h),
    ensures
        r@ == hash_n(*h, base_ctx@),
{
    let full = finalize_full(h, base_ctx);
    let mut r = [0u8; 16];
    let mut i: usize = 0;
    while i < 16
        invariant
            0 <= i <= 16,
            full@ == digest(*h, base_ctx@),
            forall|j: int| 0 <= j < i ==> r@[j] == full@[j],
        decreases 16 - i,
    {
        r[i] = full[i];
        i += 1;
    }
    assert(r@ =~= hash_n(*h, base_ctx@));
    r
}

/// Finalize a copy of `base_ctx` and write its first `N = 16` bytes to `out`.
pub fn sha256_finalize<H: Fn(&[u8]) -> [u8; 32]>(h: &H, base_ctx: &Sha256Ctx, out: &mut [u8])
    requires
        is_hash_fn(*h),
        old(out)@.len() >= 16,
    ensures
        final(out)@ == hash_n(*h, base_ctx@) + old(out)@.subrange(16, old(out)@.len() as int),
{
    let full = finalize_full(h, base_ctx);
    let mut i: usize = 0;
    while i < 16
        invariant
            0 <= i <= 16,
            out@.len() == old(out)@.len(),
            out@.len() >= 16,
            full@ == digest(*h, base_ctx@),
            forall|j: int| 0 <= j < i ==> out@[j] == full@[j],
            forall|j: int| 16 <= j < out@.len() ==> out@[j] == old(out)@[j],
        decreases 16 - i,
    {
        out[i] = full[i];
        i += 1;
    }
    assert(out@ =~= hash_n(*h, base_ctx@) + old(out)@.subrange(16, old(out)@.len() as int));
}

/// Finalize a copy of `base_ctx` and write all 32 bytes to `out`.
pub fn sha256_finalize_32<H: Fn(&[u8]) -> [u8; 32]>(h: &H, base_ctx: &Sha256Ctx, out: &mut [u8])
    requires
        is_hash_fn(*h),
        old(out)@.len() >= 32,
    ensures
        final(out)@ == digest(*h, base_ctx@) + old(out)@.subrange(32, old(out)@.len() as int),
{
    let full = finalize_full(h, base_ctx);
    let mut i: usize = 0;
    while i < 32
        invariant
            0 <= i <= 32,
            out@.len() == old(out)@.len(),
            out@.len() >= 32,
            full@ == digest(*h, base_ctx@),
            forall|j: int| 0 <= j < i ==> out@[j] == full@[j],
            forall|j: int| 32 <= j < out@.len() ==> out@[j] == old(out)@[j],
        decreases 32 - i,
    {
        out[i] = full[i];
        i += 1;
    }
    assert(out@ =~= digest(*h, base_ctx@) + old(out)@.subrange(32, old(out)@.len() as int));
}

/// The bytes hashed by `prf_msg` before the block counter.
pub open spec fn prf_input(
    sk_prf: Seq<u8>,
    pk_seed: Seq<u8>,
    opt_rand: Seq<u8>,
    message: Seq<u8>,
    is_ctr: bool,
    ctr: u32,
) -> Seq<u8> {
    sk_prf + pk_seed + opt_rand + (if is_ctr { be32(ctr) } else { Seq::empty() }) + message
}

/// The first `k` 32-byte blocks of the `prf_msg` stream over `c`:
/// `H(c ‖ 0) ‖ H(c ‖ 1) ‖ ...`.
pub open spec fn prf_blocks<H: Fn(&[u8]) -> [u8; 32]>(h: H, c: Seq<u8>, k: nat) -> Seq<u8>
    decreases k,
{
    if k == 0 {
        Seq::empty()
    } else {
        prf_blocks(h, c, (k - 1) as nat) + digest(h, c + be32((k - 1) as u32))
    }
}

/// The first `n` bytes of the `prf_msg` stream over `c`.
pub open spec fn prf_stream<H: Fn(&[u8]) -> [u8; 32]>(h: H, c: Seq<u8>, n: nat) -> Seq<u8> {
    prf_blocks(h, c, ((n + 31) / 32) as nat).subrange(0, n as int)
}

pub proof fn lemma_prf_blocks_len<H: Fn(&[u8]) -> [u8; 32]>(h: H, c: Seq<u8>, k: nat)
    ensures
        prf_blocks(h, c, k).len() == 32 * k,
    decreases k,
{
    if k > 0 {
        lemma_prf_blocks_len(h, c, (k - 1) as nat);
    }
}

/// The `prf_msg` pseudorandom function: `H(sk_prf ‖ pk_seed ‖ opt_rand ‖
/// [ctr] ‖ message ‖ i)` for `i = 0, 1, ...` until `mask_len` bytes are
/// produced; they are written to the front of `out`.
pub fn prf_msg<H: Fn(&[u8]) -> [u8; 32]>(
    h: &H,
    sk_prf: &[u8],
    pk_seed: &[u8],
    opt_rand: &[u8],
    message: &[u8],
    is_ctr: bool,
    ctr: u32,
    mask_len: usize,
    out: &mut [u8],
)
    requires
        is_hash_fn(*h),
        old(out)@.len() >= mask_len,
        mask_len <= 32 * 0xffff_ffff,
    ensures
        final(out)@ == prf_stream(
            *h,
            prf_input(sk_prf@, pk_seed@, opt_rand@, message@, is_ctr, ctr),
            mask_len as nat,
        ) + old(out)@.subrange(mask_len as int, old(out)@.len() as int),
{
    let ghost c = prf_input(sk_prf@, pk_seed@, opt_rand@, message@, is_ctr, ctr);
    let mut ctx = Sha256Ctx::new().add_to_ctx(sk_prf).add_to_ctx(pk_seed).add_to_ctx(opt_rand);
    if is_ctr {
        let cb: [u8; 4] = [(ctr >> 24u32) as u8, (ctr >> 16u32) as u8, (ctr >> 8u32) as u8, ctr as u8];
        assert(cb@ =~= be32(ctr));
        ctx = ctx.add_to_ctx(&cb);
    }
    ctx = ctx.add_to_ctx(message);
    assert(ctx@ =~= c);
    let mut produced: usize = 0;
    let mut i: u32 = 0;
    while produced < mask_len
        invariant
            ctx@ == c,
            is_hash_fn(*h),
            out@.len() == old(out)@.len(),
            old(out)@.len() >= mask_len,
            mask_len <= 32 * 0xffff_ffff,
            produced == if 32 * i <= mask_len { 32 * i } else { mask_len as int },
            i == 0 || 32 * (i - 1) < mask_len,
            prf_blocks(*h, c, i as nat).len() == 32 * i,
            forall|j: int| 0 <= j < produced ==> out@[j] == prf_blocks(*h, c, i as nat)[j],
            forall|j: int| mask_len <= j < out@.len() ==> out@[j] == old(out)@[j],
        decreases mask_len - produced,
    {
        let ib: [u8; 4] = [(i >> 24u32) as u8, (i >> 16u32) as u8, (i >> 8u32) as u8, i as u8];
        assert(ib@ =~= be32(i));
        let ctx_i = ctx.add_to_ctx(&ib);
        let hash = finalize_full(h, &ctx_i);
        let take: usize = if mask_len - produced < 32 { mask_len - produced } else { 32 };
        let ghost old_out = out@;
        let mut j: usize = 0;
        while j < take
            invariant
                0 <= j <= take <= 32,
                produced + take <= mask_len,
                out@.len() == old_out.len(),
                out@.len() >= mask_len,
                hash@ == digest(*h, ctx_i@),
                forall|k: int| 0 <= k < produced ==> out@[k] == old_out[k],
                forall|k: int| produced + take <= k < out@.len() ==> out@[k] == old_out[k],
                forall|k: int| 0 <= k < j ==> out@[produced + k] == hash@[k],
            decreases take - j,
        {
            out[produced + j] = hash[j];
            j += 1;
        }
        proof {
            lemma_digest_len(*h, c + be32(i));
            lemma_prf_blocks_len(*h, c, i as nat);
            let nb = prf_blocks(*h, c, (i + 1) as nat);
            assert(nb == prf_blocks(*h, c, i as nat) + digest(*h, c + be32(i)));
            assert(produced == 32 * i);
            assert(ctx_i@ == c + be32(i));
            assert forall|k: int| 0 <= k < produced + take implies out@[k] == nb[k] by {
                if k < produced {
                    assert(out@[k] == old_out[k]);
                } else {
                    assert(out@[produced + (k - produced)] == hash@[k - produced]);
                }
            }
        }
        produced += take;
        i += 1;
    }
    proof {
        lemma_prf_blocks_len(*h, c, i as nat);
        assert(i as nat == ((mask_len + 31) / 32) as nat);
        assert(out@ =~= prf_stream(*h, c, mask_len as nat) + old(out)@.subrange(
            mask_len as int,
            old(out)@.len() as int,
        ));
    }
}

} // verus!
