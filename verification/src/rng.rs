//! Deterministic AES-256-CTR random byte generator (the seed expander used
//! to reproduce known-answer byte streams).
//!
//! The expander holds a 256-bit AES key, a 128-bit big-endian counter, the
//! current keystream block and a read position in it. Each time a block is
//! used up the counter is incremented and encrypted to give the next block.
use aes::cipher::{BlockEncrypt, KeyInit};
use aes::Aes256;
use vstd::prelude::*;

use crate::address::be32;

verus! {

/// The AES-256 encryption of the 16-byte `block` under the 32-byte `key`.
pub uninterp spec fn aes256_block(key: Seq<u8>, block: Seq<u8>) -> Seq<u8>;

/// Encrypts one block with AES-256 through the `aes` crate (`Aes256::new`
/// on the key, then `encrypt_block`). Claimed: the result is the AES-256
/// encryption of `block` under `key`, a function of the two alone.
#[verifier::external_body]
fn aes256_encrypt(key: &[u8; 32], block: &[u8; 16]) -> (r: [u8; 16])
    ensures
        r@ == aes256_block(key@, block@),
{
    let cipher = Aes256::new(key.into());
    let mut b: [u8; 16] = *block;
    cipher.encrypt_block((&mut b).into());
    b
}

/// The 16-byte big-endian counter `ctr` plus one, modulo `2^128`, carried
/// from byte `j` down.
pub open spec fn ctr_inc_from(ctr: Seq<u8>, j: int) -> Seq<u8>
    decreases j + 1,
{
    if j < 0 {
        ctr
    } else if ctr[j] == 0xff {
        ctr_inc_from(ctr.update(j, 0), j - 1)
    } else {
        ctr.update(j, (ctr[j] + 1) as u8)
    }
}

/// The 16-byte big-endian counter `ctr` plus one, modulo `2^128`.
pub open spec fn ctr_inc(ctr: Seq<u8>) -> Seq<u8> {
    ctr_inc_from(ctr, 15)
}

/// `256^n`.
pub open spec fn pow256(n: nat) -> int
    decreases n,
{
    if n == 0 {
        1
    } else {
        256 * pow256((n - 1) as nat)
    }
}

/// The number whose big-endian bytes are the first `n` of `s`.
pub open spec fn be_num(s: Seq<u8>, n: nat) -> int
    decreases n,
{
    if n == 0 {
        0
    } else {
        256 * be_num(s, (n - 1) as nat) + s[n - 1]
    }
}

proof fn lemma_be_num_bound(s: Seq<u8>, n: nat)
    ensures
        0 <= be_num(s, n) < pow256(n),
    decreases n,
{
    if n > 0 {
        lemma_be_num_bound(s, (n - 1) as nat);
    }
}

proof fn lemma_be_num_agree(s: Seq<u8>, t: Seq<u8>, n: nat)
    requires
        n <= s.len(),
        n <= t.len(),
        forall|i: int| 0 <= i < n ==> s[i] == t[i],
    ensures
        be_num(s, n) == be_num(t, n),
    decreases n,
{
    if n > 0 {
        lemma_be_num_agree(s, t, (n - 1) as nat);
    }
}

proof fn lemma_ctr_inc_from_value(ctr: Seq<u8>, j: int)
    requires
        -1 <= j < ctr.len(),
    ensures
        ctr_inc_from(ctr, j).len() == ctr.len(),
        forall|i: int| j < i < ctr.len() ==> #[trigger] ctr_inc_from(ctr, j)[i] == ctr[i],
        be_num(ctr_inc_from(ctr, j), (j + 1) as nat) == (be_num(ctr, (j + 1) as nat) + 1) % pow256(
            (j + 1) as nat,
        ),
    decreases j + 1,
{
    let n = (j + 1) as nat;
    if j >= 0 {
        let r = ctr_inc_from(ctr, j);
        let x = be_num(ctr, j as nat);
        let m = pow256(j as nat);
        lemma_be_num_bound(ctr, j as nat);
        if ctr[j] == 0xff {
            let t = ctr.update(j, 0);
            lemma_ctr_inc_from_value(t, j - 1);
            lemma_be_num_agree(t, ctr, j as nat);
            assert(r[j] == 0);
            assert(be_num(r, n) == 256 * ((x + 1) % m));
            assert(be_num(ctr, n) + 1 == 256 * (x + 1));
            assert(256 * ((x + 1) % m) == (256 * (x + 1)) % (256 * m)) by (nonlinear_arith)
                requires
                    0 <= x < m,
            ;
        } else {
            lemma_be_num_agree(r, ctr, j as nat);
            assert(be_num(r, n) == 256 * x + ctr[j] + 1);
            assert(256 * x + ctr[j] + 1 < 256 * m) by (nonlinear_arith)
                requires
                    0 <= x < m,
                    ctr[j] < 255,
            ;
            vstd::arithmetic::div_mod::lemma_small_mod((256 * x + ctr[j] + 1) as nat, (256 * m) as nat);
        }
    }
}

/// The counter step is the big-endian successor modulo `2^128`: the value
/// of `ctr_inc(ctr)` is one more than that of `ctr`, wrapping only past
/// `2^128 - 1`.
pub proof fn lemma_ctr_inc_successor(ctr: Seq<u8>)
    requires
        ctr.len() == 16,
    ensures
        ctr_inc(ctr).len() == 16,
        be_num(ctr_inc(ctr), 16) == (be_num(ctr, 16) + 1) % pow256(16),
{
    lemma_ctr_inc_from_value(ctr, 15);
}

/// The state of a seed expander: key, counter, current block and the read
/// position in that block.
pub struct ExpanderView {
    pub key: Seq<u8>,
    pub ctr: Seq<u8>,
    pub buf: Seq<u8>,
    pub ptr: nat,
}

/// One byte out of the expander: when the block is used up, the counter is
/// incremented and encrypted into a fresh block first.
pub open spec fn expander_step(s: ExpanderView) -> (ExpanderView, u8) {
    let s1 = if s.ptr >= 16 {
        let c = ctr_inc(s.ctr);
        ExpanderView { key: s.key, ctr: c, buf: aes256_block(s.key, c), ptr: 0 }
    } else {
        s
    };
    (ExpanderView { ptr: s1.ptr + 1, ..s1 }, s1.buf[s1.ptr as int])
}

/// The state after `n` bytes out of the expander, and those bytes.
pub open spec fn expander_gen(s: ExpanderView, n: nat) -> (ExpanderView, Seq<u8>)
    decreases n,
{
    if n == 0 {
        (s, Seq::empty())
    } else {
        let (s1, bytes) = expander_gen(s, (n - 1) as nat);
        let (s2, b) = expander_step(s1);
        (s2, bytes.push(b))
    }
}

/// Drawing `n` bytes and then `m` more gives the state and the bytes of
/// drawing `n + m` at once: the expander is one stream.
pub proof fn lemma_expander_gen_split(s: ExpanderView, n: nat, m: nat)
    ensures
        ({
            let (s1, a) = expander_gen(s, n);
            let (s2, b) = expander_gen(s1, m);
            expander_gen(s, n + m) == (s2, a + b)
        }),
    decreases m,
{
    let (s1, a) = expander_gen(s, n);
    if m == 0 {
        assert(a + Seq::<u8>::empty() =~= a);
    } else {
        lemma_expander_gen_split(s, n, (m - 1) as nat);
        let (s2, b) = expander_gen(s1, (m - 1) as nat);
        let (s3, x) = expander_step(s2);
        assert(expander_gen(s, n + m) == (s3, (a + b).push(x))) by {
            assert((n + m - 1) as nat == n + (m - 1) as nat);
        }
        assert((a + b).push(x) =~= a + b.push(x));
    }
}

/// The AES-256 CTR seed expander state.
pub struct SeedExpander {
    key: [u8; 32],
    ctr: [u8; 16],
    buf: [u8; 16],
    ptr: usize,
}

impl View for SeedExpander {
    type V = ExpanderView;

    closed spec fn view(&self) -> ExpanderView {
        ExpanderView { key: self.key@, ctr: self.ctr@, buf: self.buf@, ptr: self.ptr as nat }
    }
}

impl SeedExpander {
    /// The read position never passes the end of the block.
    pub closed spec fn wf(&self) -> bool {
        self.ptr <= 16
    }

    /// Initialize the seed expander with the 32-byte AES key `seed`; the
    /// counter starts as `diversifier ‖ maxlen` (big-endian) `‖` four zero
    /// bytes, and the first byte read starts a new block.
    pub fn init(seed: &[u8; 32], diversifier: &[u8; 8], maxlen: u32) -> (r: Self)
        ensures
            r.wf(),
            r@.key == seed@,
            r@.ctr == diversifier@ + be32(maxlen) + seq![0u8, 0u8, 0u8, 0u8],
            r@.buf == Seq::new(16, |i: int| 0u8),
            r@.ptr == 16,
    {
        let mut ctr = [0u8; 16];
        let mut i: usize = 0;
        while i < 8
            invariant
                0 <= i <= 8,
                forall|j: int| 0 <= j < i ==> ctr@[j] == diversifier@[j],
                forall|j: int| 8 <= j < 16 ==> ctr@[j] == 0,
            decreases 8 - i,
        {
            ctr[i] = diversifier[i];
            i += 1;
        }
        let m = crate::address::be32_bytes(maxlen);
        ctr[8] = m[0];
        ctr[9] = m[1];
        ctr[10] = m[2];
        ctr[11] = m[3];
        let r = SeedExpander { key: *seed, ctr, buf: [0u8; 16], ptr: 16 };
        assert(r@.ctr =~= diversifier@ + be32(maxlen) + seq![0u8, 0u8, 0u8, 0u8]);
        assert(r@.buf =~= Seq::new(16, |i: int| 0u8));
        r
    }

    /// Increment the 16-byte big-endian counter in place.
    fn increment_ctr(ctr: &mut [u8; 16])
        ensures
            final(ctr)@ == ctr_inc(old(ctr)@),
    {
        let mut j: usize = 16;
        while j > 0
            invariant
                0 <= j <= 16,
                ctr@.len() == 16,
                ctr_inc(old(ctr)@) == ctr_inc_from(ctr@, j - 1),
            decreases j,
        {
            j -= 1;
            if ctr[j] == 0xFF {
                ctr[j] = 0x00;
            } else {
                ctr[j] = ctr[j] + 1;
                return;
            }
        }
    }

    /// Write the next `out.len()` bytes of the keystream into `out`.
    pub fn generate(&mut self, out: &mut [u8])
        requires
            old(self).wf(),
        ensures
            final(self).wf(),
            (final(self)@, final(out)@) == expander_gen(old(self)@, old(out)@.len()),
    {
        let n = out.len();
        let mut i: usize = 0;
        while i < n
            invariant
                0 <= i <= n,
                n == out@.len(),
                out@.len() == old(out)@.len(),
                self.wf(),
                self@ == expander_gen(old(self)@, i as nat).0,
                out@.subrange(0, i as int) == expander_gen(old(self)@, i as nat).1,
            decreases n - i,
        {
            let ghost s0 = self@;
            if self.ptr >= 16 {
                Self::increment_ctr(&mut self.ctr);
                self.buf = aes256_encrypt(&self.key, &self.ctr);
                self.ptr = 0;
            }
            out[i] = self.buf[self.ptr];
            self.ptr += 1;
            proof {
                let (s1, bytes) = expander_gen(old(self)@, i as nat);
                assert(expander_step(s0).0 == self@);
                assert(out@.subrange(0, i + 1) =~= bytes.push(expander_step(s0).1));
            }
            i += 1;
        }
        assert(out@.subrange(0, n as int) =~= out@);
    }
}

/// The 48-byte seed: the entropy input, XORed with the personalization
/// string when there is one.
pub open spec fn rb_seed(entropy: Seq<u8>, pers: Option<Seq<u8>>) -> Seq<u8> {
    match pers {
        None => entropy,
        Some(ps) => Seq::new(48, |i: int| entropy[i] ^ ps[i]),
    }
}

/// Set up a seed expander from a 48-byte entropy input and an optional
/// 48-byte personalization string XORed into it: the first 32 bytes are the
/// key, the next 8 the diversifier, and the length limit is `2^32 - 1`.
pub fn randombytes_init(entropy_input: &[u8; 48], personalization: Option<&[u8; 48]>) -> (r:
    SeedExpander)
    ensures
        ({
            let seed = rb_seed(
                entropy_input@,
                match personalization {
                    None => None,
                    Some(ps) => Some(ps@),
                },
            );
            &&& r.wf()
            &&& r@.key == seed.subrange(0, 32)
            &&& r@.ctr == seed.subrange(32, 40) + be32(0xFFFF_FFFF) + seq![0u8, 0u8, 0u8, 0u8]
            &&& r@.buf == Seq::new(16, |i: int| 0u8)
            &&& r@.ptr == 16
        }),
{
    let mut seed: [u8; 48] = *entropy_input;
    if let Some(pers) = personalization {
        let mut i: usize = 0;
        while i < 48
            invariant
                0 <= i <= 48,
                forall|j: int| 0 <= j < i ==> seed@[j] == entropy_input@[j] ^ pers@[j],
                forall|j: int| i <= j < 48 ==> seed@[j] == entropy_input@[j],
            decreases 48 - i,
        {
            seed[i] = seed[i] ^ pers[i];
            i += 1;
        }
        assert(seed@ =~= Seq::new(48, |i: int| entropy_input@[i] ^ pers@[i]));
    }
    let mut key = [0u8; 32];
    let mut i: usize = 0;
    while i < 32
        invariant
            0 <= i <= 32,
            forall|j: int| 0 <= j < i ==> key@[j] == seed@[j],
        decreases 32 - i,
    {
        key[i] = seed[i];
        i += 1;
    }
    let mut diversifier = [0u8; 8];
    let mut i: usize = 0;
    while i < 8
        invariant
            0 <= i <= 8,
            forall|j: int| 0 <= j < i ==> diversifier@[j] == seed@[32 + j],
        decreases 8 - i,
    {
        diversifier[i] = seed[32 + i];
        i += 1;
    }
    assert(key@ =~= seed@.subrange(0, 32));
    assert(diversifier@ =~= seed@.subrange(32, 40));
    SeedExpander::init(&key, &diversifier, 0xFFFF_FFFF)
}

/// Fill `out` with the next bytes of the expander `rng`.
pub fn randombytes(rng: &mut SeedExpander, out: &mut [u8])
    requires
        old(rng).wf(),
    ensures
        final(rng).wf(),
        (final(rng)@, final(out)@) == expander_gen(old(rng)@, old(out)@.len()),
{
    rng.generate(out);
}

} // verus!
