//! SHRINCS parameters.
//!
//! The three parameter sets are distinct marker types implementing [`Params`];
//! each one hands out its values as a [`ParamSet`].
#![allow(non_camel_case_types)]
use vstd::prelude::*;

verus! {

/// Security parameter (bytes): the length of every node, seed and root.
pub const N: usize = 16;

/// Randomness length (bytes) of the randomizer `r` in WOTS+C and PORS+FP signatures.
pub const R_LEN: usize = 32;

/// The values of one SHRINCS parameter set.
#[derive(Clone, Copy, Debug)]
pub struct ParamSet {
    /// Winternitz parameter (4 or 256).
    pub w: usize,
    /// Number of WOTS+C chains.
    pub l: usize,
    /// Target digit sum of a WOTS+C digest.
    pub swn: usize,
    /// Height of the stateful (UXMSS) tree; it has `hsf + 1` leaves.
    pub hsf: usize,
    /// Total height of the stateless hypertree.
    pub hsl: usize,
    /// Number of layers of the stateless hypertree.
    pub d: usize,
    /// Number of PORS+FP secret values.
    pub t: usize,
    /// PORS+FP tree height, `ceil(log2(t))`.
    pub b: usize,
    /// Number of revealed PORS+FP leaves.
    pub k: usize,
    /// Maximum number of nodes of the octopus authentication path.
    pub m_max: usize,
    /// Grinding margin for the hypertree index offset.
    pub margin: usize,
    /// Height at which PORS+FP subtree roots are cached for prepared signing.
    pub pors_checkpoint: usize,
}

pub open spec fn spec_shrincs_l() -> ParamSet {
    ParamSet {
        w: 4, l: 64, swn: 140, hsf: 189, hsl: 24, d: 2, t: 9245141, b: 24, k: 6, m_max: 91,
        margin: 7, pors_checkpoint: 15,
    }
}

pub open spec fn spec_shrincs_b() -> ParamSet {
    ParamSet {
        w: 256, l: 16, swn: 2040, hsf: 141, hsl: 24, d: 2, t: 9245141, b: 24, k: 6, m_max: 91,
        margin: 7, pors_checkpoint: 15,
    }
}

pub open spec fn spec_shrincs_b32() -> ParamSet {
    ParamSet {
        w: 256, l: 16, swn: 2040, hsf: 210, hsl: 32, d: 4, t: 109571, b: 17, k: 11, m_max: 111,
        margin: 10, pors_checkpoint: 8,
    }
}

impl ParamSet {
    /// One of the three SHRINCS parameter sets.
    pub open spec fn wf(self) -> bool {
        self == spec_shrincs_l() || self == spec_shrincs_b() || self == spec_shrincs_b32()
    }

    /// `log2(w)`: the number of message bits per WOTS+C digit.
    pub open spec fn spec_w_log(self) -> int {
        if self.w == 4 { 2 } else { 8 }
    }

    /// Height of one stateless layer, `hsl / d`.
    pub open spec fn spec_h_prime(self) -> int {
        self.hsl as int / self.d as int
    }

    /// Length of a WOTS+C signature: `r ‖ ctr ‖ l` nodes.
    pub open spec fn spec_wots_sign_len(self) -> int {
        R_LEN + 4 + self.l * N
    }

    /// Length of one XMSS signature: a WOTS+C signature and `h_prime` nodes.
    pub open spec fn spec_xmss_sign_len(self) -> int {
        self.spec_wots_sign_len() + self.spec_h_prime() * N
    }

    /// Length of a PORS+FP signature: `r ‖ k` secrets `‖ m_max` path nodes.
    pub open spec fn spec_pors_sign_len(self) -> int {
        R_LEN + (self.k + self.m_max) * N
    }

    /// Largest stateful signature: `sl ‖` WOTS+C signature `‖ hsf` nodes.
    pub open spec fn spec_max_sf_size(self) -> int {
        N + self.spec_wots_sign_len() + self.hsf * N
    }

    /// Length of a stateless signature: `sf ‖` PORS+FP signature `‖ d` XMSS signatures.
    pub open spec fn spec_sl_size(self) -> int {
        N + self.spec_pors_sign_len() + self.spec_xmss_sign_len() * self.d
    }

    /// Number of index candidates per 32-byte XOF block, `256 / b`.
    pub open spec fn spec_c(self) -> int {
        256int / self.b as int
    }

    /// Bit offset in the XOF output where the hypertree index is read.
    pub open spec fn spec_xof_offset_bits(self) -> int {
        (((vstd::arithmetic::power2::pow2(self.b as nat) * self.k + self.t - 1) / self.t as int)
            + self.margin) * self.b + 16
    }

    /// Number of 32-byte XOF blocks that are kept.
    pub open spec fn spec_xof_block_idx(self) -> int {
        (self.spec_xof_offset_bits() + 32 + 255) / 256
    }

    /// The derived sizes of the three parameter sets.
    pub proof fn lemma_sizes(self)
        requires
            self.wf(),
        ensures
            self.spec_h_prime() == if self.d == 2 { 12int } else { 8int },
            self.d == 2 || self.d == 4,
            self.spec_wots_sign_len() == 36 + self.l * 16,
            self.spec_wots_sign_len() <= 1060,
            self.spec_xmss_sign_len() <= 1252,
            self.spec_sl_size() <= 8000,
            self.spec_max_sf_size() <= 4200,
    {
        assert(24int / 2 == 12) by (nonlinear_arith);
        assert(32int / 4 == 8) by (nonlinear_arith);
        if self.d == 2 {
            assert(self.spec_xmss_sign_len() * 2 <= 2504) by (nonlinear_arith)
                requires
                    self.spec_xmss_sign_len() <= 1252;
        } else {
            assert(self.spec_xmss_sign_len() * 4 <= 1680) by (nonlinear_arith)
                requires
                    self.spec_xmss_sign_len() <= 420;
        }
    }

    /// Where the hypertree position sits in the XOF output, how the layers
    /// split it, and how the two signature sizes compare.
    pub proof fn lemma_layout(self)
        requires
            self.wf(),
        ensures
            self.spec_xof_offset_bits() == if self.b == 24 { 448int } else { 424int },
            self.spec_xof_offset_bits() + self.hsl <= 512,
            self.spec_h_prime() * self.d == self.hsl,
            self.spec_max_sf_size() < self.spec_sl_size(),
            self.spec_pors_sign_len() == 32 + 16 * (self.k + self.m_max),
            self.b - self.pors_checkpoint == 9,
            self.spec_c() == if self.b == 24 { 10int } else { 15int },
    {
        self.lemma_sizes();
        vstd::arithmetic::power2::lemma2_to64();
        assert((0x100_0000int * 6 + 9245141 - 1) / 9245141 == 11) by (nonlinear_arith);
        assert((0x2_0000int * 11 + 109571 - 1) / 109571 == 14) by (nonlinear_arith);
        assert(256int / 24 == 10) by (nonlinear_arith);
        assert(256int / 17 == 15) by (nonlinear_arith);
        if self.d == 2 {
            assert(self.spec_xmss_sign_len() * 2 == 2 * self.spec_xmss_sign_len()) by (nonlinear_arith);
        } else {
            assert(self.spec_xmss_sign_len() * 4 == 4 * self.spec_xmss_sign_len()) by (nonlinear_arith);
        }
    }

    /// `log2(w)`.
    pub fn w_log(&self) -> (r: u32)
        requires
            self.wf(),
        ensures
            r == self.spec_w_log(),
    {
        if self.w == 4 { 2 } else { 8 }
    }

    /// `hsl / d`.
    pub fn h_prime(&self) -> (r: usize)
        requires
            self.wf(),
        ensures
            r == self.spec_h_prime(),
            r == 12 || r == 8,
    {
        proof {
            self.lemma_sizes();
        }
        self.hsl / self.d
    }

    pub fn wots_sign_len(&self) -> (r: usize)
        requires
            self.wf(),
        ensures
            r == self.spec_wots_sign_len(),
    {
        R_LEN + 4 + self.l * N
    }

    pub fn xmss_sign_len(&self) -> (r: usize)
        requires
            self.wf(),
        ensures
            r == self.spec_xmss_sign_len(),
    {
        self.wots_sign_len() + self.h_prime() * N
    }

    pub fn pors_sign_len(&self) -> (r: usize)
        requires
            self.wf(),
        ensures
            r == self.spec_pors_sign_len(),
    {
        R_LEN + (self.k + self.m_max) * N
    }

    pub fn max_sf_size(&self) -> (r: usize)
        requires
            self.wf(),
        ensures
            r == self.spec_max_sf_size(),
    {
        N + self.wots_sign_len() + self.hsf * N
    }

    pub fn sl_size(&self) -> (r: usize)
        requires
            self.wf(),
        ensures
            r == self.spec_sl_size(),
    {
        proof {
            self.lemma_sizes();
        }
        N + self.pors_sign_len() + self.xmss_sign_len() * self.d
    }

    pub fn c(&self) -> (r: usize)
        requires
            self.wf(),
        ensures
            r == self.spec_c(),
    {
        256 / self.b
    }

    pub fn xof_offset_bits(&self) -> (r: usize)
        requires
            self.wf(),
        ensures
            r == self.spec_xof_offset_bits(),
            r == 448 || r == 424,
    {
        proof {
            vstd::arithmetic::power2::lemma2_to64();
        }
        let pb: usize = if self.b == 24 { 0x100_0000 } else { 0x2_0000 };
        assert((0x100_0000int * 6 + 9245141 - 1) / 9245141 == 11) by (nonlinear_arith);
        assert((0x2_0000int * 11 + 109571 - 1) / 109571 == 14) by (nonlinear_arith);
        ((pb * self.k + self.t - 1) / self.t + self.margin) * self.b + 16
    }

    pub fn xof_block_idx(&self) -> (r: usize)
        requires
            self.wf(),
        ensures
            r == self.spec_xof_block_idx(),
            r == 2,
    {
        let x = self.xof_offset_bits();
        (x + 32 + 255) / 256
    }
}

/// Common trait implemented by every SHRINCS parameter set.
pub trait Params {
    /// The values of this parameter set.
    spec fn spec_params() -> ParamSet;

    /// The values of this parameter set, at run time.
    fn params() -> (p: ParamSet)
        ensures
            p == Self::spec_params(),
            p.wf(),
    ;

    /// The values form one of the SHRINCS parameter sets.
    proof fn lemma_params_wf()
        ensures
            Self::spec_params().wf(),
    ;
}

/// The SHRINCS-L parameter set (faster, larger signatures).
pub struct SHRINCS_L;

/// The SHRINCS-B parameter set (smallest signatures; the recommended default).
pub struct SHRINCS_B;

/// The SHRINCS-B32 parameter set.
pub struct SHRINCS_B32;

impl Params for SHRINCS_L {
    open spec fn spec_params() -> ParamSet {
        spec_shrincs_l()
    }

    fn params() -> (p: ParamSet) {
        ParamSet {
            w: 4, l: 64, swn: 140, hsf: 189, hsl: 24, d: 2, t: 9245141, b: 24, k: 6, m_max: 91,
            margin: 7, pors_checkpoint: 15,
        }
    }

    proof fn lemma_params_wf() {
    }
}

impl Params for SHRINCS_B {
    open spec fn spec_params() -> ParamSet {
        spec_shrincs_b()
    }

    fn params() -> (p: ParamSet) {
        ParamSet {
            w: 256, l: 16, swn: 2040, hsf: 141, hsl: 24, d: 2, t: 9245141, b: 24, k: 6, m_max: 91,
            margin: 7, pors_checkpoint: 15,
        }
    }

    proof fn lemma_params_wf() {
    }
}

impl Params for SHRINCS_B32 {
    open spec fn spec_params() -> ParamSet {
        spec_shrincs_b32()
    }

    fn params() -> (p: ParamSet) {
        ParamSet {
            w: 256, l: 16, swn: 2040, hsf: 210, hsl: 32, d: 4, t: 109571, b: 17, k: 11,
            m_max: 111, margin: 10, pors_checkpoint: 8,
        }
    }

    proof fn lemma_params_wf() {
    }
}

/// Address-type constants written into the `type` field of an address.
pub const SF_WOTS_HASH: u32 = 0x00;
pub const SF_WOTS_PK: u32 = 0x01;
pub const SF_TREE: u32 = 0x02;
pub const SF_WOTS_GRIND: u32 = 0x03;
pub const SF_H_MSG: u32 = 0x04;
pub const SF_WOTS_PRF: u32 = 0x05;
pub const PORS_HASH: u32 = 0x06;
pub const PORS_TREE: u32 = 0x07;
pub const PORS_PK: u32 = 0x08;
pub const PORS_PRF: u32 = 0x09;
pub const PORS_XOF: u32 = 0x0A;
pub const SL_WOTS_HASH: u32 = 0x0B;
pub const SL_WOTS_PK: u32 = 0x0C;
pub const SL_TREE: u32 = 0x0D;
pub const SL_WOTS_GRIND: u32 = 0x0E;
pub const SL_H_MSG: u32 = 0x0F;
pub const SL_WOTS_PRF: u32 = 0x10;
pub const ROOT: u32 = 0x11;

} // verus!
