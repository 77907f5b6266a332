//! Top-level SHRINCS API: key generation, signing, and verification.
use getrandom::Error as GetrandomError;
use vstd::prelude::*;

use crate::address::{
    adrs_of, adrs_prefix, lemma_layer_tree, lemma_splice_tail, set_layer_address,
    set_tree_address, set_type_and_clear, Adrs,
};
use crate::constants::{ParamSet, Params, N, ROOT, SL_H_MSG};
use crate::hash::{digest, finalize_node, hash_n, is_hash_fn, lemma_digest_len, Sha256Ctx};
use crate::uxmss::{
    sf_prefix, uxmss_node, uxmss_pk_from_sig, uxmss_pk_from_sig_spec, uxmss_root, uxmss_sign,
    uxmss_sign_spec, uxmss_steps,
};
use crate::xmss::{p2, xmss_node, xmss_pk_from_sig, xmss_pk_from_sig_spec, xmss_root, xmss_sign, xmss_sign_spec};
use crate::pors_fp::{
    pors_digest, pors_indices, pors_octopus_spec, pors_pk_from_sig_spec, pors_sign_spec, xof_block,
    xof_input, zero_prefix,
};
use crate::{pors_fp, wots_c};

verus! {

/// Errors produced by SHRINCS operations.
#[derive(Debug, Clone, Copy, PartialEq, Eq, Structural)]
pub enum Error {
    /// The state was not marked valid before stateful signing.
    InvalidState,
    /// The stateful signature counter exceeded the allowed maximum.
    InvalidSignatureNumber,
    /// The recovered WOTS+C digest was invalid.
    WotsDigestInvalid,
    /// The PORS+FP grind failed to find a valid index set.
    PorsGrindFailed,
    /// The WOTS+C grind failed to find a valid digest.
    WotsGrindFailed,
    /// The OS random source failed.
    Random,
}

impl From<wots_c::Error> for Error {
    fn from(e: wots_c::Error) -> (r: Self) {
        match e {
            wots_c::Error::DigestInvalid => Error::WotsDigestInvalid,
            wots_c::Error::GrindFailed => Error::WotsGrindFailed,
        }
    }
}

impl vstd::std_specs::convert::FromSpecImpl<wots_c::Error> for Error {
    open spec fn obeys_from_spec() -> bool {
        true
    }

    open spec fn from_spec(e: wots_c::Error) -> Self {
        match e {
            wots_c::Error::DigestInvalid => Error::WotsDigestInvalid,
            wots_c::Error::GrindFailed => Error::WotsGrindFailed,
        }
    }
}

impl From<pors_fp::Error> for Error {
    fn from(e: pors_fp::Error) -> (r: Self) {
        match e {
            pors_fp::Error::GrindFailed => Error::PorsGrindFailed,
            pors_fp::Error::OctopusFailed => Error::PorsGrindFailed,
        }
    }
}

impl vstd::std_specs::convert::FromSpecImpl<pors_fp::Error> for Error {
    open spec fn obeys_from_spec() -> bool {
        true
    }

    open spec fn from_spec(e: pors_fp::Error) -> Self {
        Error::PorsGrindFailed
    }
}

/// The SHRINCS public key: `(seed, root)`, each 16 bytes.
#[derive(Clone, Copy, Debug, PartialEq, Eq)]
pub struct PublicKey {
    /// The 16-byte public seed.
    pub seed: [u8; 16],
    /// The 16-byte compressed public root.
    pub root: [u8; 16],
}

/// The SHRINCS secret key.
#[derive(Clone, Copy, Debug, PartialEq, Eq)]
pub struct SecretKey {
    /// The 16-byte secret seed.
    pub seed: [u8; 16],
    /// The 16-byte secret PRF key.
    pub prf: [u8; 16],
    /// The 16-byte stateful-tree root (`sf`).
    pub sf: [u8; 16],
    /// The 16-byte stateless-tree root (`sl`).
    pub sl: [u8; 16],
    /// The corresponding public key.
    pub pk: PublicKey,
}

/// State tracking for stateful signing.
#[derive(Clone, Copy, Debug, PartialEq, Eq, Structural)]
pub struct State {
    /// The number of stateful signatures produced so far.
    pub q: u32,
    /// Whether this state is safe to sign with.
    pub valid: bool,
}

impl Default for PublicKey {
    fn default() -> (r: Self)
        ensures
            r.seed@ == Seq::new(16, |i: int| 0u8),
            r.root@ == Seq::new(16, |i: int| 0u8),
    {
        let r = PublicKey { seed: [0u8; 16], root: [0u8; 16] };
        assert(r.seed@ =~= Seq::new(16, |i: int| 0u8));
        assert(r.root@ =~= Seq::new(16, |i: int| 0u8));
        r
    }
}

impl Default for SecretKey {
    fn default() -> (r: Self)
        ensures
            r.seed@ == Seq::new(16, |i: int| 0u8),
            r.prf@ == Seq::new(16, |i: int| 0u8),
            r.sf@ == Seq::new(16, |i: int| 0u8),
            r.sl@ == Seq::new(16, |i: int| 0u8),
            r.pk.seed@ == Seq::new(16, |i: int| 0u8),
            r.pk.root@ == Seq::new(16, |i: int| 0u8),
    {
        let r = SecretKey {
            seed: [0u8; 16],
            prf: [0u8; 16],
            sf: [0u8; 16],
            sl: [0u8; 16],
            pk: PublicKey::default(),
        };
        assert(r.seed@ =~= Seq::new(16, |i: int| 0u8));
        assert(r.prf@ =~= Seq::new(16, |i: int| 0u8));
        assert(r.sf@ =~= Seq::new(16, |i: int| 0u8));
        assert(r.sl@ =~= Seq::new(16, |i: int| 0u8));
        r
    }
}

impl Default for State {
    fn default() -> (r: Self)
        ensures
            r.q == 0,
            !r.valid,
    {
        State { q: 0, valid: false }
    }
}

/// `n` zero bytes.
pub open spec fn zeros(n: nat) -> Seq<u8> {
    Seq::new(n, |i: int| 0u8)
}

/// The bytes of the shared hash base: `pk_seed` then 48 zero bytes.
pub open spec fn base_ctx_spec(pk_seed: Seq<u8>) -> Seq<u8> {
    pk_seed + zeros(32) + zeros(16)
}

/// The stateful tree root of a key.
pub open spec fn pk_sf_spec<H: Fn(&[u8]) -> [u8; 32]>(
    h: H,
    p: ParamSet,
    sk_seed: Seq<u8>,
    pk_seed: Seq<u8>,
) -> Seq<u8> {
    uxmss_node(h, p, base_ctx_spec(pk_seed), sf_prefix(), sk_seed, 0)
}

/// The address prefix of the top stateless layer.
pub open spec fn top_prefix(p: ParamSet) -> Seq<u8> {
    adrs_prefix((p.d - 1) as u32, 0, 0)
}

/// The stateless hypertree root of a key: the root of the top XMSS layer.
pub open spec fn pk_sl_spec<H: Fn(&[u8]) -> [u8; 32]>(
    h: H,
    p: ParamSet,
    sk_seed: Seq<u8>,
    pk_seed: Seq<u8>,
) -> Seq<u8> {
    xmss_node(h, p, base_ctx_spec(pk_seed), top_prefix(p), sk_seed, p.spec_h_prime() as nat, 0)
}

/// The public root: the compression of the stateful and stateless roots.
pub open spec fn root_spec<H: Fn(&[u8]) -> [u8; 32]>(
    h: H,
    pk_seed: Seq<u8>,
    sf: Seq<u8>,
    sl: Seq<u8>,
) -> Seq<u8> {
    hash_n(h, base_ctx_spec(pk_seed) + adrs_of(sf_prefix(), ROOT, 0, 0, 0) + sf + sl)
}

/// `sk` and `pk` are the keys restored from `seed`
/// (`sk_seed ‖ sk_prf ‖ pk_seed`).
pub open spec fn keys_from_seed<H: Fn(&[u8]) -> [u8; 32]>(
    h: H,
    p: ParamSet,
    seed: Seq<u8>,
    pk: PublicKey,
    sk: SecretKey,
) -> bool {
    let sk_seed = seed.subrange(0, 16);
    let sk_prf = seed.subrange(16, 32);
    let pk_seed = seed.subrange(32, 48);
    let sf = pk_sf_spec(h, p, sk_seed, pk_seed);
    let sl = pk_sl_spec(h, p, sk_seed, pk_seed);
    &&& sk.seed@ == sk_seed
    &&& sk.prf@ == sk_prf
    &&& sk.sf@ == sf
    &&& sk.sl@ == sl
    &&& sk.pk.seed@ == pk_seed
    &&& sk.pk.root@ == root_spec(h, pk_seed, sf, sl)
    &&& pk == sk.pk
}

/// The keys restored from a 48-byte seed `sk_seed ‖ sk_prf ‖ pk_seed` take
/// the three fields at their fixed offsets: the secret seed from bytes
/// `0 .. 16`, the PRF key from `16 .. 32` and the public seed from
/// `32 .. 48`, and the public root is computed from these, under the public
/// seed.
pub proof fn lemma_restore_layout<H: Fn(&[u8]) -> [u8; 32]>(
    h: H,
    p: ParamSet,
    seed: Seq<u8>,
    pk: PublicKey,
    sk: SecretKey,
)
    requires
        seed.len() == 48,
        keys_from_seed(h, p, seed, pk, sk),
    ensures
        sk.seed@ == seed.subrange(0, 16),
        sk.prf@ == seed.subrange(16, 32),
        pk.seed@ == seed.subrange(32, 48),
        sk.pk == pk,
        sk.sf@ == pk_sf_spec(h, p, seed.subrange(0, 16), seed.subrange(32, 48)),
        sk.sl@ == pk_sl_spec(h, p, seed.subrange(0, 16), seed.subrange(32, 48)),
        pk.root@ == root_spec(h, seed.subrange(32, 48), sk.sf@, sk.sl@),
{
}

/// Build the shared hash base context from `pk_seed` plus 48 zero bytes.
pub fn base_ctx(pk_seed: &[u8]) -> (ctx: Sha256Ctx)
    ensures
        ctx@ == base_ctx_spec(pk_seed@),
{
    let adrs = [0u8; 32];
    let z16 = [0u8; 16];
    assert(adrs@ =~= zeros(32));
    assert(z16@ =~= zeros(16));
    Sha256Ctx::new().add_to_ctx(pk_seed).add_to_ctx(&adrs).add_to_ctx(&z16)
}

/// Restore a key pair and state deterministically from a 48-byte seed
/// (`sk_seed ‖ sk_prf ‖ pk_seed`); the state starts at zero signatures and
/// is not yet valid for signing.
pub fn restore<P: Params, H: Fn(&[u8]) -> [u8; 32]>(
    h: &H,
    seed: &[u8; 48],
    out_pk: &mut PublicKey,
    out_sk: &mut SecretKey,
    out_state: &mut State,
)
    requires
        is_hash_fn(*h),
    ensures
        keys_from_seed(*h, P::spec_params(), seed@, *final(out_pk), *final(out_sk)),
        final(out_state).q == 0,
        !final(out_state).valid,
{
    let p = P::params();
    let sk_seed = wots_c::read_node(seed, 0);
    let sk_prf = wots_c::read_node(seed, 16);
    let pk_seed = wots_c::read_node(seed, 32);
    let mut adrs: Adrs = [0u8; 32];
    let hash_ctx = base_ctx(&pk_seed);
    let pk_sf = uxmss_root::<P, H>(h, &sk_seed, &hash_ctx, &mut adrs);
    let ghost a0 = adrs@;
    set_layer_address(&mut adrs, (p.d - 1) as u32);
    set_tree_address(&mut adrs, 0, 0);
    proof {
        lemma_layer_tree(a0, (p.d - 1) as u32, 0, 0);
        p.lemma_sizes();
    }
    let pk_sl = xmss_root::<P, H>(h, &sk_seed, &hash_ctx, &mut adrs, p.h_prime() as u32);
    let ghost a1 = adrs@;
    set_layer_address(&mut adrs, 0);
    set_tree_address(&mut adrs, 0, 0);
    proof {
        lemma_layer_tree(a1, 0, 0, 0);
    }
    set_type_and_clear(&mut adrs, ROOT);
    let ctx = hash_ctx.add_to_ctx(&adrs).add_to_ctx(&pk_sf).add_to_ctx(&pk_sl);
    let pk_root = finalize_node(h, &ctx);
    out_sk.seed = sk_seed;
    out_sk.prf = sk_prf;
    out_sk.sf = pk_sf;
    out_sk.sl = pk_sl;
    out_sk.pk.seed = pk_seed;
    out_sk.pk.root = pk_root;
    out_pk.seed = pk_seed;
    out_pk.root = pk_root;
    out_state.q = 0;
    out_state.valid = false;
}

#[verifier::external_type_specification]
#[verifier::external_body]
pub struct ExGetrandomError(GetrandomError);

/// Fills `buffer` from the operating system's random source through
/// `getrandom::getrandom`. Claimed: the buffer keeps its length, and an
/// empty buffer succeeds at once (as the function's documentation says);
/// nothing is claimed of the bytes or of when a non-empty request fails,
/// which depend on the machine.
#[verifier::external_body]
fn os_random(buffer: &mut [u8]) -> (r: Result<(), GetrandomError>)
    ensures
        final(buffer)@.len() == old(buffer)@.len(),
        old(buffer)@.len() == 0 ==> r is Ok,
{
    getrandom::getrandom(buffer)
}

/// Fill `buffer` with cryptographically secure random bytes.
pub fn generate_random_bytes(buffer: &mut [u8]) -> (r: Result<(), Error>)
    ensures
        final(buffer)@.len() == old(buffer)@.len(),
        r matches Err(e) ==> e == Error::Random,
        old(buffer)@.len() == 0 ==> r is Ok,
{
    match os_random(buffer) {
        Ok(()) => Ok(()),
        Err(_) => Err(Error::Random),
    }
}

/// Generate a fresh key pair and a state valid for signing, from 48 bytes of
/// OS randomness.
pub fn key_gen<P: Params, H: Fn(&[u8]) -> [u8; 32]>(
    h: &H,
    out_pk: &mut PublicKey,
    out_sk: &mut SecretKey,
    out_state: &mut State,
) -> (r: Result<(), Error>)
    requires
        is_hash_fn(*h),
    ensures
        match r {
            Ok(()) => {
                &&& exists|seed: Seq<u8>|
                    seed.len() == 48 && #[trigger] keys_from_seed(
                        *h,
                        P::spec_params(),
                        seed,
                        *final(out_pk),
                        *final(out_sk),
                    )
                &&& final(out_state).q == 0
                &&& final(out_state).valid
            },
            Err(e) => {
                &&& e == Error::Random
                &&& *final(out_pk) == *old(out_pk)
                &&& *final(out_sk) == *old(out_sk)
                &&& *final(out_state) == *old(out_state)
            },
        },
{
    let mut seed = [0u8; 48];
    generate_random_bytes(&mut seed)?;
    restore::<P, H>(h, &seed, out_pk, out_sk, out_state);
    out_state.valid = true;
    Ok(())
}

/// The stateful signature of `message` with signature number `q`:
/// `sl ‖` UXMSS signature body.
pub open spec fn sign_stateful_spec<H: Fn(&[u8]) -> [u8; 32]>(
    h: H,
    p: ParamSet,
    message: Seq<u8>,
    sk: SecretKey,
    q: u32,
) -> Option<Seq<u8>> {
    match uxmss_sign_spec(
        h,
        p,
        message,
        sk.seed@,
        sk.prf@,
        sk.pk.seed@,
        sk.pk.root@,
        base_ctx_spec(sk.pk.seed@),
        q,
    ) {
        None => None,
        Some(body) => Some(sk.sl@ + body),
    }
}

/// Produce a stateful signature `sl ‖ WOTS+C signature ‖ min(q, hsf)` path
/// nodes for the next signature number `q = state.q + 1`; the state advances

/// One stateful signing call on `state`: its result and the state after it.
pub open spec fn sf_step<H: Fn(&[u8]) -> [u8; 32]>(
    h: H,
    p: ParamSet,
    message: Seq<u8>,
    sk: SecretKey,
    state: State,
) -> (Result<Seq<u8>, Error>, State) {
    if !state.valid {
        (Err(Error::InvalidState), state)
    } else if state.q > p.hsf {
        (Err(Error::InvalidSignatureNumber), state)
    } else {
        match sign_stateful_spec(h, p, message, sk, (state.q + 1) as u32) {
            Some(sig) => (Ok(sig), State { q: (state.q + 1) as u32, valid: true }),
            None => (Err(Error::WotsGrindFailed), state),
        }
    }
}

/// The state after stateful signing calls for `msgs`, in turn, from `state`.
pub open spec fn sf_run<H: Fn(&[u8]) -> [u8; 32]>(
    h: H,
    p: ParamSet,
    sk: SecretKey,
    state: State,
    msgs: Seq<Seq<u8>>,
) -> State
    decreases msgs.len(),
{
    if msgs.len() == 0 {
        state
    } else {
        sf_step(h, p, msgs.last(), sk, sf_run(h, p, sk, state, msgs.drop_last())).1
    }
}

/// The result of call `i` among stateful signing calls for `msgs` from
/// `state`.
pub open spec fn sf_result<H: Fn(&[u8]) -> [u8; 32]>(
    h: H,
    p: ParamSet,
    sk: SecretKey,
    state: State,
    msgs: Seq<Seq<u8>>,
    i: int,
) -> Result<Seq<u8>, Error> {
    sf_step(h, p, msgs[i], sk, sf_run(h, p, sk, state, msgs.take(i))).0
}

/// Calls from a fresh state never leave it invalid or past `hsf + 1`, and
/// its counter is the number of stateful signatures made so far.
proof fn lemma_sf_run_bound<H: Fn(&[u8]) -> [u8; 32]>(
    h: H,
    p: ParamSet,
    sk: SecretKey,
    msgs: Seq<Seq<u8>>,
)
    requires
        p.wf(),
    ensures
        sf_run(h, p, sk, State { q: 0, valid: true }, msgs).valid,
        sf_run(h, p, sk, State { q: 0, valid: true }, msgs).q <= p.hsf + 1,
    decreases msgs.len(),
{
    if msgs.len() > 0 {
        lemma_sf_run_bound(h, p, sk, msgs.drop_last());
    }
}

proof fn lemma_sf_run_prefix<H: Fn(&[u8]) -> [u8; 32]>(
    h: H,
    p: ParamSet,
    sk: SecretKey,
    msgs: Seq<Seq<u8>>,
    i: int,
)
    requires
        0 <= i < msgs.len(),
    ensures
        sf_run(h, p, sk, State { q: 0, valid: true }, msgs.take(i + 1)) == sf_step(
            h,
            p,
            msgs[i],
            sk,
            sf_run(h, p, sk, State { q: 0, valid: true }, msgs.take(i)),
        ).1,
{
    assert(msgs.take(i + 1).drop_last() =~= msgs.take(i));
    assert(msgs.take(i + 1).last() == msgs[i]);
}

proof fn lemma_sf_run_monotone<H: Fn(&[u8]) -> [u8; 32]>(
    h: H,
    p: ParamSet,
    sk: SecretKey,
    msgs: Seq<Seq<u8>>,
    i: int,
    j: int,
)
    requires
        p.wf(),
        0 <= i <= j <= msgs.len(),
    ensures
        sf_run(h, p, sk, State { q: 0, valid: true }, msgs.take(i)).q <= sf_run(
            h,
            p,
            sk,
            State { q: 0, valid: true },
            msgs.take(j),
        ).q,
    decreases j - i,
{
    if i < j {
        lemma_sf_run_monotone(h, p, sk, msgs, i, j - 1);
        lemma_sf_run_prefix(h, p, sk, msgs, j - 1);
        lemma_sf_run_bound(h, p, sk, msgs.take(j - 1));
    }
}

/// Stateful signing from a fresh valid state, over any sequence of calls:
/// every call that succeeds signs with the next signature number, so the
/// numbers of successful calls strictly increase and each leaf signs at
/// most once; the state stays valid with a counter of at most `hsf + 1`,
/// and once it reaches `hsf + 1` every further call is refused with
/// `InvalidSignatureNumber` and leaves the state alone.
pub proof fn lemma_sign_stateful_sequence<H: Fn(&[u8]) -> [u8; 32]>(
    h: H,
    p: ParamSet,
    sk: SecretKey,
    msgs: Seq<Seq<u8>>,
)
    requires
        p.wf(),
    ensures
        ({
            let st0 = State { q: 0, valid: true };
            &&& sf_run(h, p, sk, st0, msgs).valid
            &&& sf_run(h, p, sk, st0, msgs).q <= p.hsf + 1
            &&& forall|i: int|
                #![trigger sf_result(h, p, sk, st0, msgs, i)]
                0 <= i < msgs.len() ==> {
                    let before = sf_run(h, p, sk, st0, msgs.take(i));
                    let after = sf_run(h, p, sk, st0, msgs.take(i + 1));
                    &&& sf_result(h, p, sk, st0, msgs, i) matches Ok(sig) ==> Some(sig) == sign_stateful_spec(
                        h,
                        p,
                        msgs[i],
                        sk,
                        (before.q + 1) as u32,
                    ) && after.q == before.q + 1
                    &&& sf_result(h, p, sk, st0, msgs, i) is Err ==> after == before
                    &&& before.q == p.hsf + 1 ==> sf_result(h, p, sk, st0, msgs, i) == Err::<
                        Seq<u8>,
                        Error,
                    >(Error::InvalidSignatureNumber)
                }
            &&& forall|i: int, j: int|
                0 <= i < j < msgs.len() && sf_result(h, p, sk, st0, msgs, i) is Ok && sf_result(
                    h,
                    p,
                    sk,
                    st0,
                    msgs,
                    j,
                ) is Ok ==> #[trigger] sf_run(h, p, sk, st0, msgs.take(i)).q < #[trigger] sf_run(
                    h,
                    p,
                    sk,
                    st0,
                    msgs.take(j),
                ).q
        }),
{
    let st0 = State { q: 0, valid: true };
    lemma_sf_run_bound(h, p, sk, msgs);
    assert forall|i: int|
        #![trigger sf_result(h, p, sk, st0, msgs, i)]
        0 <= i < msgs.len() implies {
        let before = sf_run(h, p, sk, st0, msgs.take(i));
        let after = sf_run(h, p, sk, st0, msgs.take(i + 1));
        &&& sf_result(h, p, sk, st0, msgs, i) matches Ok(sig) ==> Some(sig) == sign_stateful_spec(
            h,
            p,
            msgs[i],
            sk,
            (before.q + 1) as u32,
        ) && after.q == before.q + 1
        &&& sf_result(h, p, sk, st0, msgs, i) is Err ==> after == before
        &&& before.q == p.hsf + 1 ==> sf_result(h, p, sk, st0, msgs, i) == Err::<Seq<u8>, Error>(
            Error::InvalidSignatureNumber,
        )
    } by {
        lemma_sf_run_prefix(h, p, sk, msgs, i);
        lemma_sf_run_bound(h, p, sk, msgs.take(i));
    }
    assert forall|i: int, j: int|
        0 <= i < j < msgs.len() && sf_result(h, p, sk, st0, msgs, i) is Ok && sf_result(
            h,
            p,
            sk,
            st0,
            msgs,
            j,
        ) is Ok implies #[trigger] sf_run(h, p, sk, st0, msgs.take(i)).q < #[trigger] sf_run(
        h,
        p,
        sk,
        st0,
        msgs.take(j),
    ).q by {
        lemma_sf_run_prefix(h, p, sk, msgs, i);
        lemma_sf_run_bound(h, p, sk, msgs.take(i));
        lemma_sf_run_monotone(h, p, sk, msgs, i + 1, j);
    }
}

/// only when a signature is produced.
pub fn sign_stateful<P: Params, H: Fn(&[u8]) -> [u8; 32]>(
    h: &H,
    message: &[u8],
    sk: &mut SecretKey,
    state: &mut State,
) -> (res: Result<Vec<u8>, Error>)
    requires
        is_hash_fn(*h),
    ensures
        *final(sk) == *old(sk),
        !old(state).valid ==> res == Err::<Vec<u8>, Error>(Error::InvalidState) && *final(state)
            == *old(state),
        old(state).valid && old(state).q > P::spec_params().hsf ==> res == Err::<Vec<u8>, Error>(
            Error::InvalidSignatureNumber,
        ) && *final(state) == *old(state),
        old(state).valid && old(state).q <= P::spec_params().hsf ==> {
            let spec = sign_stateful_spec(
                *h,
                P::spec_params(),
                message@,
                *old(sk),
                (old(state).q + 1) as u32,
            );
            match res {
                Ok(sig) => spec == Some(sig@) && final(state).q == old(state).q + 1
                    && final(state).valid,
                Err(e) => e == Error::WotsGrindFailed && spec is None && *final(state)
                    == *old(state),
            }
        },
        sf_step(*h, P::spec_params(), message@, *old(sk), *old(state)) == (
            match res {
                Ok(sig) => Ok::<Seq<u8>, Error>(sig@),
                Err(e) => Err::<Seq<u8>, Error>(e),
            },
            *final(state),
        ),
{
    let p = P::params();
    if !state.valid {
        return Err(Error::InvalidState);
    }
    if state.q as usize > p.hsf {
        return Err(Error::InvalidSignatureNumber);
    }
    let q = state.q + 1;
    let mut adrs: Adrs = [0u8; 32];
    let hash_ctx = base_ctx(&sk.pk.seed);
    let uxmss_sig = match uxmss_sign::<P, H>(
        h,
        message,
        &sk.seed,
        &sk.prf,
        &sk.pk.seed,
        &sk.pk.root,
        &hash_ctx,
        &mut adrs,
        q,
    ) {
        Ok(s) => s,
        Err(e) => {
            return Err(Error::from(e));
        },
    };
    state.q = q;
    state.valid = true;
    let mut sig: Vec<u8> = Vec::new();
    crate::hash::append_bytes(&mut sig, &sk.sl);
    crate::hash::append_bytes(&mut sig, uxmss_sig.as_slice());
    Ok(sig)
}

/// Whether two 16-byte nodes are equal.
pub fn nodes_equal(a: &[u8; 16], b: &[u8; 16]) -> (r: bool)
    ensures
        r == (a@ == b@),
{
    let mut i: usize = 0;
    while i < 16
        invariant
            0 <= i <= 16,
            forall|j: int| 0 <= j < i ==> a@[j] == b@[j],
        decreases 16 - i,
    {
        if a[i] != b[i] {
            return false;
        }
        i += 1;
    }
    assert(a@ =~= b@);
    true
}

/// Whether the stateful signature `sig` (`sl ‖` body) verifies as signature
/// number `q`: the body gives a stateful root whose compression with `sl` is
/// the public root.
pub open spec fn sf_attempt<H: Fn(&[u8]) -> [u8; 32]>(
    h: H,
    p: ParamSet,
    message: Seq<u8>,
    sig: Seq<u8>,
    pk: PublicKey,
    q: u32,
) -> bool {
    let body = sig.subrange(16, sig.len() as int);
    let wl = p.spec_wots_sign_len();
    match uxmss_pk_from_sig_spec(
        h,
        p,
        body.subrange(0, wl),
        body.subrange(wl, body.len() as int),
        message,
        pk.root@,
        base_ctx_spec(pk.seed@),
        q,
    ) {
        None => false,
        Some(sf) => root_spec(h, pk.seed@, sf, sig.subrange(0, 16)) == pk.root@,
    }
}

/// Whether `sig` is a valid stateful signature of `message` under `pk`: its
/// length gives `1 <= q <= hsf` path nodes and the signature verifies as
/// signature number `q`, or, for `hsf` nodes, as `hsf` or `hsf + 1`.
pub open spec fn verify_stateful_spec<H: Fn(&[u8]) -> [u8; 32]>(
    h: H,
    p: ParamSet,
    message: Seq<u8>,
    sig: Seq<u8>,
    pk: PublicKey,
) -> bool {
    let wl = p.spec_wots_sign_len();
    if sig.len() < N + wl {
        false
    } else {
        let auth_len = sig.len() - N - wl;
        if auth_len % 16 != 0 {
            false
        } else {
            let q_raw = (auth_len / 16) as u32;
            if q_raw < 1 || q_raw > p.hsf {
                false
            } else if q_raw == p.hsf {
                sf_attempt(h, p, message, sig, pk, q_raw) || sf_attempt(
                    h,
                    p,
                    message,
                    sig,
                    pk,
                    (p.hsf + 1) as u32,
                )
            } else {
                sf_attempt(h, p, message, sig, pk, q_raw)
            }
        }
    }
}

fn stateful_attempt<P: Params, H: Fn(&[u8]) -> [u8; 32]>(
    h: &H,
    message: &[u8],
    sig: &[u8],
    pk: &PublicKey,
    hash_ctx: &Sha256Ctx,
    q: u32,
) -> (r: bool)
    requires
        is_hash_fn(*h),
        hash_ctx@ == base_ctx_spec(pk.seed@),
        q >= 1,
        sig@.len() >= N + P::spec_params().spec_wots_sign_len() + 16 * uxmss_steps(
            P::spec_params().hsf as int,
            q as int,
        ),
    ensures
        r == sf_attempt(*h, P::spec_params(), message@, sig@, *pk, q),
{
    let p = P::params();
    let mut adrs: Adrs = [0u8; 32];
    let wl = p.wots_sign_len();
    proof {
        p.lemma_sizes();
    }
    let sl = wots_c::read_node(sig, 0);
    let body = vstd::slice::slice_subrange(sig, N, sig.len());
    let wots_sig = vstd::slice::slice_subrange(body, 0, wl);
    let auth = vstd::slice::slice_subrange(body, wl, body.len());
    let sf = match uxmss_pk_from_sig::<P, H>(
        h,
        wots_sig,
        auth,
        message,
        &pk.root,
        hash_ctx,
        &mut adrs,
        q,
    ) {
        Ok(x) => x,
        Err(_) => {
            return false;
        },
    };
    let ghost a0 = adrs@;
    set_type_and_clear(&mut adrs, ROOT);
    proof {
        lemma_splice_tail(sf_prefix(), ROOT, 0, 0, 0, 0);
    }
    let ctx = hash_ctx.add_to_ctx(&adrs).add_to_ctx(&sf).add_to_ctx(&sl);
    let root = finalize_node(h, &ctx);
    nodes_equal(&root, &pk.root)
}

/// Verify a stateful signature; `false` on any malformed input.
pub fn verify_stateful<P: Params, H: Fn(&[u8]) -> [u8; 32]>(
    h: &H,
    message: &[u8],
    sig: &[u8],
    pk: &PublicKey,
) -> (r: bool)
    requires
        is_hash_fn(*h),
    ensures
        r == verify_stateful_spec(*h, P::spec_params(), message@, sig@, *pk),
{
    let p = P::params();
    let wl = p.wots_sign_len();
    proof {
        p.lemma_sizes();
    }
    if sig.len() < N + wl {
        return false;
    }
    let auth_len = sig.len() - N - wl;
    if auth_len % N != 0 {
        return false;
    }
    let q_raw = (auth_len / N) as u32;
    if q_raw < 1 || q_raw as usize > p.hsf {
        return false;
    }
    let last_sf_level = q_raw as usize == p.hsf;
    let hash_ctx = base_ctx(&pk.seed);
    if stateful_attempt::<P, H>(h, message, sig, pk, &hash_ctx, q_raw) {
        return true;
    }
    if last_sf_level {
        return stateful_attempt::<P, H>(h, message, sig, pk, &hash_ctx, (p.hsf + 1) as u32);
    }
    false
}

/// A stateful signature made with a key restored from any seed verifies under
/// the matching public key, for every signature number `1 <= q <= hsf + 1`.
pub proof fn lemma_stateful_sign_verify<H: Fn(&[u8]) -> [u8; 32]>(
    h: H,
    p: ParamSet,
    seed: Seq<u8>,
    pk: PublicKey,
    sk: SecretKey,
    message: Seq<u8>,
    q: u32,
)
    requires
        p.wf(),
        seed.len() == 48,
        keys_from_seed(h, p, seed, pk, sk),
        1 <= q <= p.hsf + 1,
        sign_stateful_spec(h, p, message, sk, q) is Some,
    ensures
        verify_stateful_spec(h, p, message, sign_stateful_spec(h, p, message, sk, q)->0, pk),
        sign_stateful_spec(h, p, message, sk, q)->0.len() == N + p.spec_wots_sign_len() + 16
            * uxmss_steps(p.hsf as int, q as int),
{
    let ctx = base_ctx_spec(sk.pk.seed@);
    let body = uxmss_sign_spec(h, p, message, sk.seed@, sk.prf@, sk.pk.seed@, sk.pk.root@, ctx, q)->0;
    crate::uxmss::lemma_uxmss_sign_verify(
        h,
        p,
        message,
        sk.seed@,
        sk.prf@,
        sk.pk.seed@,
        sk.pk.root@,
        ctx,
        q,
    );
    let sig = sk.sl@ + body;
    assert(sig.subrange(16, sig.len() as int) =~= body);
    assert(sig.subrange(0, 16) =~= sk.sl@);
    p.lemma_sizes();
    let steps = uxmss_steps(p.hsf as int, q as int);
    let wl = p.spec_wots_sign_len();
    assert(sig.len() - N - wl == 16 * steps);
    assert((16 * steps) % 16 == 0 && (16 * steps) / 16 == steps) by (nonlinear_arith);
    assert(sf_attempt(h, p, message, sig, pk, q));
}


// ----------------------------------------------------------------------------
// Stateless signatures
// ----------------------------------------------------------------------------

/// The hypertree position carried by the XOF output: the integer whose
/// binary digits are its `hsl` bits from bit `xof_offset_bits` on.
pub open spec fn ht_position(p: ParamSet, xof: Seq<u8>) -> int {
    pors_fp::bits_value(xof, p.spec_xof_offset_bits(), p.hsl as nat)
}

/// The position `v` without its lowest `layer` digits of `h_prime` bits.
pub open spec fn ht_rest(p: ParamSet, v: int, layer: nat) -> int
    decreases layer,
{
    if layer == 0 {
        v
    } else {
        ht_rest(p, v, (layer - 1) as nat) / p2(p.spec_h_prime() as nat)
    }
}

/// The leaf used at hypertree layer `layer`: digit `layer` of `v`.
pub open spec fn ht_leaf(p: ParamSet, v: int, layer: nat) -> u32 {
    (ht_rest(p, v, layer) % p2(p.spec_h_prime() as nat)) as u32
}

/// The tree used at hypertree layer `layer`: the digits of `v` above `layer`.
pub open spec fn ht_tree(p: ParamSet, v: int, layer: nat) -> u32 {
    ht_rest(p, v, layer + 1) as u32
}

/// `tree` and `leaf` hold, for each of the `d` layers, its tree and leaf
/// index under the position `v`.
pub open spec fn layer_indices(p: ParamSet, v: int, tree: Seq<u32>, leaf: Seq<u32>) -> bool {
    &&& tree.len() >= p.d
    &&& leaf.len() >= p.d
    &&& forall|l: int| 0 <= l < p.d ==> #[trigger] tree[l] == ht_tree(p, v, l as nat)
    &&& forall|l: int| 0 <= l < p.d ==> #[trigger] leaf[l] == ht_leaf(p, v, l as nat)
}

proof fn lemma_digit_step(hp: u32, x: u32)
    requires
        hp == 12 || hp == 8,
    ensures
        (x & (((1u32 << hp) - 1) as u32)) as int == x as int % p2(hp as nat),
        (x >> hp) as int == x as int / p2(hp as nat),
        p2(hp as nat) > 0,
{
    vstd::arithmetic::power2::lemma2_to64();
    if hp == 12 {
        assert((x & (((1u32 << 12u32) - 1) as u32)) == x % 4096) by (bit_vector);
        assert((x >> 12u32) == x / 4096) by (bit_vector);
    } else {
        assert((x & (((1u32 << 8u32) - 1) as u32)) == x % 256) by (bit_vector);
        assert((x >> 8u32) == x / 256) by (bit_vector);
    }
}

/// Split the hypertree position read from `xof` into the tree and leaf
/// index of each of the `d` layers, lowest layer first; the top layer's
/// tree index is 0.
pub fn parse_idx<P: Params>(xof: &[u8], tree_idx: &mut [u32], leaf_idx: &mut [u32])
    requires
        8 * xof@.len() >= P::spec_params().spec_xof_offset_bits() + P::spec_params().hsl,
        old(tree_idx)@.len() >= P::spec_params().d,
        old(leaf_idx)@.len() >= P::spec_params().d,
    ensures
        ({
            let p = P::spec_params();
            let v = ht_position(p, xof@);
            &&& final(tree_idx)@.len() == old(tree_idx)@.len()
            &&& final(leaf_idx)@.len() == old(leaf_idx)@.len()
            &&& layer_indices(p, v, final(tree_idx)@, final(leaf_idx)@)
            &&& final(tree_idx)@[p.d - 1] == 0
            &&& forall|l: int|
                p.d <= l < old(tree_idx)@.len() ==> #[trigger] final(tree_idx)@[l] == old(
                    tree_idx,
                )@[l]
            &&& forall|l: int|
                p.d <= l < old(leaf_idx)@.len() ==> #[trigger] final(leaf_idx)@[l] == old(
                    leaf_idx,
                )@[l]
        }),
{
    let p = P::params();
    proof {
        p.lemma_layout();
    }
    let off = p.xof_offset_bits() as u32;
    let hp = p.h_prime() as u32;
    let mut idx = pors_fp::extract_bits(xof, off, p.hsl as u32);
    let ghost v = ht_position(p, xof@);
    assert(1u32 << hp >= 1) by (bit_vector)
        requires
            hp == 12 || hp == 8,
    ;
    let mask: u32 = (1u32 << hp) - 1;
    let mut layer: usize = 0;
    while layer < p.d
        invariant
            p == P::spec_params(),
            p.wf(),
            hp as int == p.spec_h_prime(),
            hp == 12 || hp == 8,
            mask == ((1u32 << hp) - 1) as u32,
            0 <= layer <= p.d,
            idx as int == ht_rest(p, v, layer as nat),
            tree_idx@.len() == old(tree_idx)@.len(),
            leaf_idx@.len() == old(leaf_idx)@.len(),
            old(tree_idx)@.len() >= p.d,
            old(leaf_idx)@.len() >= p.d,
            forall|l: int| 0 <= l < layer ==> #[trigger] tree_idx@[l] == ht_tree(p, v, l as nat),
            forall|l: int| 0 <= l < layer ==> #[trigger] leaf_idx@[l] == ht_leaf(p, v, l as nat),
            forall|l: int|
                layer <= l < old(tree_idx)@.len() ==> #[trigger] tree_idx@[l] == old(tree_idx)@[l],
            forall|l: int|
                layer <= l < old(leaf_idx)@.len() ==> #[trigger] leaf_idx@[l] == old(leaf_idx)@[l],
        decreases p.d - layer,
    {
        proof {
            lemma_digit_step(hp, idx);
        }
        let leaf = idx & mask;
        leaf_idx[layer] = leaf;
        idx = idx >> hp;
        tree_idx[layer] = idx;
        assert(ht_rest(p, v, (layer + 1) as nat) == ht_rest(p, v, layer as nat) / p2(hp as nat));
        assert(tree_idx@[layer as int] == ht_tree(p, v, layer as nat));
        assert(leaf_idx@[layer as int] == ht_leaf(p, v, layer as nat));
        layer += 1;
    }
    proof {
        pors_fp::lemma_extract_bits_value(xof@, p.spec_xof_offset_bits(), p.hsl as nat);
        lemma_ht_rest_bound(p, v, p.d as nat);
        assert(p.spec_h_prime() * (p.d - p.d) == 0);
        assert(p2(0) == 1) by {
            vstd::arithmetic::power2::lemma2_to64();
        }
        assert(tree_idx@[p.d - 1] == ht_tree(p, v, (p.d - 1) as nat));
    }
}


/// The hypertree signature from layer `layer` up: at each layer the XMSS
/// signature of `msg` by leaf `ht_leaf` of tree `ht_tree`, whose root is the
/// message signed at the next layer.
pub open spec fn ht_sign_spec<H: Fn(&[u8]) -> [u8; 32]>(
    h: H,
    p: ParamSet,
    sk: SecretKey,
    ctx: Seq<u8>,
    v: int,
    msg: Seq<u8>,
    layer: nat,
) -> Option<Seq<u8>>
    decreases p.d - layer,
{
    if layer >= p.d {
        Some(Seq::empty())
    } else {
        let pre = adrs_prefix(layer as u32, 0, ht_tree(p, v, layer) as u64);
        let hp = p.spec_h_prime() as nat;
        match xmss_sign_spec(
            h,
            p,
            msg,
            sk.seed@,
            sk.prf@,
            sk.pk.seed@,
            sk.pk.root@,
            ctx,
            pre,
            hp,
            ht_leaf(p, v, layer),
        ) {
            None => None,
            Some(x) => match ht_sign_spec(
                h,
                p,
                sk,
                ctx,
                v,
                xmss_node(h, p, ctx, pre, sk.seed@, hp, 0),
                layer + 1,
            ) {
                None => None,
                Some(rest) => Some(x + rest),
            },
        }
    }
}

/// The first two XOF blocks of the digest `dg`.
pub open spec fn xof_of<H: Fn(&[u8]) -> [u8; 32]>(h: H, ctx: Seq<u8>, dg: Seq<u8>) -> Seq<u8> {
    let c = xof_input(ctx, zero_prefix(), dg);
    xof_block(h, c, 0) + xof_block(h, c, 1)
}

/// The stateless signature of `message`: `sf ‖` PORS+FP signature `‖` the
/// hypertree signature of the PORS+FP public key, on the hypertree position
/// that the PORS+FP digest selects.
pub open spec fn sign_stateless_spec<H: Fn(&[u8]) -> [u8; 32]>(
    h: H,
    p: ParamSet,
    message: Seq<u8>,
    sk: SecretKey,
) -> Result<Seq<u8>, Error> {
    let ctx = base_ctx_spec(sk.pk.seed@);
    match pors_sign_spec(
        h,
        p,
        ctx,
        zero_prefix(),
        message,
        sk.seed@,
        sk.prf@,
        sk.pk.seed@,
        sk.pk.root@,
        None,
    ) {
        None => Err(Error::PorsGrindFailed),
        Some((psig, dg)) => {
            let v = ht_position(p, xof_of(h, ctx, dg));
            let indices = pors_indices(h, p, ctx, dg);
            match pors_pk_from_sig_spec(h, p, psig, indices, ctx, adrs_prefix(0, 0, v as u64)) {
                None => Err(Error::PorsGrindFailed),
                Some(ppk) => match ht_sign_spec(h, p, sk, ctx, v, ppk, 0) {
                    None => Err(Error::WotsGrindFailed),
                    Some(ht) => Ok(sk.sf@ + psig + ht),
                },
            }
        },
    }
}

/// The stateless signature of `message` made with `cache` standing for the
/// PORS+FP checkpoint roots; with the key's own roots it is
/// [`sign_stateless_spec`] (see [`lemma_prepared_sign`]).
pub open spec fn sign_stateless_cached_spec<H: Fn(&[u8]) -> [u8; 32]>(
    h: H,
    p: ParamSet,
    message: Seq<u8>,
    sk: SecretKey,
    cache: Seq<u8>,
) -> Result<Seq<u8>, Error> {
    let ctx = base_ctx_spec(sk.pk.seed@);
    match pors_sign_spec(
        h,
        p,
        ctx,
        zero_prefix(),
        message,
        sk.seed@,
        sk.prf@,
        sk.pk.seed@,
        sk.pk.root@,
        Some(cache),
    ) {
        None => Err(Error::PorsGrindFailed),
        Some((psig, dg)) => {
            let v = ht_position(p, xof_of(h, ctx, dg));
            let indices = pors_indices(h, p, ctx, dg);
            match pors_pk_from_sig_spec(h, p, psig, indices, ctx, adrs_prefix(0, 0, v as u64)) {
                None => Err(Error::PorsGrindFailed),
                Some(ppk) => match ht_sign_spec(h, p, sk, ctx, v, ppk, 0) {
                    None => Err(Error::WotsGrindFailed),
                    Some(ht) => Ok(sk.sf@ + psig + ht),
                },
            }
        },
    }
}

/// The PORS+FP checkpoint roots of a secret key: what preparing it keeps.
pub open spec fn prepared_roots<H: Fn(&[u8]) -> [u8; 32]>(h: H, p: ParamSet, sk: SecretKey) -> Seq<u8> {
    pors_fp::pors_checkpoint_spec(h, p, base_ctx_spec(sk.pk.seed@), zero_prefix(), sk.seed@)
}

/// Signing with the key's own prepared checkpoint roots gives the same
/// result, byte for byte, as signing without them.
pub proof fn lemma_prepared_sign<H: Fn(&[u8]) -> [u8; 32]>(
    h: H,
    p: ParamSet,
    message: Seq<u8>,
    sk: SecretKey,
)
    requires
        p.wf(),
    ensures
        sign_stateless_cached_spec(h, p, message, sk, prepared_roots(h, p, sk)) == sign_stateless_spec(
            h,
            p,
            message,
            sk,
        ),
{
    pors_fp::lemma_pors_sign_cached(
        h,
        p,
        base_ctx_spec(sk.pk.seed@),
        zero_prefix(),
        message,
        sk.seed@,
        sk.prf@,
        sk.pk.seed@,
        sk.pk.root@,
    );
}

/// The PORS+FP checkpoint roots of one key pair, computed once so that
/// stateless signing need not rebuild the tree below them. They depend on
/// the key's seeds alone; a prepared key of another key pair gives wrong
/// signatures, not an error.
pub struct PreparedStatelessKey<P: Params> {
    roots: Vec<u8>,
    params: core::marker::PhantomData<P>,
}

/// The parameter-set byte of a serialized prepared key: 0 for SHRINCS-L,
/// 1 for SHRINCS-B, 2 for SHRINCS-B32.
pub open spec fn param_tag(p: ParamSet) -> u8 {
    if p.w == 4 {
        0
    } else if p.hsl == 24 {
        1
    } else {
        2
    }
}

/// The header of a serialized prepared key: the magic bytes `SHPK` and the
/// parameter-set byte.
pub open spec fn prepared_header(p: ParamSet) -> Seq<u8> {
    seq![0x53u8, 0x48u8, 0x50u8, 0x4Bu8, param_tag(p)]
}

/// The number of bytes of the checkpoint roots: 16 for each of the
/// `2^(b - checkpoint)` checkpoint subtrees.
pub open spec fn prepared_roots_len(p: ParamSet) -> int {
    16 * p2((p.b - p.pors_checkpoint) as nat)
}

/// `bytes` is a serialized prepared key of the parameter set `p`: the
/// header, then the roots, and nothing else.
pub open spec fn prepared_bytes_ok(p: ParamSet, bytes: Seq<u8>) -> bool {
    &&& bytes.len() == 5 + prepared_roots_len(p)
    &&& bytes.subrange(0, 5) == prepared_header(p)
}

/// The parameter-set byte of `P`.
fn param_tag_of<P: Params>() -> (r: u8)
    ensures
        r == param_tag(P::spec_params()),
{
    let p = P::params();
    if p.w == 4 {
        0
    } else if p.hsl == 24 {
        1
    } else {
        2
    }
}

impl<P: Params> PreparedStatelessKey<P> {
    #[verifier::type_invariant]
    spec fn holds_all_roots(self) -> bool {
        self.roots@.len() == prepared_roots_len(P::spec_params())
    }

    /// The prepared checkpoint roots, 16 bytes each, left to right.
    pub closed spec fn roots(self) -> Seq<u8> {
        self.roots@
    }

    /// The number of bytes of the roots alone.
    fn roots_len() -> (r: usize)
        ensures
            r == prepared_roots_len(P::spec_params()),
            r == 8192,
    {
        let p = P::params();
        proof {
            p.lemma_layout();
            vstd::arithmetic::power2::lemma2_to64();
        }
        let k = p.b - p.pors_checkpoint;
        assert(1usize << 9usize == 512usize) by (bit_vector);
        N * (1usize << k)
    }

    /// The length of a serialized prepared key: the 5-byte header and one
    /// 16-byte root for each of the `2^(b - checkpoint)` checkpoint subtrees.
    pub fn serialized_len() -> (r: usize)
        ensures
            r == 5 + prepared_roots_len(P::spec_params()),
    {
        5 + Self::roots_len()
    }

    /// The serialized prepared key: the header, then the roots.
    pub fn to_bytes(&self) -> (r: Vec<u8>)
        ensures
            r@ == prepared_header(P::spec_params()) + self.roots(),
            prepared_bytes_ok(P::spec_params(), r@),
    {
        proof {
            use_type_invariant(self);
        }
        let mut v: Vec<u8> = Vec::new();
        v.push(0x53u8);
        v.push(0x48u8);
        v.push(0x50u8);
        v.push(0x4Bu8);
        v.push(param_tag_of::<P>());
        crate::hash::append_bytes(&mut v, self.roots.as_slice());
        assert(v@ =~= prepared_header(P::spec_params()) + self.roots());
        assert(v@.subrange(0, 5) =~= prepared_header(P::spec_params()));
        v
    }

    /// Read a serialized prepared key; `None` unless `bytes` holds the header
    /// of this parameter set followed by exactly the roots.
    pub fn from_bytes(bytes: &[u8]) -> (r: Option<Self>)
        ensures
            r is Some <==> prepared_bytes_ok(P::spec_params(), bytes@),
            r matches Some(k) ==> k.roots() == bytes@.subrange(5, bytes@.len() as int),
    {
        let n = Self::roots_len();
        if bytes.len() != 5 + n {
            return None;
        }
        let tag = param_tag_of::<P>();
        if bytes[0] != 0x53u8 || bytes[1] != 0x48u8 || bytes[2] != 0x50u8 || bytes[3] != 0x4Bu8
            || bytes[4] != tag {
            proof {
                let hd = prepared_header(P::spec_params());
                assert(bytes@.subrange(0, 5)[0] == bytes@[0]);
                assert(bytes@.subrange(0, 5)[1] == bytes@[1]);
                assert(bytes@.subrange(0, 5)[2] == bytes@[2]);
                assert(bytes@.subrange(0, 5)[3] == bytes@[3]);
                assert(bytes@.subrange(0, 5)[4] == bytes@[4]);
                assert(hd[0] == 0x53u8 && hd[1] == 0x48u8 && hd[2] == 0x50u8 && hd[3] == 0x4Bu8
                    && hd[4] == tag);
            }
            return None;
        }
        assert(bytes@.subrange(0, 5) =~= prepared_header(P::spec_params()));
        let rest = vstd::slice::slice_subrange(bytes, 5, 5 + n);
        let mut v: Vec<u8> = Vec::new();
        crate::hash::append_bytes(&mut v, rest);
        assert(v@ =~= bytes@.subrange(5, bytes@.len() as int));
        Some(PreparedStatelessKey { roots: v, params: core::marker::PhantomData })
    }
}

/// Prepare `sk` for stateless signing: compute its PORS+FP checkpoint roots.
pub fn sign_stateless_prepare<P: Params, H: Fn(&[u8]) -> [u8; 32]>(
    h: &H,
    sk: &SecretKey,
) -> (r: PreparedStatelessKey<P>)
    requires
        is_hash_fn(*h),
    ensures
        r.roots() == prepared_roots(*h, P::spec_params(), *sk),
{
    let hash_ctx = base_ctx(&sk.pk.seed);
    let roots = pors_fp::pors_checkpoint_roots::<P, H>(h, &sk.seed, &hash_ctx);
    PreparedStatelessKey { roots, params: core::marker::PhantomData }
}

/// Stateless signing with a prepared key. With the key's own prepared
/// roots the signature is byte for byte that of [`sign_stateless`].
pub fn sign_stateless_with_prepare<P: Params, H: Fn(&[u8]) -> [u8; 32]>(
    h: &H,
    message: &[u8],
    sk: &SecretKey,
    prepared: &PreparedStatelessKey<P>,
) -> (res: Result<Vec<u8>, Error>)
    requires
        is_hash_fn(*h),
    ensures
        ({
            let spec = sign_stateless_cached_spec(*h, P::spec_params(), message@, *sk, prepared.roots());
            match res {
                Ok(sig) => spec == Ok::<Seq<u8>, Error>(sig@),
                Err(e) => spec == Err::<Seq<u8>, Error>(e),
            }
        }),
        prepared.roots() == prepared_roots(*h, P::spec_params(), *sk) ==> match res {
            Ok(sig) => sign_stateless_spec(*h, P::spec_params(), message@, *sk) == Ok::<
                Seq<u8>,
                Error,
            >(sig@),
            Err(e) => sign_stateless_spec(*h, P::spec_params(), message@, *sk) == Err::<
                Seq<u8>,
                Error,
            >(e),
        },
{
    proof {
        use_type_invariant(prepared);
        P::lemma_params_wf();
        lemma_prepared_sign(*h, P::spec_params(), message@, *sk);
    }
    sign_stateless_from::<P, H>(h, message, sk, Some(prepared.roots.as_slice()))
}

/// A fresh vector of `n` zeros.
fn zero_u32s(n: usize) -> (v: Vec<u32>)
    ensures
        v@ == Seq::new(n as nat, |i: int| 0u32),
{
    let mut v: Vec<u32> = Vec::new();
    let mut i: usize = 0;
    while i < n
        invariant
            0 <= i <= n,
            v@ == Seq::new(i as nat, |j: int| 0u32),
        decreases n - i,
    {
        v.push(0);
        i += 1;
        assert(v@ =~= Seq::new(i as nat, |j: int| 0u32));
    }
    v
}

/// The position that the lowest layer's tree and leaf index put back
/// together.
proof fn lemma_layer0(p: ParamSet, v: int)
    requires
        p.wf(),
        0 <= v < 0x1_0000_0000,
    ensures
        ht_tree(p, v, 0) as int * p2(p.spec_h_prime() as nat) + ht_leaf(p, v, 0) as int == v,
        0 <= ht_rest(p, v, 1) <= v,
        ht_leaf(p, v, 0) as int == v % p2(p.spec_h_prime() as nat),
{
    p.lemma_sizes();
    let hp = p.spec_h_prime() as nat;
    vstd::arithmetic::power2::lemma2_to64();
    vstd::arithmetic::div_mod::lemma_fundamental_div_mod(v, p2(hp));
    vstd::arithmetic::div_mod::lemma_div_pos_is_pos(v, p2(hp));
    vstd::arithmetic::div_mod::lemma_div_is_ordered_by_denominator(v, 1, p2(hp));
    vstd::arithmetic::div_mod::lemma_mod_bound(v, p2(hp));
    assert(ht_rest(p, v, 0) == v);
    assert(ht_rest(p, v, 1) == v / p2(hp));
    vstd::arithmetic::mul::lemma_mul_is_commutative(v / p2(hp), p2(hp));
}

/// One layer of hypertree signing: after the XMSS signature `x` of `msg` at
/// `layer`, what is left to sign is the next layer, with the tree's root.
#[verifier::rlimit(50)]
proof fn lemma_ht_sign_step<H: Fn(&[u8]) -> [u8; 32]>(
    h: H,
    p: ParamSet,
    sk: SecretKey,
    ctx: Seq<u8>,
    v: int,
    msg: Seq<u8>,
    layer: nat,
    x: Option<Seq<u8>>,
    next_msg: Seq<u8>,
    done: Seq<u8>,
    full: Option<Seq<u8>>,
)
    requires
        layer < p.d,
        x == xmss_sign_spec(
            h,
            p,
            msg,
            sk.seed@,
            sk.prf@,
            sk.pk.seed@,
            sk.pk.root@,
            ctx,
            adrs_prefix(layer as u32, 0, ht_tree(p, v, layer) as u64),
            p.spec_h_prime() as nat,
            ht_leaf(p, v, layer),
        ),
        x is Some && layer + 1 < p.d ==> next_msg == xmss_node(
            h,
            p,
            ctx,
            adrs_prefix(layer as u32, 0, ht_tree(p, v, layer) as u64),
            sk.seed@,
            p.spec_h_prime() as nat,
            0,
        ),
        match ht_sign_spec(h, p, sk, ctx, v, msg, layer) {
            None => full is None,
            Some(rest) => full == Some(done + rest),
        },
    ensures
        x is None ==> full is None,
        x matches Some(xs) ==> match ht_sign_spec(h, p, sk, ctx, v, next_msg, layer + 1) {
            None => full is None,
            Some(rest) => full == Some(done + xs + rest),
        },
{
    let pre = adrs_prefix(layer as u32, 0, ht_tree(p, v, layer) as u64);
    let next = xmss_node(h, p, ctx, pre, sk.seed@, p.spec_h_prime() as nat, 0);
    if let Some(xs) = x {
        let r1 = ht_sign_spec(h, p, sk, ctx, v, next, layer + 1);
        if layer + 1 >= p.d {
            assert(ht_sign_spec(h, p, sk, ctx, v, next_msg, layer + 1) == r1);
        }
        if let Some(rest) = r1 {
            assert(done + (xs + rest) =~= done + xs + rest);
        }
    }
}

/// Sign `msg` with the hypertree, layer by layer from the lowest: each
/// layer's XMSS signature of the message by the leaf and tree of the
/// position `v`, then that tree's root as the next layer's message.
fn ht_sign<P: Params, H: Fn(&[u8]) -> [u8; 32]>(
    h: &H,
    msg0: &wots_c::Node,
    sk: &SecretKey,
    hash_ctx: &Sha256Ctx,
    adrs: &mut Adrs,
    tree_idx: &[u32],
    leaf_idx: &[u32],
    Ghost(v): Ghost<int>,
) -> (res: Result<Vec<u8>, wots_c::Error>)
    requires
        is_hash_fn(*h),
        hash_ctx@ == base_ctx_spec(sk.pk.seed@),
        layer_indices(P::spec_params(), v, tree_idx@, leaf_idx@),
    ensures
        ({
            let spec = ht_sign_spec(
                *h,
                P::spec_params(),
                *sk,
                base_ctx_spec(sk.pk.seed@),
                v,
                msg0@,
                0,
            );
            match res {
                Ok(ht) => spec == Some(ht@),
                Err(e) => e == wots_c::Error::GrindFailed && spec is None,
            }
        }),
{
    let p = P::params();
    proof {
        p.lemma_sizes();
    }
    let hp = p.h_prime() as u32;
    let ghost ctx = hash_ctx@;
    let ghost full = ht_sign_spec(*h, p, *sk, ctx, v, msg0@, 0);
    let mut ht: Vec<u8> = Vec::new();
    let mut msg: wots_c::Node = *msg0;
    let mut layer: usize = 0;
    assert(ht@ + full->0 =~= full->0);
    while layer < p.d
        invariant
            is_hash_fn(*h),
            p == P::spec_params(),
            p.wf(),
            hp as int == p.spec_h_prime(),
            hp == 12 || hp == 8,
            hash_ctx@ == ctx,
            0 <= layer <= p.d,
            layer_indices(p, v, tree_idx@, leaf_idx@),
            full == ht_sign_spec(*h, p, *sk, ctx, v, msg0@, 0),
            ctx == base_ctx_spec(sk.pk.seed@),
            match ht_sign_spec(*h, p, *sk, ctx, v, msg@, layer as nat) {
                None => full is None,
                Some(rest) => full == Some(ht@ + rest),
            },
        decreases p.d - layer,
    {
        let ghost a0 = adrs@;
        set_layer_address(adrs, layer as u32);
        set_tree_address(adrs, 0, tree_idx[layer] as u64);
        proof {
            lemma_layer_tree(a0, layer as u32, 0, tree_idx@[layer as int] as u64);
        }
        let ghost x = xmss_sign_spec(
            *h,
            p,
            msg@,
            sk.seed@,
            sk.prf@,
            sk.pk.seed@,
            sk.pk.root@,
            ctx,
            adrs_prefix(layer as u32, 0, ht_tree(p, v, layer as nat) as u64),
            p.spec_h_prime() as nat,
            ht_leaf(p, v, layer as nat),
        );
        let ghost old_ht = ht@;
        let ghost old_msg = msg@;
        assert(tree_idx@[layer as int] == ht_tree(p, v, layer as nat));
        assert(leaf_idx@[layer as int] == ht_leaf(p, v, layer as nat));
        assert(adrs@.subrange(0, 16) == adrs_prefix(layer as u32, 0, ht_tree(p, v, layer as nat) as u64));
        let res = xmss_sign::<P, H>(
            h,
            &msg,
            &sk.seed,
            &sk.prf,
            &sk.pk.seed,
            &sk.pk.root,
            hash_ctx,
            adrs,
            hp,
            leaf_idx[layer],
        );
        let xmss_sig = match res {
            Ok(x) => x,
            Err(e) => {
                proof {
                    lemma_ht_sign_step(*h, p, *sk, ctx, v, old_msg, layer as nat, x, old_msg, old_ht, full);
                }
                return Err(e);
            },
        };
        crate::hash::append_bytes(&mut ht, xmss_sig.as_slice());
        if layer + 1 < p.d {
            msg = xmss_root::<P, H>(h, &sk.seed, hash_ctx, adrs, hp);
        }
        proof {
            lemma_ht_sign_step(*h, p, *sk, ctx, v, old_msg, layer as nat, x, msg@, old_ht, full);
        }
        layer += 1;
    }
    proof {
        assert(ht_sign_spec(*h, p, *sk, ctx, v, msg@, layer as nat) == Some(Seq::<u8>::empty()));
        assert(ht@ + Seq::<u8>::empty() =~= ht@);
    }
    Ok(ht)
}

/// Produce a stateless signature: a PORS+FP signature of `message`, then the
/// hypertree signature of its public key at the position that the PORS+FP
/// digest selects, behind the stateful root `sf`.
pub fn sign_stateless<P: Params, H: Fn(&[u8]) -> [u8; 32]>(
    h: &H,
    message: &[u8],
    sk: &SecretKey,
) -> (res: Result<Vec<u8>, Error>)
    requires
        is_hash_fn(*h),
    ensures
        match res {
            Ok(sig) => sign_stateless_spec(*h, P::spec_params(), message@, *sk) == Ok::<
                Seq<u8>,
                Error,
            >(sig@),
            Err(e) => sign_stateless_spec(*h, P::spec_params(), message@, *sk) == Err::<
                Seq<u8>,
                Error,
            >(e),
        },
{
    sign_stateless_from::<P, H>(h, message, sk, None)
}

/// Stateless signing, with the PORS+FP checkpoint roots `cache` when given.
fn sign_stateless_from<P: Params, H: Fn(&[u8]) -> [u8; 32]>(
    h: &H,
    message: &[u8],
    sk: &SecretKey,
    cache: Option<&[u8]>,
) -> (res: Result<Vec<u8>, Error>)
    requires
        is_hash_fn(*h),
        cache matches Some(c) ==> c@.len() >= 16 * p2(
            (P::spec_params().b - P::spec_params().pors_checkpoint) as nat,
        ),
    ensures
        ({
            let spec = match cache {
                None => sign_stateless_spec(*h, P::spec_params(), message@, *sk),
                Some(c) => sign_stateless_cached_spec(*h, P::spec_params(), message@, *sk, c@),
            };
            match res {
                Ok(sig) => spec == Ok::<Seq<u8>, Error>(sig@),
                Err(e) => spec == Err::<Seq<u8>, Error>(e),
            }
        }),
{
    let p = P::params();
    proof {
        p.lemma_layout();
        p.lemma_sizes();
    }
    let ghost ctx = base_ctx_spec(sk.pk.seed@);
    let mut adrs: Adrs = [0u8; 32];
    assert(adrs@.subrange(0, 16) =~= zero_prefix());
    let hash_ctx = base_ctx(&sk.pk.seed);
    let signed = match cache {
        None => pors_fp::pors_sign::<P, H>(
            h,
            message,
            &sk.seed,
            &sk.prf,
            &sk.pk.seed,
            &sk.pk.root,
            &hash_ctx,
            &mut adrs,
        ),
        Some(c) => pors_fp::pors_sign_cached::<P, H>(
            h,
            message,
            &sk.seed,
            &sk.prf,
            &sk.pk.seed,
            &sk.pk.root,
            &hash_ctx,
            &mut adrs,
            c,
        ),
    };
    let (pors_sig, digest) = match signed {
        Ok(x) => x,
        Err(e) => {
            return Err(Error::from(e));
        },
    };
    let mut xof_buf = wots_c::zero_bytes(p.xof_block_idx() * 32);
    let indices = pors_fp::pors_msg_to_indices::<P, H>(
        h,
        &digest,
        &mut adrs,
        &hash_ctx,
        xof_buf.as_mut_slice(),
    );
    assert(xof_buf@ =~= xof_of(*h, ctx, digest@));
    let mut tree_idx = zero_u32s(p.d);
    let mut leaf_idx = zero_u32s(p.d);
    parse_idx::<P>(xof_buf.as_slice(), tree_idx.as_mut_slice(), leaf_idx.as_mut_slice());
    let ghost v = ht_position(p, xof_buf@);
    let hp = p.h_prime() as u32;
    proof {
        pors_fp::lemma_extract_bits_value(xof_buf@, p.spec_xof_offset_bits(), p.hsl as nat);
        vstd::arithmetic::power2::lemma2_to64();
        if p.hsl == 24 {
            vstd::arithmetic::power2::lemma_pow2_strictly_increases(24, 32);
        }
        assert(0 <= v < 0x1_0000_0000);
        lemma_layer0(p, v);
        assert(tree_idx@[0] == ht_tree(p, v, 0));
        assert(leaf_idx@[0] == ht_leaf(p, v, 0));
    }
    assert(1u64 << hp == if hp == 12 { 4096u64 } else { 256u64 }) by (bit_vector)
        requires
            hp == 12 || hp == 8,
    ;
    let t0 = (tree_idx[0] as u64) * (1u64 << hp) + leaf_idx[0] as u64;
    assert(t0 as int == v);
    let ghost a1 = adrs@;
    set_layer_address(&mut adrs, 0);
    set_tree_address(&mut adrs, 0, t0);
    proof {
        lemma_layer_tree(a1, 0, 0, t0);
    }
    let pors_pk = match pors_fp::pors_pk_from_sig::<P, H>(
        h,
        pors_sig.as_slice(),
        indices.as_slice(),
        &hash_ctx,
        &mut adrs,
    ) {
        Ok(x) => x,
        Err(e) => {
            return Err(Error::from(e));
        },
    };
    let mut sig: Vec<u8> = Vec::new();
    crate::hash::append_bytes(&mut sig, &sk.sf);
    crate::hash::append_bytes(&mut sig, pors_sig.as_slice());
    let ht = match ht_sign::<P, H>(
        h,
        &pors_pk,
        sk,
        &hash_ctx,
        &mut adrs,
        tree_idx.as_slice(),
        leaf_idx.as_slice(),
        Ghost(v),
    ) {
        Ok(x) => x,
        Err(e) => {
            return Err(Error::from(e));
        },
    };
    crate::hash::append_bytes(&mut sig, ht.as_slice());
    Ok(sig)
}


/// The hypertree walk of verification from layer `layer` up: each layer's
/// XMSS signature, read from its place in `sig`, turns the message into that
/// layer's root, the message of the next layer; the last root is the result.
pub open spec fn ht_verify_spec<H: Fn(&[u8]) -> [u8; 32]>(
    h: H,
    p: ParamSet,
    pk: PublicKey,
    ctx: Seq<u8>,
    v: int,
    sig: Seq<u8>,
    msg: Seq<u8>,
    layer: nat,
) -> Option<Seq<u8>>
    decreases p.d - layer,
{
    if layer >= p.d {
        Some(msg)
    } else {
        let xl = p.spec_xmss_sign_len();
        let wl = p.spec_wots_sign_len();
        let off = 16 + p.spec_pors_sign_len() + layer * xl;
        let x = sig.subrange(off, off + xl);
        match xmss_pk_from_sig_spec(
            h,
            p,
            x.subrange(0, wl),
            x.subrange(wl, xl),
            msg,
            pk.root@,
            ctx,
            adrs_prefix(layer as u32, 0, ht_tree(p, v, layer) as u64),
            p.spec_h_prime() as nat,
            ht_leaf(p, v, layer),
        ) {
            None => None,
            Some(m) => ht_verify_spec(h, p, pk, ctx, v, sig, m, layer + 1),
        }
    }
}

/// Byte `j` of a stateless signature lies in the randomizer `r` of one of
/// the hypertree's WOTS+C signatures.
pub open spec fn ht_r_byte(p: ParamSet, j: int) -> bool {
    let base = 16 + p.spec_pors_sign_len();
    j >= base && (j - base) % p.spec_xmss_sign_len() < crate::constants::R_LEN
}

proof fn lemma_ht_verify_ignores_r<H: Fn(&[u8]) -> [u8; 32]>(
    h: H,
    p: ParamSet,
    pk: PublicKey,
    ctx: Seq<u8>,
    v: int,
    sig: Seq<u8>,
    sig2: Seq<u8>,
    msg: Seq<u8>,
    layer: nat,
)
    requires
        p.wf(),
        sig.len() == p.spec_sl_size(),
        sig2.len() == sig.len(),
        forall|j: int| 0 <= j < sig.len() && !ht_r_byte(p, j) ==> sig2[j] == sig[j],
    ensures
        ht_verify_spec(h, p, pk, ctx, v, sig2, msg, layer) == ht_verify_spec(
            h,
            p,
            pk,
            ctx,
            v,
            sig,
            msg,
            layer,
        ),
    decreases p.d - layer,
{
    if layer < p.d {
        p.lemma_sizes();
        let xl = p.spec_xmss_sign_len();
        let wl = p.spec_wots_sign_len();
        let base = 16 + p.spec_pors_sign_len();
        let off = base + layer * xl;
        assert(off + xl <= sig.len()) by (nonlinear_arith)
            requires
                off == base + layer * xl,
                layer < p.d,
                sig.len() == base + xl * p.d,
                xl >= 0,
        ;
        assert(0 <= off);
        let x = sig.subrange(off, off + xl);
        let x2 = sig2.subrange(off, off + xl);
        assert forall|t: int| 0 <= t < xl && t >= crate::constants::R_LEN implies x2[t] == x[t] by {
            vstd::arithmetic::div_mod::lemma_fundamental_div_mod_converse(
                off + t - base,
                xl,
                layer as int,
                t,
            );
            assert(!ht_r_byte(p, off + t));
        }
        crate::wots_c::lemma_internal_ignores_r(
            h,
            p,
            x.subrange(0, wl),
            x2.subrange(0, wl),
            msg,
            pk.root@,
            ctx,
            adrs_prefix(layer as u32, 0, ht_tree(p, v, layer) as u64),
            ht_leaf(p, v, layer),
            false,
        );
        assert(x2.subrange(wl, xl) =~= x.subrange(wl, xl));
        if let Some(m) = xmss_pk_from_sig_spec(
            h,
            p,
            x.subrange(0, wl),
            x.subrange(wl, xl),
            msg,
            pk.root@,
            ctx,
            adrs_prefix(layer as u32, 0, ht_tree(p, v, layer) as u64),
            p.spec_h_prime() as nat,
            ht_leaf(p, v, layer),
        ) {
            lemma_ht_verify_ignores_r(h, p, pk, ctx, v, sig, sig2, m, layer + 1);
        }
    }
}

/// Stateless verification does not read the randomizers `r` of the
/// hypertree's WOTS+C signatures (their digests are the signed tree nodes
/// themselves): signatures that differ only there are accepted alike.
pub proof fn lemma_verify_stateless_ignores_ht_r<H: Fn(&[u8]) -> [u8; 32]>(
    h: H,
    p: ParamSet,
    message: Seq<u8>,
    sig: Seq<u8>,
    sig2: Seq<u8>,
    pk: PublicKey,
)
    requires
        p.wf(),
        sig.len() == p.spec_sl_size(),
        sig2.len() == sig.len(),
        forall|j: int| 0 <= j < sig.len() && !ht_r_byte(p, j) ==> sig2[j] == sig[j],
    ensures
        verify_stateless_spec(h, p, message, sig2, pk) == verify_stateless_spec(h, p, message, sig, pk),
{
    p.lemma_sizes();
    let pl = p.spec_pors_sign_len();
    assert(sig2.subrange(0, 16) =~= sig.subrange(0, 16));
    assert(sig2.subrange(16, 16 + pl) =~= sig.subrange(16, 16 + pl));
    let ctx = base_ctx_spec(pk.seed@);
    let psig = sig.subrange(16, 16 + pl);
    let dg = pors_digest(h, ctx, zero_prefix(), psig.subrange(0, 32), pk.root@, message);
    let indices = pors_indices(h, p, ctx, dg);
    let v = ht_position(p, xof_of(h, ctx, dg));
    if let Some(ppk) = pors_pk_from_sig_spec(h, p, psig, indices, ctx, adrs_prefix(0, 0, v as u64)) {
        lemma_ht_verify_ignores_r(h, p, pk, ctx, v, sig, sig2, ppk, 0);
    }
}

/// The last `n` nodes of `psig` are all zero bytes.
pub open spec fn zero_tail(psig: Seq<u8>, n: int) -> bool {
    forall|j: int| psig.len() - 16 * n <= j < psig.len() ==> psig[j] == 0
}

/// Whether `sig` is a valid stateless signature of `message` under `pk`: it
/// has the stateless length; the digest of its randomizer selects indices
/// with an octopus path, whose unused tail is zero; the PORS+FP public key
/// rebuilt from it and the hypertree walk give a root that compresses with
/// `sf` into the public root.
pub open spec fn verify_stateless_spec<H: Fn(&[u8]) -> [u8; 32]>(
    h: H,
    p: ParamSet,
    message: Seq<u8>,
    sig: Seq<u8>,
    pk: PublicKey,
) -> bool {
    if sig.len() != p.spec_sl_size() {
        false
    } else {
        let ctx = base_ctx_spec(pk.seed@);
        let sf = sig.subrange(0, 16);
        let psig = sig.subrange(16, 16 + p.spec_pors_sign_len());
        let dg = pors_digest(h, ctx, zero_prefix(), psig.subrange(0, 32), pk.root@, message);
        let indices = pors_indices(h, p, ctx, dg);
        match pors_octopus_spec(p, indices) {
            None => false,
            Some(a) => {
                let v = ht_position(p, xof_of(h, ctx, dg));
                &&& zero_tail(psig, p.m_max - a.len())
                &&& match pors_pk_from_sig_spec(h, p, psig, indices, ctx, adrs_prefix(0, 0, v as u64)) {
                    None => false,
                    Some(ppk) => match ht_verify_spec(h, p, pk, ctx, v, sig, ppk, 0) {
                        None => false,
                        Some(sl) => root_spec(h, pk.seed@, sf, sl) == pk.root@,
                    },
                }
            },
        }
    }
}

/// The digest that a stateless signature `sig` binds `message` with under
/// `pk`, from its bytes: SHA-256 over the public seed's base, the message
/// hash address, the randomizer (signature bytes `16 .. 48`), the public
/// root and the message.
pub open spec fn sl_message_digest<H: Fn(&[u8]) -> [u8; 32]>(
    h: H,
    sig: Seq<u8>,
    pk: PublicKey,
    message: Seq<u8>,
) -> Seq<u8> {
    digest(
        h,
        pk.seed@ + Seq::new(48, |i: int| 0u8) + adrs_of(Seq::new(16, |i: int| 0u8), SL_H_MSG, 0, 0, 0)
            + sig.subrange(16, 48) + pk.root@ + message,
    )
}

/// A stateless signature is accepted for `message` exactly when, for the
/// digest that binds `message` to the signature's randomizer and the public
/// root, the indices that digest selects have an octopus path whose unused
/// slots in the signature are zero, the PORS+FP key rebuilt for them and the
/// hypertree walk at the position the digest selects give a root, and that
/// root compresses with the signature's first 16 bytes into the public root.
pub proof fn lemma_verify_stateless_binds_message<H: Fn(&[u8]) -> [u8; 32]>(
    h: H,
    p: ParamSet,
    message: Seq<u8>,
    sig: Seq<u8>,
    pk: PublicKey,
)
    requires
        p.wf(),
    ensures
        verify_stateless_spec(h, p, message, sig, pk) <==> {
            let ctx = pk.seed@ + Seq::new(48, |i: int| 0u8);
            let pl = p.spec_pors_sign_len();
            let dg = sl_message_digest(h, sig, pk, message);
            let idx = pors_indices(h, p, ctx, dg);
            let v = ht_position(p, xof_of(h, ctx, dg));
            &&& sig.len() == p.spec_sl_size()
            &&& pors_octopus_spec(p, idx) matches Some(a)
            &&& forall|j: int| 16 + pl - 16 * (p.m_max - a.len()) <= j < 16 + pl ==> sig[j] == 0
            &&& pors_pk_from_sig_spec(h, p, sig.subrange(16, 16 + pl), idx, ctx, adrs_prefix(0, 0, v as u64))
                matches Some(ppk)
            &&& ht_verify_spec(h, p, pk, ctx, v, sig, ppk, 0) matches Some(top)
            &&& hash_n(h, ctx + adrs_of(sf_prefix(), ROOT, 0, 0, 0) + sig.subrange(0, 16) + top)
                == pk.root@
        },
{
    p.lemma_sizes();
    let ctx = base_ctx_spec(pk.seed@);
    assert(ctx =~= pk.seed@ + Seq::new(48, |i: int| 0u8));
    assert(zero_prefix() =~= Seq::new(16, |i: int| 0u8));
    let pl = p.spec_pors_sign_len();
    if sig.len() == p.spec_sl_size() {
        let psig = sig.subrange(16, 16 + pl);
        assert(psig.subrange(0, 32) =~= sig.subrange(16, 48));
        let dg = pors_digest(h, ctx, zero_prefix(), psig.subrange(0, 32), pk.root@, message);
        assert(dg == sl_message_digest(h, sig, pk, message));
        if let Some(a) = pors_octopus_spec(p, pors_indices(h, p, ctx, dg)) {
            assert(zero_tail(psig, p.m_max - a.len()) <==> forall|j: int|
                16 + pl - 16 * (p.m_max - a.len()) <= j < 16 + pl ==> sig[j] == 0) by {
                if zero_tail(psig, p.m_max - a.len()) {
                    assert forall|j: int| 16 + pl - 16 * (p.m_max - a.len()) <= j < 16 + pl implies sig[j]
                        == 0 by {
                        assert(psig[j - 16] == sig[j]);
                    }
                }
                if forall|j: int| 16 + pl - 16 * (p.m_max - a.len()) <= j < 16 + pl ==> sig[j] == 0 {
                    assert forall|j: int| psig.len() - 16 * (p.m_max - a.len()) <= j < psig.len() implies psig[j]
                        == 0 by {
                        assert(psig[j] == sig[j + 16]);
                    }
                }
            }
        }
    }
}

/// A stateless signature that is accepted has zero bytes in every slot of
/// its PORS+FP part that its octopus path leaves unused: after the
/// `k` revealed secrets and the `16 * a.len()` path bytes, for the octopus
/// path `a` of the indices that the message digest selects.
pub proof fn lemma_verify_stateless_zero_padding<H: Fn(&[u8]) -> [u8; 32]>(
    h: H,
    p: ParamSet,
    message: Seq<u8>,
    sig: Seq<u8>,
    pk: PublicKey,
)
    requires
        p.wf(),
        verify_stateless_spec(h, p, message, sig, pk),
    ensures
        ({
            let ctx = pk.seed@ + Seq::new(48, |i: int| 0u8);
            let idx = pors_indices(h, p, ctx, sl_message_digest(h, sig, pk, message));
            let pl = p.spec_pors_sign_len();
            &&& pors_octopus_spec(p, idx) matches Some(a)
            &&& a.len() <= p.m_max
            &&& forall|j: int| 48 + 16 * (p.k + a.len()) <= j < 16 + pl ==> sig[j] == 0
        }),
{
    lemma_verify_stateless_binds_message(h, p, message, sig, pk);
    let ctx = pk.seed@ + Seq::new(48, |i: int| 0u8);
    let idx = pors_indices(h, p, ctx, sl_message_digest(h, sig, pk, message));
    p.lemma_layout();
    pors_fp::lemma_indices_below(h, p, xof_input(ctx, zero_prefix(), sl_message_digest(h, sig, pk, message)));
    pors_fp::lemma_octopus_fits(p, idx);
}

/// Whether the bytes `from .. to` of `s` are all zero.
fn all_zero(s: &[u8], from: usize, to: usize) -> (r: bool)
    requires
        from <= to <= s@.len(),
    ensures
        r == forall|j: int| from <= j < to ==> s@[j] == 0,
{
    let mut i: usize = from;
    while i < to
        invariant
            from <= i <= to,
            to <= s@.len(),
            forall|j: int| from <= j < i ==> s@[j] == 0,
        decreases to - i,
    {
        if s[i] != 0 {
            return false;
        }
        i += 1;
    }
    true
}

/// Walk the hypertree part of a stateless signature from the lowest layer:
/// each XMSS signature turns the message into its tree's root.
fn ht_verify<P: Params, H: Fn(&[u8]) -> [u8; 32]>(
    h: &H,
    sig: &[u8],
    msg0: &wots_c::Node,
    pk: &PublicKey,
    hash_ctx: &Sha256Ctx,
    adrs: &mut Adrs,
    tree_idx: &[u32],
    leaf_idx: &[u32],
    Ghost(v): Ghost<int>,
) -> (res: Option<wots_c::Node>)
    requires
        is_hash_fn(*h),
        sig@.len() == P::spec_params().spec_sl_size(),
        layer_indices(P::spec_params(), v, tree_idx@, leaf_idx@),
    ensures
        ht_verify_spec(*h, P::spec_params(), *pk, hash_ctx@, v, sig@, msg0@, 0) == match res {
            None => None,
            Some(n) => Some(n@),
        },
{
    let p = P::params();
    proof {
        p.lemma_sizes();
    }
    let hp = p.h_prime() as u32;
    let xl = p.xmss_sign_len();
    let wl = p.wots_sign_len();
    let pl = p.pors_sign_len();
    let ghost ctx = hash_ctx@;
    let ghost full = ht_verify_spec(*h, p, *pk, ctx, v, sig@, msg0@, 0);
    let mut msg: wots_c::Node = *msg0;
    let mut offset: usize = N + pl;
    let mut layer: usize = 0;
    while layer < p.d
        invariant
            is_hash_fn(*h),
            p == P::spec_params(),
            p.wf(),
            hp as int == p.spec_h_prime(),
            hp == 12 || hp == 8,
            xl == p.spec_xmss_sign_len(),
            wl == p.spec_wots_sign_len(),
            pl == p.spec_pors_sign_len(),
            xl == wl + 16 * hp,
            sig@.len() == 16 + pl + p.d * xl,
            hash_ctx@ == ctx,
            0 <= layer <= p.d,
            offset == 16 + pl + layer * xl,
            layer_indices(p, v, tree_idx@, leaf_idx@),
            full == ht_verify_spec(*h, p, *pk, ctx, v, sig@, msg0@, 0),
            full == ht_verify_spec(*h, p, *pk, ctx, v, sig@, msg@, layer as nat),
        decreases p.d - layer,
    {
        assert(offset + xl <= sig@.len()) by (nonlinear_arith)
            requires
                offset == 16 + pl + layer * xl,
                layer < p.d,
                sig@.len() == 16 + pl + p.d * xl,
        ;
        let x = vstd::slice::slice_subrange(sig, offset, offset + xl);
        let wots_sig = vstd::slice::slice_subrange(x, 0, wl);
        let auth = vstd::slice::slice_subrange(x, wl, xl);
        let ghost a0 = adrs@;
        set_layer_address(adrs, layer as u32);
        set_tree_address(adrs, 0, tree_idx[layer] as u64);
        proof {
            lemma_layer_tree(a0, layer as u32, 0, tree_idx@[layer as int] as u64);
            assert(tree_idx@[layer as int] == ht_tree(p, v, layer as nat));
            assert(leaf_idx@[layer as int] == ht_leaf(p, v, layer as nat));
        }
        msg = match xmss_pk_from_sig::<P, H>(
            h,
            wots_sig,
            auth,
            &msg,
            &pk.root,
            hash_ctx,
            adrs,
            hp,
            leaf_idx[layer],
        ) {
            Ok(m) => m,
            Err(_) => {
                return None;
            },
        };
        assert(offset + xl == 16 + pl + (layer + 1) * xl) by (nonlinear_arith)
            requires
                offset == 16 + pl + layer * xl,
        ;
        offset = offset + xl;
        layer += 1;
    }
    Some(msg)
}

/// Verify a stateless signature; `false` on any malformed input.
pub fn verify_stateless<P: Params, H: Fn(&[u8]) -> [u8; 32]>(
    h: &H,
    message: &[u8],
    sig: &[u8],
    pk: &PublicKey,
) -> (r: bool)
    requires
        is_hash_fn(*h),
    ensures
        r == verify_stateless_spec(*h, P::spec_params(), message@, sig@, *pk),
{
    let p = P::params();
    proof {
        p.lemma_layout();
        p.lemma_sizes();
    }
    if sig.len() != p.sl_size() {
        return false;
    }
    let ghost ctx = base_ctx_spec(pk.seed@);
    let pl = p.pors_sign_len();
    let sf = wots_c::read_node(sig, 0);
    let pors_sig = vstd::slice::slice_subrange(sig, N, N + pl);
    let r = vstd::slice::slice_subrange(pors_sig, 0, 32);
    let hash_ctx = base_ctx(&pk.seed);
    let mut adrs: Adrs = [0u8; 32];
    assert(adrs@.subrange(0, 16) =~= zero_prefix());
    set_type_and_clear(&mut adrs, SL_H_MSG);
    proof {
        lemma_splice_tail(zero_prefix(), SL_H_MSG, 0, 0, 0, 0);
    }
    let mctx = hash_ctx.add_to_ctx(&adrs).add_to_ctx(r).add_to_ctx(&pk.root).add_to_ctx(message);
    let digest = crate::hash::finalize_full(h, &mctx);
    let mut xof = wots_c::zero_bytes(p.xof_block_idx() * 32);
    let indices = pors_fp::pors_msg_to_indices::<P, H>(
        h,
        &digest,
        &mut adrs,
        &hash_ctx,
        xof.as_mut_slice(),
    );
    assert(xof@ =~= xof_of(*h, ctx, digest@));
    let a_len = match pors_fp::pors_octopus::<P>(indices.as_slice()) {
        Some(a) => a.len(),
        None => {
            return false;
        },
    };
    proof {
        pors_fp::lemma_indices_below(*h, p, xof_input(ctx, zero_prefix(), digest@));
        pors_fp::lemma_octopus_fits(p, indices@);
    }
    if !all_zero(pors_sig, pl - N * (p.m_max - a_len), pl) {
        return false;
    }
    let mut tree_idx = zero_u32s(p.d);
    let mut leaf_idx = zero_u32s(p.d);
    parse_idx::<P>(xof.as_slice(), tree_idx.as_mut_slice(), leaf_idx.as_mut_slice());
    let ghost v = ht_position(p, xof@);
    let hp = p.h_prime() as u32;
    proof {
        pors_fp::lemma_extract_bits_value(xof@, p.spec_xof_offset_bits(), p.hsl as nat);
        vstd::arithmetic::power2::lemma2_to64();
        if p.hsl == 24 {
            vstd::arithmetic::power2::lemma_pow2_strictly_increases(24, 32);
        }
        assert(0 <= v < 0x1_0000_0000);
        lemma_layer0(p, v);
        assert(tree_idx@[0] == ht_tree(p, v, 0));
        assert(leaf_idx@[0] == ht_leaf(p, v, 0));
    }
    assert(1u64 << hp == if hp == 12 { 4096u64 } else { 256u64 }) by (bit_vector)
        requires
            hp == 12 || hp == 8,
    ;
    let t0 = (tree_idx[0] as u64) * (1u64 << hp) + leaf_idx[0] as u64;
    assert(t0 as int == v);
    let ghost a1 = adrs@;
    set_layer_address(&mut adrs, 0);
    set_tree_address(&mut adrs, 0, t0);
    proof {
        lemma_layer_tree(a1, 0, 0, t0);
    }
    let pors_pk = match pors_fp::pors_pk_from_sig::<P, H>(
        h,
        pors_sig,
        indices.as_slice(),
        &hash_ctx,
        &mut adrs,
    ) {
        Ok(x) => x,
        Err(_) => {
            return false;
        },
    };
    let sl = match ht_verify::<P, H>(
        h,
        sig,
        &pors_pk,
        pk,
        &hash_ctx,
        &mut adrs,
        tree_idx.as_slice(),
        leaf_idx.as_slice(),
        Ghost(v),
    ) {
        Some(x) => x,
        None => {
            return false;
        },
    };
    let ghost a2 = adrs@;
    set_layer_address(&mut adrs, 0);
    set_tree_address(&mut adrs, 0, 0);
    proof {
        lemma_layer_tree(a2, 0, 0, 0);
    }
    set_type_and_clear(&mut adrs, ROOT);
    let rctx = hash_ctx.add_to_ctx(&adrs).add_to_ctx(&sf).add_to_ctx(&sl);
    let root = finalize_node(h, &rctx);
    nodes_equal(&root, &pk.root)
}

/// Whether `sig` is a valid signature of `message` under `pk`: up to
/// `max_sf_size` bytes as a stateful signature, above as a stateless one.
pub open spec fn verify_spec<H: Fn(&[u8]) -> [u8; 32]>(
    h: H,
    p: ParamSet,
    message: Seq<u8>,
    sig: Seq<u8>,
    pk: PublicKey,
) -> bool {
    if sig.len() <= p.spec_max_sf_size() {
        verify_stateful_spec(h, p, message, sig, pk)
    } else {
        verify_stateless_spec(h, p, message, sig, pk)
    }
}

/// Verify a signature, by its length: up to `max_sf_size` bytes it is taken
/// for a stateful signature, above for a stateless one.
pub fn verify<P: Params, H: Fn(&[u8]) -> [u8; 32]>(
    h: &H,
    message: &[u8],
    sig: &[u8],
    pk: &PublicKey,
) -> (r: bool)
    requires
        is_hash_fn(*h),
    ensures
        r == verify_spec(*h, P::spec_params(), message@, sig@, *pk),
{
    let p = P::params();
    if sig.len() <= p.max_sf_size() {
        verify_stateful::<P, H>(h, message, sig, pk)
    } else {
        verify_stateless::<P, H>(h, message, sig, pk)
    }
}


/// Above layer `layer`, a position below `2^hsl` keeps fewer than
/// `h_prime (d - layer)` bits; above the top layer none are left.
proof fn lemma_ht_rest_bound(p: ParamSet, v: int, layer: nat)
    requires
        p.wf(),
        0 <= v < p2(p.hsl as nat),
        layer <= p.d,
    ensures
        0 <= ht_rest(p, v, layer) < p2((p.spec_h_prime() * (p.d - layer)) as nat),
    decreases layer,
{
    p.lemma_layout();
    p.lemma_sizes();
    let hp = p.spec_h_prime();
    if layer == 0 {
        assert(hp * (p.d - 0) == p.hsl);
    } else {
        lemma_ht_rest_bound(p, v, (layer - 1) as nat);
        let x = ht_rest(p, v, (layer - 1) as nat);
        let a = p2((hp * (p.d - layer)) as nat);
        let b = p2(hp as nat);
        assert(hp * (p.d - layer + 1) == hp * (p.d - layer) + hp) by (nonlinear_arith);
        assert(hp * (p.d - layer) >= 0) by (nonlinear_arith)
            requires
                hp >= 0,
                p.d - layer >= 0,
        ;
        vstd::arithmetic::power2::lemma_pow2_adds((hp * (p.d - layer)) as nat, hp as nat);
        vstd::arithmetic::power2::lemma_pow2_pos(hp as nat);
        assert(0 <= x / b < a) by (nonlinear_arith)
            requires
                0 <= x < a * b,
                b > 0,
        ;
    }
}

/// A hypertree signature from layer `layer` up has one XMSS signature per
/// layer left.
proof fn lemma_ht_sign_len<H: Fn(&[u8]) -> [u8; 32]>(
    h: H,
    p: ParamSet,
    sk: SecretKey,
    ctx: Seq<u8>,
    v: int,
    msg: Seq<u8>,
    layer: nat,
)
    requires
        p.wf(),
        layer <= p.d,
    ensures
        ht_sign_spec(h, p, sk, ctx, v, msg, layer) matches Some(ht) ==> ht.len() == (p.d - layer)
            * p.spec_xmss_sign_len(),
    decreases p.d - layer,
{
    if layer < p.d {
        let pre = adrs_prefix(layer as u32, 0, ht_tree(p, v, layer) as u64);
        let hp = p.spec_h_prime() as nat;
        let x = xmss_sign_spec(
            h,
            p,
            msg,
            sk.seed@,
            sk.prf@,
            sk.pk.seed@,
            sk.pk.root@,
            ctx,
            pre,
            hp,
            ht_leaf(p, v, layer),
        );
        if x is Some {
            crate::xmss::lemma_xmss_sign_len(
                h,
                p,
                msg,
                sk.seed@,
                sk.prf@,
                sk.pk.seed@,
                sk.pk.root@,
                ctx,
                pre,
                hp,
                ht_leaf(p, v, layer),
            );
            let next = xmss_node(h, p, ctx, pre, sk.seed@, hp, 0);
            lemma_ht_sign_len(h, p, sk, ctx, v, next, layer + 1);
            assert((p.d - layer) * p.spec_xmss_sign_len() == p.spec_xmss_sign_len() + (p.d - (layer
                + 1)) * p.spec_xmss_sign_len()) by (nonlinear_arith);
            if let Some(rest) = ht_sign_spec(h, p, sk, ctx, v, next, layer + 1) {
                assert(ht_sign_spec(h, p, sk, ctx, v, msg, layer) == Some(x->0 + rest));
            }
        }
    } else {
        assert((p.d - layer) * p.spec_xmss_sign_len() == 0) by (nonlinear_arith)
            requires
                p.d - layer == 0,
        ;
    }
}

/// Walking the hypertree signature that `ht_sign_spec` makes from layer
/// `layer` up leads to the root of the top layer's tree.
#[verifier::rlimit(80)]
proof fn lemma_ht_sign_verify<H: Fn(&[u8]) -> [u8; 32]>(
    h: H,
    p: ParamSet,
    sk: SecretKey,
    pk: PublicKey,
    ctx: Seq<u8>,
    v: int,
    sig: Seq<u8>,
    msg: Seq<u8>,
    layer: nat,
)
    requires
        p.wf(),
        layer < p.d,
        pk == sk.pk,
        msg.len() == 16,
        sig.len() == 16 + p.spec_pors_sign_len() + p.d * p.spec_xmss_sign_len(),
        ht_sign_spec(h, p, sk, ctx, v, msg, layer) matches Some(rest) && sig.subrange(
            16 + p.spec_pors_sign_len() + layer * p.spec_xmss_sign_len(),
            sig.len() as int,
        ) == rest,
    ensures
        ht_verify_spec(h, p, pk, ctx, v, sig, msg, layer) == Some(
            xmss_node(
                h,
                p,
                ctx,
                adrs_prefix((p.d - 1) as u32, 0, ht_tree(p, v, (p.d - 1) as nat) as u64),
                sk.seed@,
                p.spec_h_prime() as nat,
                0,
            ),
        ),
    decreases p.d - layer,
{
    p.lemma_sizes();
    let hp = p.spec_h_prime() as nat;
    let xl = p.spec_xmss_sign_len();
    let wl = p.spec_wots_sign_len();
    let pre = adrs_prefix(layer as u32, 0, ht_tree(p, v, layer) as u64);
    let leaf = ht_leaf(p, v, layer);
    let rest = ht_sign_spec(h, p, sk, ctx, v, msg, layer)->0;
    let xs = xmss_sign_spec(h, p, msg, sk.seed@, sk.prf@, sk.pk.seed@, sk.pk.root@, ctx, pre, hp, leaf)->0;
    let next = xmss_node(h, p, ctx, pre, sk.seed@, hp, 0);
    let rest2 = ht_sign_spec(h, p, sk, ctx, v, next, layer + 1)->0;
    assert(rest == xs + rest2);
    crate::xmss::lemma_xmss_sign_len(h, p, msg, sk.seed@, sk.prf@, sk.pk.seed@, sk.pk.root@, ctx, pre, hp, leaf);
    vstd::arithmetic::power2::lemma2_to64();
    vstd::arithmetic::div_mod::lemma_mod_bound(ht_rest(p, v, layer), p2(hp));
    assert(adrs_prefix(layer as u32, 0, ht_tree(p, v, layer) as u64).len() == 16);
    crate::xmss::lemma_xmss_sign_verify(
        h,
        p,
        msg,
        sk.seed@,
        sk.prf@,
        sk.pk.seed@,
        sk.pk.root@,
        ctx,
        pre,
        hp,
        leaf,
    );
    let off = 16 + p.spec_pors_sign_len() + layer * xl;
    assert(off + xl == 16 + p.spec_pors_sign_len() + (layer + 1) * xl) by (nonlinear_arith)
        requires
            off == 16 + p.spec_pors_sign_len() + layer * xl,
    ;
    assert((layer + 1) * xl <= p.d * xl) by (nonlinear_arith)
        requires
            layer + 1 <= p.d,
            xl >= 0,
    ;
    assert(0 <= off && off + xl <= sig.len());
    assert(sig.subrange(off, off + xl) =~= xs) by {
        assert(sig.subrange(off, sig.len() as int).subrange(0, xl) =~= sig.subrange(off, off + xl));
    }
    assert(xs.subrange(0, wl) == sig.subrange(off, off + xl).subrange(0, wl));
    assert(xs.subrange(wl, xs.len() as int) == sig.subrange(off, off + xl).subrange(wl, xl));
    crate::xmss::lemma_xmss_node_len(h, p, ctx, pre, sk.seed@, hp, 0);
    if layer + 1 < p.d {
        assert(sig.subrange(off + xl, sig.len() as int) =~= rest2) by {
            assert(sig.subrange(off, sig.len() as int).subrange(xl, rest.len() as int) =~= sig.subrange(
                off + xl,
                sig.len() as int,
            ));
        }
        lemma_ht_sign_verify(h, p, sk, pk, ctx, v, sig, next, layer + 1);
    } else {
        assert(ht_verify_spec(h, p, pk, ctx, v, sig, next, layer + 1) == Some(next));
    }
}

/// A stateless signature made with a key restored from any seed verifies
/// under the matching public key, for every message it is made for.
pub proof fn lemma_stateless_sign_verify<H: Fn(&[u8]) -> [u8; 32]>(
    h: H,
    p: ParamSet,
    seed: Seq<u8>,
    pk: PublicKey,
    sk: SecretKey,
    message: Seq<u8>,
)
    requires
        p.wf(),
        seed.len() == 48,
        keys_from_seed(h, p, seed, pk, sk),
    ensures
        sign_stateless_spec(h, p, message, sk) matches Ok(sig) ==> verify_stateless_spec(
            h,
            p,
            message,
            sig,
            pk,
        ) && sig.len() == p.spec_sl_size(),
{
    if let Ok(sig) = sign_stateless_spec(h, p, message, sk) {
        p.lemma_layout();
        p.lemma_sizes();
        let ctx = base_ctx_spec(sk.pk.seed@);
        let (psig, dg) = pors_sign_spec(
            h,
            p,
            ctx,
            zero_prefix(),
            message,
            sk.seed@,
            sk.prf@,
            sk.pk.seed@,
            sk.pk.root@,
            None,
        )->0;
        pors_fp::lemma_pors_sig_layout(
            h,
            p,
            ctx,
            zero_prefix(),
            message,
            sk.seed@,
            sk.prf@,
            sk.pk.seed@,
            sk.pk.root@,
        );
        let xof = xof_of(h, ctx, dg);
        let v = ht_position(p, xof);
        let indices = pors_indices(h, p, ctx, dg);
        let ppk = pors_pk_from_sig_spec(h, p, psig, indices, ctx, adrs_prefix(0, 0, v as u64))->0;
        pors_fp::lemma_pors_pk_len(h, p, psig, indices, ctx, adrs_prefix(0, 0, v as u64));
        let ht = ht_sign_spec(h, p, sk, ctx, v, ppk, 0)->0;
        lemma_ht_sign_len(h, p, sk, ctx, v, ppk, 0);
        let pl = p.spec_pors_sign_len();
        let xl = p.spec_xmss_sign_len();
        assert(sig == sk.sf@ + psig + ht);
        assert(sig.len() == 16 + pl + p.d * xl) by (nonlinear_arith)
            requires
                sig.len() == 16 + psig.len() + ht.len(),
                psig.len() == pl,
                ht.len() == (p.d - 0) * xl,
        ;
        assert(p.d * xl == xl * p.d) by (nonlinear_arith);
        assert(sig.subrange(0, 16) =~= sk.sf@);
        assert(sig.subrange(16, 16 + pl) =~= psig);
        assert(sig.subrange(16 + pl + 0 * xl, sig.len() as int) =~= ht);
        pors_fp::lemma_extract_bits_value(xof, p.spec_xof_offset_bits(), p.hsl as nat);
        lemma_ht_rest_bound(p, v, p.d as nat);
        assert(p.spec_h_prime() * (p.d - p.d) == 0);
        assert(p2(0) == 1) by {
            vstd::arithmetic::power2::lemma2_to64();
        }
        assert(ht_tree(p, v, (p.d - 1) as nat) == 0);
        assert(adrs_prefix((p.d - 1) as u32, 0, 0) == top_prefix(p));
        lemma_ht_sign_verify(h, p, sk, pk, ctx, v, sig, ppk, 0);
    }
}


/// Every signature a key makes, stateful (for signature numbers
/// `1 <= q <= hsf + 1`) or stateless, is accepted by `verify` under the
/// matching public key: the length alone tells the two kinds apart.
pub proof fn lemma_sign_verify<H: Fn(&[u8]) -> [u8; 32]>(
    h: H,
    p: ParamSet,
    seed: Seq<u8>,
    pk: PublicKey,
    sk: SecretKey,
    message: Seq<u8>,
    q: u32,
)
    requires
        p.wf(),
        seed.len() == 48,
        keys_from_seed(h, p, seed, pk, sk),
        1 <= q <= p.hsf + 1,
    ensures
        sign_stateful_spec(h, p, message, sk, q) matches Some(sig) ==> verify_spec(
            h,
            p,
            message,
            sig,
            pk,
        ),
        sign_stateless_spec(h, p, message, sk) matches Ok(sig) ==> verify_spec(h, p, message, sig, pk),
{
    p.lemma_layout();
    p.lemma_sizes();
    if let Some(sig) = sign_stateful_spec(h, p, message, sk, q) {
        lemma_stateful_sign_verify(h, p, seed, pk, sk, message, q);
        let ctx = base_ctx_spec(sk.pk.seed@);
        let body = uxmss_sign_spec(h, p, message, sk.seed@, sk.prf@, sk.pk.seed@, sk.pk.root@, ctx, q)->0;
        crate::uxmss::lemma_uxmss_sign_verify(
            h,
            p,
            message,
            sk.seed@,
            sk.prf@,
            sk.pk.seed@,
            sk.pk.root@,
            ctx,
            q,
        );
        assert(sig.len() <= p.spec_max_sf_size());
    }
    if let Ok(sig) = sign_stateless_spec(h, p, message, sk) {
        lemma_stateless_sign_verify(h, p, seed, pk, sk, message);
    }
}

} // verus!
