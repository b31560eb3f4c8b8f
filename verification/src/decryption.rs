//! The receiving side of a sender ratchet: the chain head and a window of
//! secrets kept for messages that arrive out of order.
use vstd::prelude::*;
use crate::ciphersuite::Ciphersuite;
use crate::config::SenderRatchetConfiguration;
use crate::error::SecretTreeError;
use crate::ratchet::{chain_secret, material_at, next_chain_secret, RatchetSecret};
use crate::secret::{material_view, RatchetKeyMaterial, Secret};
use openmls_rust_crypto::RustCrypto;

verus! {

/// What a decryption ratchet holds, as values: the chain head's secret and
/// generation, and the kept key material of past generations, oldest first.
/// The last entry belongs to the generation just below the head.
pub struct DecryptionView {
    pub secret: Seq<u8>,
    pub generation: u32,
    pub past: Seq<Option<(Seq<u8>, Seq<u8>)>>,
}

pub open spec fn opt_material_view(m: Option<RatchetKeyMaterial>) -> Option<(Seq<u8>, Seq<u8>)> {
    match m {
        Some(k) => Some(material_view(k)),
        None => None,
    }
}

/// The generation lies beyond the forward window.
pub open spec fn too_far_ahead(v: DecryptionView, g: u32, distance: u32) -> bool {
    v.generation < u32::MAX - distance && g > v.generation + distance
}

/// The generation lies before the out-of-order window.
pub open spec fn too_far_behind(v: DecryptionView, g: u32, tolerance: u32) -> bool {
    g < v.generation && v.generation - g > tolerance
}

/// Where the secret of past generation `g` sits in `v.past`.
pub open spec fn window_position(v: DecryptionView, g: u32) -> int {
    v.past.len() - v.generation + g
}

/// The error with which a request for generation `g` is refused, if any.
pub open spec fn decryption_refusal(v: DecryptionView, g: u32, tolerance: u32, distance: u32) -> Option<SecretTreeError> {
    if too_far_ahead(v, g, distance) {
        Some(SecretTreeError::TooDistantInTheFuture)
    } else if too_far_behind(v, g, tolerance) {
        Some(SecretTreeError::TooDistantInThePast)
    } else if g >= v.generation {
        if g == u32::MAX {
            Some(SecretTreeError::RatchetTooLong)
        } else {
            None
        }
    } else if window_position(v, g) < 0 {
        Some(SecretTreeError::IndexOutOfBounds)
    } else if v.past[window_position(v, g)] is None {
        Some(SecretTreeError::SecretReuseError)
    } else {
        None
    }
}

/// A request at or ahead of the head fails in the provider when the head's
/// secret is shorter than a hash output.
pub open spec fn decryption_crypto_failure(v: DecryptionView, cs: Ciphersuite, g: u32) -> bool {
    g >= v.generation && v.secret.len() < cs.spec_hash_length()
}

/// The key material handed out for generation `g`.
pub open spec fn decryption_material(v: DecryptionView, cs: Ciphersuite, g: u32) -> (Seq<u8>, Seq<u8>) {
    if g >= v.generation {
        material_at(cs, v.secret, v.generation as nat, (g - v.generation) as nat)
    } else {
        v.past[window_position(v, g)]->Some_0
    }
}

/// The key material of `k` generations from generation `g`, oldest first.
pub open spec fn fresh_materials(cs: Ciphersuite, s: Seq<u8>, g: nat, k: nat) -> Seq<Option<(Seq<u8>, Seq<u8>)>> {
    Seq::new(k, |j: int| Some(material_at(cs, s, g, j as nat)))
}

/// The last `n` entries of `s`.
pub open spec fn keep_newest<T>(s: Seq<T>, n: nat) -> Seq<T> {
    if s.len() > n {
        s.subrange(s.len() - n, s.len() as int)
    } else {
        s
    }
}

/// The state after generation `g` was handed out.
pub open spec fn decryption_next(v: DecryptionView, cs: Ciphersuite, g: u32, tolerance: u32) -> DecryptionView {
    if g >= v.generation {
        let k = (g - v.generation) as nat;
        DecryptionView {
            secret: chain_secret(cs, v.secret, v.generation as nat, k + 1),
            generation: (g + 1) as u32,
            past: keep_newest(
                v.past + fresh_materials(cs, v.secret, v.generation as nat, k) + seq![None],
                tolerance as nat,
            ),
        }
    } else {
        DecryptionView { secret: v.secret, generation: v.generation, past: v.past.update(window_position(v, g), None) }
    }
}

/// Moves `head` forward to `generation + 1`, collecting the key material of the
/// skipped generations (oldest first) and returning that of `generation`.
fn ratchet_up_to(head: &mut RatchetSecret, crypto: &RustCrypto, cs: Ciphersuite, generation: u32) -> (r: Result<
    (Vec<Option<RatchetKeyMaterial>>, RatchetKeyMaterial),
    SecretTreeError,
>)
    requires
        old(head).spec_generation() <= generation < u32::MAX,
    ensures
        old(head).spec_secret().len() < cs.spec_hash_length() ==> r matches Err(SecretTreeError::CryptoError(_)),
        old(head).spec_secret().len() >= cs.spec_hash_length() ==> {
            let g0 = old(head).spec_generation() as nat;
            let k = (generation - g0) as nat;
            &&& r is Ok
            &&& r->Ok_0.0@.map_values(|m: Option<RatchetKeyMaterial>| opt_material_view(m)) == fresh_materials(cs, old(head).spec_secret(), g0, k)
            &&& material_view(r->Ok_0.1) == material_at(cs, old(head).spec_secret(), g0, k)
            &&& final(head).spec_generation() == generation + 1
            &&& final(head).spec_secret() == chain_secret(cs, old(head).spec_secret(), g0, k + 1)
            &&& final(head).spec_secret().len() == cs.spec_hash_length()
        },
{
    let ghost s0 = head.spec_secret();
    let ghost g0 = head.spec_generation() as nat;
    let mut fresh: Vec<Option<RatchetKeyMaterial>> = Vec::new();
    while head.generation() < generation
        invariant
            g0 <= head.spec_generation() <= generation < u32::MAX,
            s0 == old(head).spec_secret(),
            g0 == old(head).spec_generation(),
            head.spec_secret() == chain_secret(cs, s0, g0, (head.spec_generation() - g0) as nat),
            head.spec_generation() > g0 ==> head.spec_secret().len() == cs.spec_hash_length(),
            head.spec_generation() > g0 ==> s0.len() >= cs.spec_hash_length(),
            fresh@.len() == head.spec_generation() - g0,
            forall|j: int| 0 <= j < fresh@.len() ==> #[trigger] opt_material_view(fresh@[j]) == Some(material_at(cs, s0, g0, j as nat)),
        decreases generation - head.spec_generation(),
    {
        let ghost n = (head.spec_generation() - g0) as nat;
        let ghost before = fresh@;
        let ghost secret_before = head.spec_secret();
        match head.ratchet_forward(crypto, cs) {
            Ok((_, material)) => {
                assert(secret_before.len() >= cs.spec_hash_length());
                assert(chain_secret(cs, s0, g0, n + 1) == next_chain_secret(cs, chain_secret(cs, s0, g0, n), g0 + n));
                assert(opt_material_view(Some(material)) == Some(material_at(cs, s0, g0, n)));
                fresh.push(Some(material));
                assert forall|j: int| 0 <= j < fresh@.len() implies #[trigger] opt_material_view(fresh@[j]) == Some(
                    material_at(cs, s0, g0, j as nat),
                ) by {
                    if j < n {
                        assert(fresh@[j] == before[j]);
                    }
                }
            },
            Err(e) => {
                assert(secret_before.len() < cs.spec_hash_length());
                assert(head.spec_generation() == g0);
                assert(chain_secret(cs, s0, g0, 0) == s0);
                assert(secret_before == s0);
                return Err(e);
            },
        }
    }
    assert(head.spec_generation() == g0 ==> chain_secret(cs, s0, g0, 0) == s0);
    let material = match head.ratchet_forward(crypto, cs) {
        Ok((_, material)) => material,
        Err(e) => {
            assert(head.spec_secret().len() < cs.spec_hash_length());
            assert(head.spec_generation() == g0);
            assert(head.spec_secret() == s0);
            return Err(e);
        },
    };
    let ghost k = (generation - g0) as nat;
    assert(fresh@.map_values(|m: Option<RatchetKeyMaterial>| opt_material_view(m)) =~= fresh_materials(cs, s0, g0, k));
    Ok((fresh, material))
}

/// The ratchet state `v` lies on the chain that starts with secret `s0` at
/// generation zero: its head secret is the chain's secret of its generation,
/// and every kept entry is the key material of the generation it stands for.
pub open spec fn follows_chain(v: DecryptionView, cs: Ciphersuite, s0: Seq<u8>) -> bool {
    &&& v.secret == chain_secret(cs, s0, 0, v.generation as nat)
    &&& v.past.len() <= v.generation
    &&& forall|i: int|
        0 <= i < v.past.len() && #[trigger] v.past[i] is Some ==> v.past[i] == Some(
            material_at(cs, s0, 0, (v.generation - v.past.len() + i) as nat),
        )
}

/// Ratcheting `m` steps and then `n` steps is ratcheting `m + n` steps.
pub proof fn lemma_chain_split(cs: Ciphersuite, s: Seq<u8>, g: nat, m: nat, n: nat)
    ensures
        chain_secret(cs, chain_secret(cs, s, g, m), g + m, n) == chain_secret(cs, s, g, m + n),
    decreases n,
{
    if n > 0 {
        lemma_chain_split(cs, s, g, m, (n - 1) as nat);
        assert(chain_secret(cs, chain_secret(cs, s, g, m), g + m, n) == next_chain_secret(
            cs,
            chain_secret(cs, chain_secret(cs, s, g, m), g + m, (n - 1) as nat),
            (g + m + n - 1) as nat,
        ));
        assert(chain_secret(cs, s, g, m + n) == next_chain_secret(
            cs,
            chain_secret(cs, s, g, (m + n - 1) as nat),
            (g + m + n - 1) as nat,
        ));
    }
}

/// A new ratchet lies on the chain of its initial secret.
pub proof fn lemma_new_follows_chain(cs: Ciphersuite, s0: Seq<u8>)
    ensures
        follows_chain(
            DecryptionView { secret: s0, generation: 0, past: Seq::<Option<(Seq<u8>, Seq<u8>)>>::empty() },
            cs,
            s0,
        ),
{
}

/// Every key handed out for generation `g` is the key material of generation
/// `g` of the chain, whatever the order of the requests: a ratchet that
/// follows the chain hands out exactly that material and still follows the
/// chain afterwards.
pub proof fn lemma_decryption_follows_chain(
    v: DecryptionView,
    cs: Ciphersuite,
    s0: Seq<u8>,
    g: u32,
    tolerance: u32,
    distance: u32,
)
    requires
        follows_chain(v, cs, s0),
        decryption_refusal(v, g, tolerance, distance) is None,
    ensures
        decryption_material(v, cs, g) == material_at(cs, s0, 0, g as nat),
        follows_chain(decryption_next(v, cs, g, tolerance), cs, s0),
{
    let gen = v.generation as nat;
    if g >= v.generation {
        let k = (g - v.generation) as nat;
        lemma_chain_split(cs, s0, 0, gen, k);
        lemma_chain_split(cs, s0, 0, gen, k + 1);
        assert(material_at(cs, v.secret, gen, k) == material_at(cs, s0, 0, g as nat));
        let fresh = fresh_materials(cs, v.secret, gen, k);
        let all = v.past + fresh + seq![None];
        let next = decryption_next(v, cs, g, tolerance);
        let cut = all.len() - next.past.len();
        assert(next.past.len() <= all.len());
        assert forall|i: int| 0 <= i < next.past.len() && #[trigger] next.past[i] is Some implies next.past[i] == Some(
            material_at(cs, s0, 0, (next.generation - next.past.len() + i) as nat),
        ) by {
            let c = i + cut;
            assert(next.past[i] == all[c]);
            if c < v.past.len() {
                assert(all[c] == v.past[c]);
            } else if c < v.past.len() + k {
                let j = c - v.past.len();
                assert(all[c] == fresh[j]);
                lemma_chain_split(cs, s0, 0, gen, j as nat);
            }
        }
    } else {
        let pos = window_position(v, g);
        assert(v.past[pos] is Some);
        let next = decryption_next(v, cs, g, tolerance);
        assert forall|i: int| 0 <= i < next.past.len() && #[trigger] next.past[i] is Some implies next.past[i] == Some(
            material_at(cs, s0, 0, (next.generation - next.past.len() + i) as nat),
        ) by {
            assert(next.past[i] == v.past[i]);
        }
    }
}

/// Forward secrecy of a single message: once the material of a generation
/// was handed out, asking for it again is refused as a reuse (given a
/// non-empty out-of-order window).
pub proof fn lemma_handed_out_once(
    v: DecryptionView,
    cs: Ciphersuite,
    g: u32,
    tolerance: u32,
    distance: u32,
)
    requires
        decryption_refusal(v, g, tolerance, distance) is None,
        !decryption_crypto_failure(v, cs, g),
        tolerance >= 1,
    ensures
        decryption_refusal(decryption_next(v, cs, g, tolerance), g, tolerance, distance)
            == Some(SecretTreeError::SecretReuseError),
{
    let next = decryption_next(v, cs, g, tolerance);
    if g >= v.generation {
        let k = (g - v.generation) as nat;
        let all = v.past + fresh_materials(cs, v.secret, v.generation as nat, k) + seq![None];
        assert(next.past.len() >= 1);
        assert(next.past[next.past.len() - 1] == all[all.len() - 1]);
        assert(window_position(next, g) == next.past.len() - 1);
    } else {
        assert(next.past[window_position(next, g)] is None);
    }
}

/// The window never keeps more secrets than the out-of-order tolerance.
pub proof fn lemma_window_bounded(v: DecryptionView, cs: Ciphersuite, g: u32, tolerance: u32, distance: u32)
    requires
        v.past.len() <= tolerance,
        decryption_refusal(v, g, tolerance, distance) is None,
    ensures
        decryption_next(v, cs, g, tolerance).past.len() <= tolerance,
{
    if g >= v.generation {
        let k = (g - v.generation) as nat;
        let all = v.past + fresh_materials(cs, v.secret, v.generation as nat, k) + seq![None];
        assert(keep_newest(all, tolerance as nat).len() <= tolerance);
    }
}

/// The window holds an entry for each of the last `tolerance` generations
/// below the head, or for all of them while the head is lower: the shape of
/// a ratchet from its start on while every request uses the same tolerance.
pub open spec fn window_full(v: DecryptionView, tolerance: u32) -> bool {
    v.past.len() == if v.generation <= tolerance { v.generation as nat } else { tolerance as nat }
}

/// Generation `g`, below the head, has no key material left in the window.
pub open spec fn spent(v: DecryptionView, g: u32) -> bool {
    g < v.generation && (window_position(v, g) < 0 || v.past[window_position(v, g)] is None)
}

/// The state after a request for generation `g`, whatever its outcome: a
/// refused or failed request leaves the ratchet as it was.
pub open spec fn decryption_after(v: DecryptionView, cs: Ciphersuite, g: u32, tolerance: u32, distance: u32) -> DecryptionView {
    if decryption_refusal(v, g, tolerance, distance) is Some || decryption_crypto_failure(v, cs, g) {
        v
    } else {
        decryption_next(v, cs, g, tolerance)
    }
}

/// The state after the requests for the generations `gs`, in that order.
pub open spec fn decryption_after_all(
    v: DecryptionView,
    cs: Ciphersuite,
    gs: Seq<u32>,
    tolerance: u32,
    distance: u32,
) -> DecryptionView
    decreases gs.len(),
{
    if gs.len() == 0 {
        v
    } else {
        decryption_after_all(decryption_after(v, cs, gs[0], tolerance, distance), cs, gs.drop_first(), tolerance, distance)
    }
}

/// A new ratchet has a full window.
pub proof fn lemma_new_window_full(secret: Seq<u8>, tolerance: u32)
    ensures
        window_full(DecryptionView { secret, generation: 0, past: Seq::empty() }, tolerance),
{
}

/// Every request keeps the window full.
pub proof fn lemma_window_stays_full(v: DecryptionView, cs: Ciphersuite, g: u32, tolerance: u32, distance: u32)
    requires
        window_full(v, tolerance),
    ensures
        window_full(decryption_after(v, cs, g, tolerance, distance), tolerance),
        decryption_after(v, cs, g, tolerance, distance).generation >= v.generation,
{
}

/// A request below the head is refused as too old exactly when it lies more
/// than the tolerance below the head; within the tolerance it is refused as
/// a reuse exactly when the generation's key material is gone, and served
/// otherwise.
pub proof fn lemma_past_request(v: DecryptionView, g: u32, tolerance: u32, distance: u32)
    requires
        window_full(v, tolerance),
        g < v.generation,
    ensures
        decryption_refusal(v, g, tolerance, distance) == if v.generation - g > tolerance {
            Some(SecretTreeError::TooDistantInThePast)
        } else if spent(v, g) {
            Some(SecretTreeError::SecretReuseError)
        } else {
            None::<SecretTreeError>
        },
{
}

/// Handing out a generation spends it.
pub proof fn lemma_handed_out_spent(v: DecryptionView, cs: Ciphersuite, g: u32, tolerance: u32, distance: u32)
    requires
        decryption_refusal(v, g, tolerance, distance) is None,
        !decryption_crypto_failure(v, cs, g),
    ensures
        spent(decryption_next(v, cs, g, tolerance), g),
{
    let next = decryption_next(v, cs, g, tolerance);
    if g >= v.generation {
        let k = (g - v.generation) as nat;
        let all = v.past + fresh_materials(cs, v.secret, v.generation as nat, k) + seq![None];
        if next.past.len() > 0 {
            assert(next.past[next.past.len() - 1] == all[all.len() - 1]);
        }
    }
}

/// A spent generation stays spent, whatever is asked next.
pub proof fn lemma_spent_stays(v: DecryptionView, cs: Ciphersuite, g: u32, h: u32, tolerance: u32, distance: u32)
    requires
        spent(v, g),
    ensures
        spent(decryption_after(v, cs, h, tolerance, distance), g),
{
    let w = decryption_after(v, cs, h, tolerance, distance);
    if w != v && h >= v.generation {
        let k = (h - v.generation) as nat;
        let all = v.past + fresh_materials(cs, v.secret, v.generation as nat, k) + seq![None];
        let cut = all.len() - w.past.len();
        let p = window_position(w, g);
        if p >= 0 {
            assert(w.past[p] == all[p + cut]);
            assert(p + cut == window_position(v, g));
        }
    }
}

/// A spent generation stays spent over any run of later requests.
pub proof fn lemma_spent_stays_all(v: DecryptionView, cs: Ciphersuite, g: u32, gs: Seq<u32>, tolerance: u32, distance: u32)
    requires
        spent(v, g),
        window_full(v, tolerance),
    ensures
        spent(decryption_after_all(v, cs, gs, tolerance, distance), g),
        window_full(decryption_after_all(v, cs, gs, tolerance, distance), tolerance),
    decreases gs.len(),
{
    if gs.len() > 0 {
        lemma_spent_stays(v, cs, g, gs[0], tolerance, distance);
        lemma_window_stays_full(v, cs, gs[0], tolerance, distance);
        lemma_spent_stays_all(decryption_after(v, cs, gs[0], tolerance, distance), cs, g, gs.drop_first(), tolerance, distance);
    }
}

/// Forward secrecy: once the key material of generation `g` was handed out,
/// every later request for `g`, after any run of other requests, is refused:
/// as a reuse while `g` lies within the tolerance below the head, as too old
/// once it lies further below.
pub proof fn lemma_never_handed_out_again(
    v: DecryptionView,
    cs: Ciphersuite,
    g: u32,
    gs: Seq<u32>,
    tolerance: u32,
    distance: u32,
)
    requires
        window_full(v, tolerance),
        decryption_refusal(v, g, tolerance, distance) is None,
        !decryption_crypto_failure(v, cs, g),
    ensures
        ({
            let w = decryption_after_all(decryption_next(v, cs, g, tolerance), cs, gs, tolerance, distance);
            &&& g < w.generation
            &&& decryption_refusal(w, g, tolerance, distance) == if w.generation - g > tolerance {
                Some(SecretTreeError::TooDistantInThePast)
            } else {
                Some(SecretTreeError::SecretReuseError)
            }
        }),
{
    lemma_handed_out_spent(v, cs, g, tolerance, distance);
    lemma_window_stays_full(v, cs, g, tolerance, distance);
    let n = decryption_next(v, cs, g, tolerance);
    lemma_spent_stays_all(n, cs, g, gs, tolerance, distance);
    let w = decryption_after_all(n, cs, gs, tolerance, distance);
    lemma_past_request(w, g, tolerance, distance);
}

/// Generation `g` lies below the head and is either still served from the
/// window or more than the tolerance below the head.
pub open spec fn unclaimed(v: DecryptionView, g: u32, tolerance: u32) -> bool {
    g < v.generation && (v.generation - g > tolerance || !spent(v, g))
}

/// A request for another generation leaves an unclaimed generation unclaimed.
pub proof fn lemma_unclaimed_stays(v: DecryptionView, cs: Ciphersuite, g: u32, h: u32, tolerance: u32, distance: u32)
    requires
        window_full(v, tolerance),
        unclaimed(v, g, tolerance),
        h != g,
    ensures
        unclaimed(decryption_after(v, cs, h, tolerance, distance), g, tolerance),
{
    let w = decryption_after(v, cs, h, tolerance, distance);
    lemma_window_stays_full(v, cs, h, tolerance, distance);
    if w != v && h >= v.generation && w.generation - g <= tolerance {
        let k = (h - v.generation) as nat;
        let all = v.past + fresh_materials(cs, v.secret, v.generation as nat, k) + seq![None];
        let cut = all.len() - w.past.len();
        let p = window_position(w, g);
        assert(p >= 0);
        assert(w.past[p] == all[p + cut]);
        assert(p + cut == window_position(v, g));
    } else if w != v && h < v.generation {
        assert(window_position(v, h) != window_position(v, g));
    }
}

/// A generation skipped by a request ahead of it stays available: after any
/// run of requests for other generations, asking for it is served as long as
/// it lies within the tolerance below the head.
pub proof fn lemma_skipped_stays_available(
    v: DecryptionView,
    cs: Ciphersuite,
    h: u32,
    g: u32,
    gs: Seq<u32>,
    tolerance: u32,
    distance: u32,
)
    requires
        window_full(v, tolerance),
        decryption_refusal(v, h, tolerance, distance) is None,
        !decryption_crypto_failure(v, cs, h),
        v.generation <= g < h,
        !gs.contains(g),
    ensures
        ({
            let w = decryption_after_all(decryption_next(v, cs, h, tolerance), cs, gs, tolerance, distance);
            w.generation - g <= tolerance ==> decryption_refusal(w, g, tolerance, distance) is None
        }),
{
    let n = decryption_next(v, cs, h, tolerance);
    lemma_window_stays_full(v, cs, h, tolerance, distance);
    let k = (h - v.generation) as nat;
    let all = v.past + fresh_materials(cs, v.secret, v.generation as nat, k) + seq![None];
    let cut = all.len() - n.past.len();
    if n.generation - g <= tolerance {
        let p = window_position(n, g);
        assert(p >= 0);
        assert(n.past[p] == all[p + cut]);
        assert(p + cut == v.past.len() + (g - v.generation));
    }
    assert(unclaimed(n, g, tolerance));
    lemma_unclaimed_stays_all(n, cs, g, gs, tolerance, distance);
    let w = decryption_after_all(n, cs, gs, tolerance, distance);
    lemma_past_request(w, g, tolerance, distance);
}

/// An unclaimed generation stays unclaimed over a run of requests for other
/// generations.
pub proof fn lemma_unclaimed_stays_all(v: DecryptionView, cs: Ciphersuite, g: u32, gs: Seq<u32>, tolerance: u32, distance: u32)
    requires
        window_full(v, tolerance),
        unclaimed(v, g, tolerance),
        !gs.contains(g),
    ensures
        unclaimed(decryption_after_all(v, cs, gs, tolerance, distance), g, tolerance),
        window_full(decryption_after_all(v, cs, gs, tolerance, distance), tolerance),
    decreases gs.len(),
{
    if gs.len() > 0 {
        assert(gs[0] != g) by {
            assert(gs.contains(gs[0]));
        }
        lemma_unclaimed_stays(v, cs, g, gs[0], tolerance, distance);
        lemma_window_stays_full(v, cs, gs[0], tolerance, distance);
        assert forall|x: u32| gs.drop_first().contains(x) implies gs.contains(x) by {
            let j = choose|j: int| 0 <= j < gs.drop_first().len() && gs.drop_first()[j] == x;
            assert(gs[j + 1] == x);
        }
        lemma_unclaimed_stays_all(decryption_after(v, cs, gs[0], tolerance, distance), cs, g, gs.drop_first(), tolerance, distance);
    }
}

/// A request for generation `g` is served: neither refused nor failed.
pub open spec fn request_served(v: DecryptionView, cs: Ciphersuite, g: u32, tolerance: u32, distance: u32) -> bool {
    decryption_refusal(v, g, tolerance, distance) is None && !decryption_crypto_failure(v, cs, g)
}

/// Some request of the run `gs`, made from state `v` on, was a served
/// request for generation `g`.
pub open spec fn served_in(v: DecryptionView, cs: Ciphersuite, gs: Seq<u32>, g: u32, tolerance: u32, distance: u32) -> bool
    decreases gs.len(),
{
    gs.len() > 0 && ((gs[0] == g && request_served(v, cs, g, tolerance, distance)) || served_in(
        decryption_after(v, cs, gs[0], tolerance, distance),
        cs,
        gs.drop_first(),
        g,
        tolerance,
        distance,
    ))
}

/// A served request ahead of generation `g` leaves `g` unclaimed.
proof fn lemma_skipped_unclaimed(v: DecryptionView, cs: Ciphersuite, h: u32, g: u32, tolerance: u32, distance: u32)
    requires
        window_full(v, tolerance),
        request_served(v, cs, h, tolerance, distance),
        v.generation <= g < h,
    ensures
        unclaimed(decryption_next(v, cs, h, tolerance), g, tolerance),
{
    let n = decryption_next(v, cs, h, tolerance);
    lemma_window_stays_full(v, cs, h, tolerance, distance);
    let k = (h - v.generation) as nat;
    let all = v.past + fresh_materials(cs, v.secret, v.generation as nat, k) + seq![None];
    let cut = all.len() - n.past.len();
    if n.generation - g <= tolerance {
        let p = window_position(n, g);
        assert(p >= 0);
        assert(n.past[p] == all[p + cut]);
        assert(p + cut == v.past.len() + (g - v.generation));
    }
}

/// Over a run of requests, generation `g` ends up spent if some request of
/// the run served it, and otherwise stays at or above the head or unclaimed,
/// provided it was at or above the head or unclaimed before the run.
proof fn lemma_served_history(v: DecryptionView, cs: Ciphersuite, gs: Seq<u32>, g: u32, tolerance: u32, distance: u32)
    requires
        window_full(v, tolerance),
        g >= v.generation || unclaimed(v, g, tolerance),
    ensures
        ({
            let w = decryption_after_all(v, cs, gs, tolerance, distance);
            &&& window_full(w, tolerance)
            &&& served_in(v, cs, gs, g, tolerance, distance) ==> spent(w, g)
            &&& !served_in(v, cs, gs, g, tolerance, distance) ==> (g >= w.generation || unclaimed(w, g, tolerance))
        }),
    decreases gs.len(),
{
    if gs.len() > 0 {
        let h = gs[0];
        let v1 = decryption_after(v, cs, h, tolerance, distance);
        let rest = gs.drop_first();
        lemma_window_stays_full(v, cs, h, tolerance, distance);
        if h == g && request_served(v, cs, g, tolerance, distance) {
            lemma_handed_out_spent(v, cs, g, tolerance, distance);
            lemma_spent_stays_all(v1, cs, g, rest, tolerance, distance);
        } else {
            if h != g && request_served(v, cs, h, tolerance, distance) {
                if g >= v.generation {
                    if h > g {
                        lemma_skipped_unclaimed(v, cs, h, g, tolerance, distance);
                    }
                } else {
                    lemma_unclaimed_stays(v, cs, g, h, tolerance, distance);
                }
            }
            assert(g >= v1.generation || unclaimed(v1, g, tolerance));
            lemma_served_history(v1, cs, rest, g, tolerance, distance);
        }
    }
}

/// Out-of-order decryption over the whole life of a ratchet: after any run
/// of requests `gs` (all with the same tolerance) to a new ratchet, a
/// request for a generation `g` below the head is refused as too old exactly
/// when `g` lies more than the tolerance below the head; within the
/// tolerance it is served exactly when no earlier request served `g`, and
/// refused as a reuse otherwise.
pub proof fn lemma_out_of_order_history(
    secret: Seq<u8>,
    cs: Ciphersuite,
    gs: Seq<u32>,
    g: u32,
    tolerance: u32,
    distance: u32,
)
    ensures
        ({
            let v0 = DecryptionView { secret, generation: 0, past: Seq::empty() };
            let w = decryption_after_all(v0, cs, gs, tolerance, distance);
            g < w.generation ==> decryption_refusal(w, g, tolerance, distance) == if w.generation - g > tolerance {
                Some(SecretTreeError::TooDistantInThePast)
            } else if served_in(v0, cs, gs, g, tolerance, distance) {
                Some(SecretTreeError::SecretReuseError)
            } else {
                None::<SecretTreeError>
            }
        }),
        ({
            let v0 = DecryptionView { secret, generation: 0, past: Seq::empty() };
            let w = decryption_after_all(v0, cs, gs, tolerance, distance);
            g < w.generation ==> decryption_after(w, cs, g, tolerance, distance).generation == w.generation
        }),
{
    let v0 = DecryptionView { secret, generation: 0, past: Seq::empty() };
    lemma_new_window_full(secret, tolerance);
    lemma_served_history(v0, cs, gs, g, tolerance, distance);
    let w = decryption_after_all(v0, cs, gs, tolerance, distance);
    if g < w.generation {
        lemma_past_request(w, g, tolerance, distance);
    }
}

/// The maximum forward distance counts from the head: a request more than
/// `distance` generations above the head `h` (where `h + distance` does not
/// pass `u32::MAX`) is refused as too distant in the future and changes
/// nothing; a request at the head or at most `distance` above it (below
/// `u32::MAX`) is never refused; and the refusal as too distant in the
/// future comes for nothing else.
pub proof fn lemma_forward_distance(v: DecryptionView, cs: Ciphersuite, g: u32, tolerance: u32, distance: u32)
    ensures
        v.generation < u32::MAX - distance && g > v.generation + distance ==> {
            &&& decryption_refusal(v, g, tolerance, distance) == Some(SecretTreeError::TooDistantInTheFuture)
            &&& decryption_after(v, cs, g, tolerance, distance) == v
        },
        v.generation <= g <= v.generation + distance && g < u32::MAX ==> decryption_refusal(v, g, tolerance, distance) is None,
        decryption_refusal(v, g, tolerance, distance) == Some(SecretTreeError::TooDistantInTheFuture) ==> g > v.generation
            + distance,
{
}

/// A sender ratchet of another member: hands out each generation's key material once.
#[derive(Debug, Clone, PartialEq, Eq)]
pub struct DecryptionRatchet {
    past_secrets: Vec<Option<RatchetKeyMaterial>>,
    ratchet_head: RatchetSecret,
}

impl View for DecryptionRatchet {
    type V = DecryptionView;

    closed spec fn view(&self) -> DecryptionView {
        DecryptionView {
            secret: self.ratchet_head.spec_secret(),
            generation: self.ratchet_head.spec_generation(),
            past: self.past_secrets@.map_values(|m: Option<RatchetKeyMaterial>| opt_material_view(m)),
        }
    }
}

impl DecryptionRatchet {
    /// A ratchet at generation zero with an empty window.
    pub fn new(secret: Secret) -> (r: DecryptionRatchet)
        ensures
            r@.secret == secret@,
            r@.generation == 0,
            r@.past == Seq::<Option<(Seq<u8>, Seq<u8>)>>::empty(),
    {
        let r = DecryptionRatchet {
            past_secrets: Vec::new(),
            ratchet_head: RatchetSecret::initial_ratchet_secret(secret),
        };
        assert(r@.past =~= Seq::<Option<(Seq<u8>, Seq<u8>)>>::empty());
        r
    }

    /// The generation of the chain head.
    pub fn generation(&self) -> (r: u32)
        ensures
            r == self@.generation,
    {
        self.ratchet_head.generation()
    }

    /// Moves the chain head to another generation, keeping its secret and the window.
    pub fn set_generation(&mut self, generation: u32)
        ensures
            final(self)@ == (DecryptionView { generation, ..old(self)@ }),
    {
        self.ratchet_head.set_generation(generation);
    }

    /// Hands out the key material of `generation`: ahead of the head the chain
    /// is ratcheted forward, keeping the skipped generations in the window;
    /// behind it the kept entry is taken out of the window.
    pub fn secret_for_decryption(
        &mut self,
        cs: Ciphersuite,
        crypto: &RustCrypto,
        generation: u32,
        configuration: &SenderRatchetConfiguration,
    ) -> (r: Result<RatchetKeyMaterial, SecretTreeError>)
        ensures
            ({
                let v = old(self)@;
                let tolerance = configuration.spec_tolerance();
                let distance = configuration.spec_distance();
                match decryption_refusal(v, generation, tolerance, distance) {
                    Some(e) => r == Err::<RatchetKeyMaterial, SecretTreeError>(e) && final(self)@ == v,
                    None => if decryption_crypto_failure(v, cs, generation) {
                        &&& r matches Err(SecretTreeError::CryptoError(_))
                        &&& final(self)@ == v
                    } else {
                        &&& r is Ok
                        &&& material_view(r->Ok_0) == decryption_material(v, cs, generation)
                        &&& final(self)@ == decryption_next(v, cs, generation, tolerance)
                    },
                }
            }),
            old(self)@.secret.len() == cs.spec_hash_length() ==> final(self)@.secret.len() == cs.spec_hash_length(),
            final(self)@ == decryption_after(old(self)@, cs, generation, configuration.spec_tolerance(), configuration.spec_distance()),
    {
        let ghost v = self@;
        let current = self.ratchet_head.generation();
        let tolerance = configuration.out_of_order_tolerance();
        let distance = configuration.maximum_forward_distance();
        if current < u32::MAX - distance && generation > current + distance {
            return Err(SecretTreeError::TooDistantInTheFuture);
        }
        if generation < current && current - generation > tolerance {
            return Err(SecretTreeError::TooDistantInThePast);
        }
        if generation >= current {
            if generation == u32::MAX {
                return Err(SecretTreeError::RatchetTooLong);
            }
            let mut head = self.ratchet_head.duplicate();
            let (mut fresh, material) = match ratchet_up_to(&mut head, crypto, cs, generation) {
                Ok(derived) => derived,
                Err(e) => {
                    return Err(e);
                },
            };
            self.ratchet_head = head;
            self.past_secrets.append(&mut fresh);
            self.past_secrets.push(None);
            let len = self.past_secrets.len();
            if len > tolerance as usize {
                let kept = self.past_secrets.split_off(len - tolerance as usize);
                self.past_secrets = kept;
            }
            assert(self@.past =~= decryption_next(v, cs, generation, tolerance).past);
            assert(self@.secret == decryption_next(v, cs, generation, tolerance).secret);
            assert(self@.generation == decryption_next(v, cs, generation, tolerance).generation);
            assert(material_view(material) == decryption_material(v, cs, generation));
            Ok(material)
        } else {
            let back = (current - generation - 1) as usize;
            let len = self.past_secrets.len();
            if back >= len {
                return Err(SecretTreeError::IndexOutOfBounds);
            }
            let position = len - 1 - back;
            let ghost old_vec = self.past_secrets@;
            let entry = self.past_secrets[position].take();
            assert(entry == old_vec[position as int]);
            assert(v.past[position as int] == opt_material_view(old_vec[position as int]));
            assert(self@.past =~= decryption_next(v, cs, generation, tolerance).past);
            match entry {
                Some(material) => Ok(material),
                None => {
                    assert(self@.past =~= v.past);
                    Err(SecretTreeError::SecretReuseError)
                },
            }
        }
    }
}

} // verus!
