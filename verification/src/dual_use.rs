//! A sender ratchet that both encrypts and decrypts: the leaf of a group
//! member that is shared by several devices. Its own messages are kept until
//! they are confirmed, so that another device of the member can decrypt
//! them, and generation lanes let each device send on generations of its own.
use vstd::prelude::*;
use crate::ciphersuite::Ciphersuite;
use crate::config::SenderRatchetConfiguration;
use crate::decryption::{keep_newest, lemma_chain_split};
use crate::error::SecretTreeError;
use crate::ratchet::{chain_secret, key_material, material_at, next_chain_secret, RatchetSecret};
use crate::secret::{copy_material, material_view, slice_to_bytes, AeadKey, AeadNonce, RatchetKeyMaterial, Secret};
use crate::tree::{LeafNodeIndex, TreeSize};
use openmls_rust_crypto::RustCrypto;

verus! {

/// An AEAD key and nonce as bytes.
pub type Material = (Seq<u8>, Seq<u8>);

/// What a dual-use ratchet holds, as values.
pub struct DualUseView {
    /// The chain head's secret and generation.
    pub secret: Seq<u8>,
    pub generation: u32,
    /// The receive window: generations skipped or received, oldest first,
    /// with the material of those not yet used.
    pub window: Seq<(u32, Option<Material>)>,
    /// The own messages not yet confirmed, oldest first.
    pub awaiting: Seq<(u32, Material)>,
}

/// The generations of `s` increase strictly.
pub open spec fn increasing<X>(s: Seq<(u32, X)>) -> bool {
    forall|i: int, j: int| 0 <= i < j < s.len() ==> s[i].0 < s[j].0
}

/// The generations of `s` lie below `g`.
pub open spec fn all_below<X>(s: Seq<(u32, X)>, g: u32) -> bool {
    forall|i: int| 0 <= i < s.len() ==> s[i].0 < g
}

/// `s` holds an entry of generation `g`.
pub open spec fn holds<X>(s: Seq<(u32, X)>, g: u32) -> bool {
    exists|k: int| 0 <= k < s.len() && s[k].0 == g
}

/// The position of the entry of generation `g` in `s` (where it holds one).
pub open spec fn slot_of<X>(s: Seq<(u32, X)>, g: u32) -> int {
    choose|k: int| 0 <= k < s.len() && s[k].0 == g
}

/// The key material of `k` generations from generation `g`, each with its generation.
pub open spec fn labeled_fresh(cs: Ciphersuite, s: Seq<u8>, g: nat, k: nat) -> Seq<(u32, Option<Material>)> {
    Seq::new(k, |j: int| ((g + j) as u32, Some(material_at(cs, s, g, j as nat))))
}

pub open spec fn opt_view(m: Option<RatchetKeyMaterial>) -> Option<Material> {
    match m {
        Some(k) => Some(material_view(k)),
        None => None,
    }
}

pub open spec fn window_entry_view(e: (u32, Option<RatchetKeyMaterial>)) -> (u32, Option<Material>) {
    (e.0, opt_view(e.1))
}

pub open spec fn awaiting_entry_view(e: (u32, RatchetKeyMaterial)) -> (u32, Material) {
    (e.0, material_view(e.1))
}

/// The error with which a request to decrypt generation `g` is refused, if any.
pub open spec fn dual_refusal(v: DualUseView, g: u32, tolerance: u32, distance: u32) -> Option<SecretTreeError> {
    if v.generation < u32::MAX - distance && g > v.generation + distance {
        Some(SecretTreeError::TooDistantInTheFuture)
    } else if g >= v.generation {
        if g == u32::MAX {
            Some(SecretTreeError::RatchetTooLong)
        } else {
            None
        }
    } else if holds(v.awaiting, g) {
        None
    } else if holds(v.window, g) {
        if v.window[slot_of(v.window, g)].1 is Some {
            None
        } else {
            Some(SecretTreeError::SecretReuseError)
        }
    } else if v.generation - g > tolerance {
        Some(SecretTreeError::TooDistantInThePast)
    } else {
        Some(SecretTreeError::SecretReuseError)
    }
}

/// The key material handed out for generation `g`.
pub open spec fn dual_material(v: DualUseView, cs: Ciphersuite, g: u32) -> Material {
    if g >= v.generation {
        material_at(cs, v.secret, v.generation as nat, (g - v.generation) as nat)
    } else if holds(v.awaiting, g) {
        v.awaiting[slot_of(v.awaiting, g)].1
    } else {
        v.window[slot_of(v.window, g)].1->Some_0
    }
}

/// The state after generation `g` was handed out for decryption.
pub open spec fn dual_next(v: DualUseView, cs: Ciphersuite, g: u32, tolerance: u32) -> DualUseView {
    if g >= v.generation {
        let k = (g - v.generation) as nat;
        DualUseView {
            secret: chain_secret(cs, v.secret, v.generation as nat, k + 1),
            generation: (g + 1) as u32,
            window: keep_newest(
                v.window + labeled_fresh(cs, v.secret, v.generation as nat, k) + seq![(g, None::<Material>)],
                tolerance as nat,
            ),
            awaiting: v.awaiting,
        }
    } else if holds(v.awaiting, g) {
        DualUseView { awaiting: v.awaiting.remove(slot_of(v.awaiting, g)), ..v }
    } else {
        DualUseView { window: v.window.update(slot_of(v.window, g), (g, None)), ..v }
    }
}

/// The offset from `head` to the first generation at or after it that lies
/// in the lane of `residue` among `width` lanes.
pub open spec fn lane_offset(head: u32, width: u32, residue: u32) -> nat {
    let m = head % width;
    if residue >= m {
        (residue - m) as nat
    } else {
        (residue + width - m) as nat
    }
}

/// The error with which a send in a generation lane is refused, if any.
pub open spec fn lane_refusal(v: DualUseView, width: u32, residue: u32, tolerance: u32, distance: u32) -> Option<
    SecretTreeError,
> {
    if residue >= width {
        Some(SecretTreeError::GenerationLaneInvalidResidue)
    } else if width - 1 > tolerance || width - 1 > distance {
        Some(SecretTreeError::GenerationLaneTooWide)
    } else if v.generation + lane_offset(v.generation, width, residue) >= u32::MAX {
        Some(SecretTreeError::RatchetTooLong)
    } else {
        None
    }
}

/// The state after a send in the lane of `residue`: the skipped generations
/// join the receive window, the sent one awaits confirmation.
pub open spec fn lane_next(v: DualUseView, cs: Ciphersuite, width: u32, residue: u32, tolerance: u32) -> DualUseView {
    let k = lane_offset(v.generation, width, residue);
    DualUseView {
        secret: chain_secret(cs, v.secret, v.generation as nat, k + 1),
        generation: (v.generation + k + 1) as u32,
        window: keep_newest(v.window + labeled_fresh(cs, v.secret, v.generation as nat, k), tolerance as nat),
        awaiting: v.awaiting.push(((v.generation + k) as u32, material_at(cs, v.secret, v.generation as nat, k))),
    }
}

/// The lane that a sending device uses: one of `width` residues.
#[derive(Debug, Clone, Copy, PartialEq, Eq)]
pub struct GenerationLaneContext {
    pub width: u32,
    pub residue: u32,
}

impl GenerationLaneContext {
    /// The lane of leaf `leaf` in an emulation group of the given size.
    pub fn new(tree_size: TreeSize, leaf: LeafNodeIndex) -> (r: GenerationLaneContext)
        ensures
            r.width == tree_size.spec_leaf_count(),
            r.residue == leaf.index,
    {
        GenerationLaneContext { width: tree_size.leaf_count(), residue: leaf.u32() }
    }
}

/// In an ordered sequence, the entry of a generation is unique.
pub proof fn lemma_slot_unique<X>(s: Seq<(u32, X)>, g: u32, k: int)
    requires
        increasing(s),
        0 <= k < s.len(),
        s[k].0 == g,
    ensures
        holds(s, g),
        slot_of(s, g) == k,
{
    assert(holds(s, g));
    let c = slot_of(s, g);
    if c < k {
        assert(s[c].0 < s[k].0);
    } else if c > k {
        assert(s[k].0 < s[c].0);
    }
}

/// The position of the entry of generation `g`, if there is one.
fn find_generation<X>(s: &Vec<(u32, X)>, g: u32) -> (r: Option<usize>)
    ensures
        r matches Some(k) ==> k < s@.len() && s@[k as int].0 == g,
        r is None ==> forall|k: int| 0 <= k < s@.len() ==> s@[k].0 != g,
{
    let mut i: usize = 0;
    while i < s.len()
        invariant
            i <= s@.len(),
            forall|k: int| 0 <= k < i ==> s@[k].0 != g,
        decreases s@.len() - i,
    {
        if s[i].0 == g {
            return Some(i);
        }
        i = i + 1;
    }
    None
}

/// Moves `head` forward to `head + k + 1`, collecting the key material of
/// the `k` skipped generations with their generations and returning that of
/// the last one.
fn ratchet_labeled(head: &mut RatchetSecret, crypto: &RustCrypto, cs: Ciphersuite, k: u32) -> (r: Result<
    (Vec<(u32, Option<RatchetKeyMaterial>)>, RatchetKeyMaterial),
    SecretTreeError,
>)
    requires
        old(head).spec_generation() + k < u32::MAX,
    ensures
        old(head).spec_secret().len() < cs.spec_hash_length() ==> r matches Err(SecretTreeError::CryptoError(_)),
        old(head).spec_secret().len() >= cs.spec_hash_length() ==> {
            let g0 = old(head).spec_generation() as nat;
            &&& r is Ok
            &&& r->Ok_0.0@.map_values(|e: (u32, Option<RatchetKeyMaterial>)| window_entry_view(e)) == labeled_fresh(
                cs,
                old(head).spec_secret(),
                g0,
                k as nat,
            )
            &&& material_view(r->Ok_0.1) == material_at(cs, old(head).spec_secret(), g0, k as nat)
            &&& final(head).spec_generation() == g0 + k + 1
            &&& final(head).spec_secret() == chain_secret(cs, old(head).spec_secret(), g0, k as nat + 1)
            &&& final(head).spec_secret().len() == cs.spec_hash_length()
        },
{
    let ghost s0 = head.spec_secret();
    let ghost g0 = head.spec_generation() as nat;
    let target = head.generation() + k;
    let mut fresh: Vec<(u32, Option<RatchetKeyMaterial>)> = Vec::new();
    while head.generation() < target
        invariant
            g0 <= head.spec_generation() <= target < u32::MAX,
            target == g0 + k,
            s0 == old(head).spec_secret(),
            g0 == old(head).spec_generation(),
            head.spec_secret() == chain_secret(cs, s0, g0, (head.spec_generation() - g0) as nat),
            head.spec_generation() > g0 ==> head.spec_secret().len() == cs.spec_hash_length(),
            head.spec_generation() > g0 ==> s0.len() >= cs.spec_hash_length(),
            fresh@.len() == head.spec_generation() - g0,
            forall|j: int| 0 <= j < fresh@.len() ==> #[trigger] window_entry_view(fresh@[j]) == ((g0 + j) as u32, Some(material_at(cs, s0, g0, j as nat))),
        decreases target - head.spec_generation(),
    {
        let n = head.generation();
        let ghost before = fresh@;
        let ghost secret_before = head.spec_secret();
        let ghost m = (n - g0) as nat;
        match head.ratchet_forward(crypto, cs) {
            Ok((_, material)) => {
                assert(secret_before.len() >= cs.spec_hash_length());
                assert(chain_secret(cs, s0, g0, m + 1) == next_chain_secret(cs, chain_secret(cs, s0, g0, m), g0 + m));
                assert(material_view(material) == material_at(cs, s0, g0, m));
                fresh.push((n, Some(material)));
                assert forall|j: int| 0 <= j < fresh@.len() implies #[trigger] window_entry_view(fresh@[j]) == (
                    (g0 + j) as u32,
                    Some(material_at(cs, s0, g0, j as nat)),
                ) by {
                    if j < m {
                        assert(fresh@[j] == before[j]);
                    }
                }
            },
            Err(e) => {
                assert(secret_before.len() < cs.spec_hash_length());
                assert(head.spec_generation() == g0);
                assert(chain_secret(cs, s0, g0, 0) == s0);
                assert(secret_before == s0);
                return Err(e);
            },
        }
    }
    assert(head.spec_generation() == g0 ==> chain_secret(cs, s0, g0, 0) == s0);
    let material = match head.ratchet_forward(crypto, cs) {
        Ok((_, material)) => material,
        Err(e) => {
            assert(head.spec_secret().len() < cs.spec_hash_length());
            assert(head.spec_generation() == g0);
            assert(head.spec_secret() == s0);
            return Err(e);
        },
    };
    assert(fresh@.map_values(|e: (u32, Option<RatchetKeyMaterial>)| window_entry_view(e)) =~= labeled_fresh(cs, s0, g0, k as nat));
    Ok((fresh, material))
}

/// The dual-use ratchet state `v` lies on the chain that starts with secret
/// `s0` at generation zero: the head holds the chain's secret of its
/// generation and every kept entry the key material of its generation.
pub open spec fn dual_follows(v: DualUseView, cs: Ciphersuite, s0: Seq<u8>) -> bool {
    &&& v.secret == chain_secret(cs, s0, 0, v.generation as nat)
    &&& forall|i: int|
        0 <= i < v.window.len() && (#[trigger] v.window[i]).1 is Some ==> v.window[i].1 == Some(
            material_at(cs, s0, 0, v.window[i].0 as nat),
        )
    &&& forall|i: int| 0 <= i < v.awaiting.len() ==> (#[trigger] v.awaiting[i]).1 == material_at(cs, s0, 0, v.awaiting[i].0 as nat)
}

/// Every key material that a dual-use ratchet hands out for decrypting
/// generation `g`, from the chain, from the receive window or from its own
/// messages, is the key material of generation `g` of the chain; and the
/// ratchet stays on the chain.
pub proof fn lemma_dual_decryption_follows_chain(
    v: DualUseView,
    cs: Ciphersuite,
    s0: Seq<u8>,
    g: u32,
    tolerance: u32,
    distance: u32,
)
    requires
        dual_follows(v, cs, s0),
        dual_refusal(v, g, tolerance, distance) is None,
    ensures
        dual_material(v, cs, g) == material_at(cs, s0, 0, g as nat),
        dual_follows(dual_next(v, cs, g, tolerance), cs, s0),
{
    let gen = v.generation as nat;
    if g >= v.generation {
        let k = (g - v.generation) as nat;
        lemma_chain_split(cs, s0, 0, gen, k);
        lemma_chain_split(cs, s0, 0, gen, k + 1);
        let fresh = labeled_fresh(cs, v.secret, gen, k);
        let all = v.window + fresh + seq![(g, None::<Material>)];
        let next = dual_next(v, cs, g, tolerance);
        let cut = all.len() - next.window.len();
        assert forall|i: int| 0 <= i < next.window.len() && (#[trigger] next.window[i]).1 is Some implies next.window[i].1
            == Some(material_at(cs, s0, 0, next.window[i].0 as nat)) by {
            let c = i + cut;
            assert(next.window[i] == all[c]);
            if c < v.window.len() {
                assert(all[c] == v.window[c]);
            } else if c < v.window.len() + k {
                let j = c - v.window.len();
                assert(all[c] == fresh[j]);
                lemma_chain_split(cs, s0, 0, gen, j as nat);
            }
        }
    } else if holds(v.awaiting, g) {
        let k = slot_of(v.awaiting, g);
        let next = dual_next(v, cs, g, tolerance);
        assert forall|i: int| 0 <= i < next.awaiting.len() implies (#[trigger] next.awaiting[i]).1 == material_at(
            cs,
            s0,
            0,
            next.awaiting[i].0 as nat,
        ) by {
            if i < k {
                assert(next.awaiting[i] == v.awaiting[i]);
            } else {
                assert(next.awaiting[i] == v.awaiting[i + 1]);
            }
        }
    } else {
        let k = slot_of(v.window, g);
        let next = dual_next(v, cs, g, tolerance);
        assert forall|i: int| 0 <= i < next.window.len() && (#[trigger] next.window[i]).1 is Some implies next.window[i].1
            == Some(material_at(cs, s0, 0, next.window[i].0 as nat)) by {
            assert(i != k);
            assert(next.window[i] == v.window[i]);
        }
    }
}

/// An own message's key material is that of its generation of the chain, and
/// the ratchet stays on the chain after sending it.
pub proof fn lemma_dual_encryption_follows_chain(v: DualUseView, cs: Ciphersuite, s0: Seq<u8>)
    requires
        dual_follows(v, cs, s0),
        v.generation < u32::MAX,
    ensures
        key_material(cs, v.secret, v.generation as nat) == material_at(cs, s0, 0, v.generation as nat),
        dual_follows(encrypt_next(v, cs), cs, s0),
{
    let next = encrypt_next(v, cs);
    assert(chain_secret(cs, s0, 0, (v.generation + 1) as nat) == next_chain_secret(
        cs,
        chain_secret(cs, s0, 0, v.generation as nat),
        v.generation as nat,
    ));
    assert forall|i: int| 0 <= i < next.awaiting.len() implies (#[trigger] next.awaiting[i]).1 == material_at(
        cs,
        s0,
        0,
        next.awaiting[i].0 as nat,
    ) by {
        if i < v.awaiting.len() {
            assert(next.awaiting[i] == v.awaiting[i]);
        }
    }
}

/// A lane send's key material is that of its generation of the chain, and the
/// ratchet stays on the chain after it.
pub proof fn lemma_lane_follows_chain(
    v: DualUseView,
    cs: Ciphersuite,
    s0: Seq<u8>,
    width: u32,
    residue: u32,
    tolerance: u32,
    distance: u32,
)
    requires
        dual_follows(v, cs, s0),
        lane_refusal(v, width, residue, tolerance, distance) is None,
    ensures
        material_at(cs, v.secret, v.generation as nat, lane_offset(v.generation, width, residue)) == material_at(
            cs,
            s0,
            0,
            (v.generation + lane_offset(v.generation, width, residue)) as nat,
        ),
        dual_follows(lane_next(v, cs, width, residue, tolerance), cs, s0),
{
    let gen = v.generation as nat;
    let k = lane_offset(v.generation, width, residue);
    lemma_chain_split(cs, s0, 0, gen, k);
    lemma_chain_split(cs, s0, 0, gen, k + 1);
    let fresh = labeled_fresh(cs, v.secret, gen, k);
    let all = v.window + fresh;
    let next = lane_next(v, cs, width, residue, tolerance);
    let cut = all.len() - next.window.len();
    assert forall|i: int| 0 <= i < next.window.len() && (#[trigger] next.window[i]).1 is Some implies next.window[i].1
        == Some(material_at(cs, s0, 0, next.window[i].0 as nat)) by {
        let c = i + cut;
        assert(next.window[i] == all[c]);
        if c < v.window.len() {
            assert(all[c] == v.window[c]);
        } else {
            let j = c - v.window.len();
            assert(all[c] == fresh[j]);
            lemma_chain_split(cs, s0, 0, gen, j as nat);
        }
    }
    assert forall|i: int| 0 <= i < next.awaiting.len() implies (#[trigger] next.awaiting[i]).1 == material_at(
        cs,
        s0,
        0,
        next.awaiting[i].0 as nat,
    ) by {
        if i < v.awaiting.len() {
            assert(next.awaiting[i] == v.awaiting[i]);
        }
    }
}

/// No generation's key material is handed out twice for decryption: once a
/// request succeeded, the same request is refused (given a non-empty
/// out-of-order window).
pub proof fn lemma_dual_handed_out_once(v: DualUseView, cs: Ciphersuite, g: u32, tolerance: u32, distance: u32)
    requires
        dual_wf(v),
        dual_refusal(v, g, tolerance, distance) is None,
        tolerance >= 1,
    ensures
        dual_refusal(dual_next(v, cs, g, tolerance), g, tolerance, distance) is Some,
{
    let next = dual_next(v, cs, g, tolerance);
    if g >= v.generation {
        let k = (g - v.generation) as nat;
        let all = v.window + labeled_fresh(cs, v.secret, v.generation as nat, k) + seq![(g, None::<Material>)];
        let last = next.window.len() - 1;
        assert(next.window[last] == all[all.len() - 1]);
        assert(!holds(next.awaiting, g)) by {
            if holds(next.awaiting, g) {
                let j = choose|j: int| 0 <= j < next.awaiting.len() && next.awaiting[j].0 == g;
                assert(v.awaiting[j].0 < v.generation);
            }
        }
        assert(increasing(next.window)) by {
            assert forall|i: int, j: int| 0 <= i < j < all.len() implies all[i].0 < all[j].0 by {
                if j < v.window.len() {
                } else if i < v.window.len() {
                    assert(v.window[i].0 < v.generation);
                }
            }
        }
        lemma_slot_unique(next.window, g, last);
    } else if holds(v.awaiting, g) {
        let k = slot_of(v.awaiting, g);
        assert(!holds(next.awaiting, g)) by {
            if holds(next.awaiting, g) {
                let j = choose|j: int| 0 <= j < next.awaiting.len() && next.awaiting[j].0 == g;
                if j < k {
                    assert(v.awaiting[j].0 < v.awaiting[k].0);
                } else {
                    assert(v.awaiting[j + 1].0 > v.awaiting[k].0);
                }
            }
        }
        assert(!holds(next.window, g)) by {
            if holds(next.window, g) {
                let j = choose|j: int| 0 <= j < next.window.len() && next.window[j].0 == g;
                assert(v.window[j].0 != v.awaiting[k].0);
            }
        }
    } else {
        let k = slot_of(v.window, g);
        assert(!holds(next.awaiting, g));
        lemma_slot_unique(next.window, g, k);
    }
}

/// The own message just sent can be decrypted by the sender's other devices
/// until it is confirmed, with the key material it was sent with.
pub proof fn lemma_own_message_decrypts(v: DualUseView, cs: Ciphersuite, tolerance: u32, distance: u32)
    requires
        dual_wf(v),
        v.generation < u32::MAX,
    ensures
        dual_refusal(encrypt_next(v, cs), v.generation, tolerance, distance) is None,
        dual_material(encrypt_next(v, cs), cs, v.generation) == key_material(cs, v.secret, v.generation as nat),
{
    let next = encrypt_next(v, cs);
    let last = v.awaiting.len() as int;
    assert(next.awaiting[last].0 == v.generation);
    assert(increasing(next.awaiting)) by {
        assert forall|i: int, j: int| 0 <= i < j < next.awaiting.len() implies next.awaiting[i].0 < next.awaiting[j].0 by {
            if j == last {
                assert(v.awaiting[i].0 < v.generation);
            }
        }
    }
    lemma_slot_unique(next.awaiting, v.generation, last);
}

/// Once an own message is confirmed, its generation can no longer be
/// decrypted.
pub proof fn lemma_confirmed_is_refused(v: DualUseView, g: u32, tolerance: u32, distance: u32)
    requires
        dual_wf(v),
        holds(v.awaiting, g),
    ensures
        dual_refusal(confirm_next(v, g), g, tolerance, distance) is Some,
{
    let k = slot_of(v.awaiting, g);
    let next = confirm_next(v, g);
    assert(v.awaiting[k].0 < v.generation);
    assert(!holds(next.awaiting, g)) by {
        if holds(next.awaiting, g) {
            let j = choose|j: int| 0 <= j < next.awaiting.len() && next.awaiting[j].0 == g;
            if j < k {
                assert(v.awaiting[j].0 < v.awaiting[k].0);
            } else {
                assert(v.awaiting[j + 1].0 > v.awaiting[k].0);
            }
        }
    }
    assert(!holds(next.window, g)) by {
        if holds(next.window, g) {
            let j = choose|j: int| 0 <= j < next.window.len() && next.window[j].0 == g;
            assert(v.window[j].0 != v.awaiting[k].0);
        }
    }
}

/// A lane send lands in its lane, at most one lane width after the head.
pub proof fn lemma_lane_target(head: u32, width: u32, residue: u32)
    requires
        residue < width,
    ensures
        lane_offset(head, width, residue) < width,
        (head + lane_offset(head, width, residue)) % (width as int) == residue,
{
    let w = width as int;
    let m = head as int % w;
    let q = head as int / w;
    vstd::arithmetic::div_mod::lemma_fundamental_div_mod(head as int, w);
    assert(head as int == w * q + m);
    let k = lane_offset(head, width, residue) as int;
    if residue >= m {
        assert(head + k == w * q + residue);
        vstd::arithmetic::div_mod::lemma_mod_multiples_vanish(q, residue as int, w);
    } else {
        assert(head + k == w * (q + 1) + residue) by (nonlinear_arith)
            requires
                head as int == w * q + m,
                k == residue + w - m,
        ;
        vstd::arithmetic::div_mod::lemma_mod_multiples_vanish(q + 1, residue as int, w);
    }
    vstd::arithmetic::div_mod::lemma_small_mod(residue as nat, width as nat);
}

/// A sender ratchet that encrypts and decrypts on the same chain.
#[derive(Debug, Clone, PartialEq, Eq)]
pub struct DualUseRatchet {
    ratchet_head: RatchetSecret,
    window: Vec<(u32, Option<RatchetKeyMaterial>)>,
    awaiting: Vec<(u32, RatchetKeyMaterial)>,
}

impl View for DualUseRatchet {
    type V = DualUseView;

    closed spec fn view(&self) -> DualUseView {
        DualUseView {
            secret: self.ratchet_head.spec_secret(),
            generation: self.ratchet_head.spec_generation(),
            window: self.window@.map_values(|e: (u32, Option<RatchetKeyMaterial>)| window_entry_view(e)),
            awaiting: self.awaiting@.map_values(|e: (u32, RatchetKeyMaterial)| awaiting_entry_view(e)),
        }
    }
}

/// The entries of a dual-use ratchet are ordered, lie below the head, and
/// no generation is both in the receive window and awaiting confirmation.
pub open spec fn dual_wf(v: DualUseView) -> bool {
    &&& increasing(v.window)
    &&& increasing(v.awaiting)
    &&& all_below(v.window, v.generation)
    &&& all_below(v.awaiting, v.generation)
    &&& forall|i: int, j: int| 0 <= i < v.window.len() && 0 <= j < v.awaiting.len() ==> v.window[i].0 != v.awaiting[j].0
}

/// The state after an own message was sent at the head's generation.
pub open spec fn encrypt_next(v: DualUseView, cs: Ciphersuite) -> DualUseView {
    DualUseView {
        secret: next_chain_secret(cs, v.secret, v.generation as nat),
        generation: (v.generation + 1) as u32,
        window: v.window,
        awaiting: v.awaiting.push((v.generation, key_material(cs, v.secret, v.generation as nat))),
    }
}

/// The state after the own message of generation `g` was confirmed.
pub open spec fn confirm_next(v: DualUseView, g: u32) -> DualUseView {
    if holds(v.awaiting, g) {
        DualUseView { awaiting: v.awaiting.remove(slot_of(v.awaiting, g)), ..v }
    } else {
        v
    }
}

/// A request to a dual-use ratchet.
pub enum DualOp {
    /// Send an own message at the head's generation.
    Send,
    /// Send an own message in the lane of `residue` among `width` lanes.
    LaneSend { width: u32, residue: u32 },
    /// Confirm the own message of a generation.
    Confirm(u32),
    /// Decrypt a message of a generation.
    Decrypt(u32),
}

/// The state after a request, whatever its outcome: a refused or failed
/// request leaves the ratchet as it was.
pub open spec fn dual_after(v: DualUseView, cs: Ciphersuite, op: DualOp, tolerance: u32, distance: u32) -> DualUseView {
    match op {
        DualOp::Send => if v.generation == u32::MAX || v.secret.len() < cs.spec_hash_length() {
            v
        } else {
            encrypt_next(v, cs)
        },
        DualOp::LaneSend { width, residue } => if lane_refusal(v, width, residue, tolerance, distance) is Some
            || v.secret.len() < cs.spec_hash_length() {
            v
        } else {
            lane_next(v, cs, width, residue, tolerance)
        },
        DualOp::Confirm(g) => confirm_next(v, g),
        DualOp::Decrypt(g) => if dual_refusal(v, g, tolerance, distance) is Some || (g >= v.generation
            && v.secret.len() < cs.spec_hash_length()) {
            v
        } else {
            dual_next(v, cs, g, tolerance)
        },
    }
}

/// The state after the requests `ops`, in that order.
pub open spec fn dual_after_all(v: DualUseView, cs: Ciphersuite, ops: Seq<DualOp>, tolerance: u32, distance: u32) -> DualUseView
    decreases ops.len(),
{
    if ops.len() == 0 {
        v
    } else {
        dual_after_all(dual_after(v, cs, ops[0], tolerance, distance), cs, ops.drop_first(), tolerance, distance)
    }
}

/// The request neither confirms nor decrypts generation `g`.
pub open spec fn leaves_alone(op: DualOp, g: u32) -> bool {
    match op {
        DualOp::Confirm(h) => h != g,
        DualOp::Decrypt(h) => h != g,
        _ => true,
    }
}

/// The request is an own send or a confirmation.
pub open spec fn is_local(op: DualOp) -> bool {
    op is Send || op is Confirm
}

/// Removing another entry keeps an entry of a sequence.
proof fn lemma_remove_keeps<X>(s: Seq<X>, j: int, e: X)
    requires
        0 <= j < s.len(),
        s.contains(e),
        s[j] != e,
    ensures
        s.remove(j).contains(e),
{
    let k = choose|k: int| 0 <= k < s.len() && s[k] == e;
    if k < j {
        assert(s.remove(j)[k] == e);
    } else {
        assert(s.remove(j)[k - 1] == e);
    }
}

/// One request that neither confirms nor decrypts generation `g` keeps the
/// own message of `g` awaiting confirmation, with its key material.
pub proof fn lemma_awaiting_kept(v: DualUseView, cs: Ciphersuite, op: DualOp, g: u32, m: Material, tolerance: u32, distance: u32)
    requires
        v.awaiting.contains((g, m)),
        g < v.generation,
        leaves_alone(op, g),
    ensures
        dual_after(v, cs, op, tolerance, distance).awaiting.contains((g, m)),
        g < dual_after(v, cs, op, tolerance, distance).generation,
{
    let w = dual_after(v, cs, op, tolerance, distance);
    let k = choose|k: int| 0 <= k < v.awaiting.len() && v.awaiting[k] == (g, m);
    match op {
        DualOp::Send => {
            if w != v {
                assert(w.awaiting[k] == (g, m));
            }
        },
        DualOp::LaneSend { width, residue } => {
            if w != v {
                assert(w.awaiting[k] == (g, m));
            }
        },
        DualOp::Confirm(h) => {
            if holds(v.awaiting, h) {
                let j = slot_of(v.awaiting, h);
                lemma_remove_keeps(v.awaiting, j, (g, m));
            }
        },
        DualOp::Decrypt(h) => {
            if w != v && h < v.generation && holds(v.awaiting, h) {
                let j = slot_of(v.awaiting, h);
                lemma_remove_keeps(v.awaiting, j, (g, m));
            }
        },
    }
}

/// An own message awaiting confirmation can be decrypted by the sender's
/// other devices, with the key material it was sent with kept, after any run
/// of requests that neither confirm nor decrypt it: sends, lane sends,
/// confirmations and decryptions of other generations. This holds whatever
/// the distance to the head and whatever the out-of-order tolerance.
pub proof fn lemma_awaiting_decrypts(
    v: DualUseView,
    cs: Ciphersuite,
    ops: Seq<DualOp>,
    g: u32,
    m: Material,
    tolerance: u32,
    distance: u32,
)
    requires
        v.awaiting.contains((g, m)),
        g < v.generation,
        forall|i: int| 0 <= i < ops.len() ==> leaves_alone(#[trigger] ops[i], g),
    ensures
        ({
            let w = dual_after_all(v, cs, ops, tolerance, distance);
            &&& w.awaiting.contains((g, m))
            &&& g < w.generation
            &&& dual_refusal(w, g, tolerance, distance) is None
        }),
    decreases ops.len(),
{
    if ops.len() > 0 {
        assert(leaves_alone(ops[0], g));
        lemma_awaiting_kept(v, cs, ops[0], g, m, tolerance, distance);
        assert forall|i: int| 0 <= i < ops.drop_first().len() implies leaves_alone(#[trigger] ops.drop_first()[i], g) by {
            assert(ops.drop_first()[i] == ops[i + 1]);
            assert(leaves_alone(ops[i + 1], g));
        }
        lemma_awaiting_decrypts(dual_after(v, cs, ops[0], tolerance, distance), cs, ops.drop_first(), g, m, tolerance, distance);
    } else {
        let k = choose|k: int| 0 <= k < v.awaiting.len() && v.awaiting[k] == (g, m);
        assert(v.awaiting[k].0 == g);
    }
}

/// Own sends and confirmations leave the receive window as it is: they take
/// no slot of it, and a generation kept there for receiving is still served,
/// after any run of them.
pub proof fn lemma_sends_keep_receive_window(
    v: DualUseView,
    cs: Ciphersuite,
    ops: Seq<DualOp>,
    g: u32,
    tolerance: u32,
    distance: u32,
)
    requires
        forall|i: int| 0 <= i < ops.len() ==> is_local(#[trigger] ops[i]),
        g < v.generation,
        !holds(v.awaiting, g),
        dual_refusal(v, g, tolerance, distance) is None,
    ensures
        ({
            let w = dual_after_all(v, cs, ops, tolerance, distance);
            &&& w.window == v.window
            &&& w.generation >= v.generation
            &&& !holds(w.awaiting, g)
            &&& dual_refusal(w, g, tolerance, distance) is None
        }),
    decreases ops.len(),
{
    if ops.len() > 0 {
        let w1 = dual_after(v, cs, ops[0], tolerance, distance);
        assert(is_local(ops[0]));
        assert(!holds(w1.awaiting, g)) by {
            if holds(w1.awaiting, g) {
                let j = choose|j: int| 0 <= j < w1.awaiting.len() && w1.awaiting[j].0 == g;
                match ops[0] {
                    DualOp::Send => {
                        if w1 != v && j == v.awaiting.len() {
                        } else {
                            assert(v.awaiting[j].0 == g);
                        }
                    },
                    DualOp::Confirm(h) => {
                        if holds(v.awaiting, h) {
                            let s = slot_of(v.awaiting, h);
                            if j < s {
                                assert(v.awaiting[j].0 == g);
                            } else {
                                assert(v.awaiting[j + 1].0 == g);
                            }
                        } else {
                            assert(v.awaiting[j].0 == g);
                        }
                    },
                    _ => {},
                }
            }
        }
        assert(dual_refusal(w1, g, tolerance, distance) is None);
        assert forall|i: int| 0 <= i < ops.drop_first().len() implies is_local(#[trigger] ops.drop_first()[i]) by {
            assert(ops.drop_first()[i] == ops[i + 1]);
            assert(is_local(ops[i + 1]));
        }
        lemma_sends_keep_receive_window(w1, cs, ops.drop_first(), g, tolerance, distance);
    }
}

/// Generation `g` lies below the head, no own message of it awaits
/// confirmation, and every receive-window entry of it was used.
pub open spec fn dual_spent(v: DualUseView, g: u32) -> bool {
    &&& g < v.generation
    &&& !holds(v.awaiting, g)
    &&& forall|i: int| 0 <= i < v.window.len() && (#[trigger] v.window[i]).0 == g ==> v.window[i].1 is None
}

/// A spent generation is refused.
pub proof fn lemma_dual_spent_refused(v: DualUseView, g: u32, tolerance: u32, distance: u32)
    requires
        dual_spent(v, g),
    ensures
        dual_refusal(v, g, tolerance, distance) is Some,
{
    if holds(v.window, g) {
        let k = slot_of(v.window, g);
        assert(v.window[k].0 == g);
    }
}

/// Removing an entry keeps a generation out of a sequence.
proof fn lemma_remove_not_holds<X>(s: Seq<(u32, X)>, j: int, g: u32)
    requires
        0 <= j < s.len(),
        !holds(s, g),
    ensures
        !holds(s.remove(j), g),
{
    if holds(s.remove(j), g) {
        let k = choose|k: int| 0 <= k < s.remove(j).len() && s.remove(j)[k].0 == g;
        if k < j {
            assert(s[k].0 == g);
        } else {
            assert(s[k + 1].0 == g);
        }
    }
}

/// Appending entries of generations other than `g` keeps `g` out of a
/// sequence.
proof fn lemma_push_not_holds<X>(s: Seq<(u32, X)>, e: (u32, X), g: u32)
    requires
        !holds(s, g),
        e.0 != g,
    ensures
        !holds(s.push(e), g),
{
    if holds(s.push(e), g) {
        let k = choose|k: int| 0 <= k < s.push(e).len() && s.push(e)[k].0 == g;
        if k < s.len() {
            assert(s[k].0 == g);
        }
    }
}

/// A window made of `old`, whose entries of generation `g` were used, and of
/// entries of generations above `g`, cut to its newest entries, has only
/// used entries of generation `g`.
proof fn lemma_cut_window_spent(old: Seq<(u32, Option<Material>)>, added: Seq<(u32, Option<Material>)>, g: u32, n: nat)
    requires
        forall|i: int| 0 <= i < old.len() && (#[trigger] old[i]).0 == g ==> old[i].1 is None,
        forall|i: int| 0 <= i < added.len() && (#[trigger] added[i]).0 == g ==> added[i].1 is None,
    ensures
        ({
            let w = keep_newest(old + added, n);
            forall|i: int| 0 <= i < w.len() && (#[trigger] w[i]).0 == g ==> w[i].1 is None
        }),
{
    let all = old + added;
    let w = keep_newest(all, n);
    let cut = all.len() - w.len();
    assert forall|i: int| 0 <= i < w.len() && (#[trigger] w[i]).0 == g implies w[i].1 is None by {
        assert(w[i] == all[i + cut]);
        if i + cut < old.len() {
            assert(all[i + cut] == old[i + cut]);
        } else {
            assert(all[i + cut] == added[i + cut - old.len()]);
        }
    }
}

/// Whatever is asked next, a spent generation stays spent.
pub proof fn lemma_dual_spent_stays(v: DualUseView, cs: Ciphersuite, op: DualOp, g: u32, tolerance: u32, distance: u32)
    requires
        dual_spent(v, g),
    ensures
        dual_spent(dual_after(v, cs, op, tolerance, distance), g),
{
    let w = dual_after(v, cs, op, tolerance, distance);
    lemma_dual_spent_refused(v, g, tolerance, distance);
    match op {
        DualOp::Send => {
            if w != v {
                lemma_push_not_holds(v.awaiting, (v.generation, key_material(cs, v.secret, v.generation as nat)), g);
            }
        },
        DualOp::LaneSend { width, residue } => {
            if w != v {
                let k = lane_offset(v.generation, width, residue);
                let fresh = labeled_fresh(cs, v.secret, v.generation as nat, k);
                assert forall|i: int| 0 <= i < fresh.len() && (#[trigger] fresh[i]).0 == g implies fresh[i].1 is None by {
                    assert(fresh[i].0 == (v.generation + i) as u32);
                }
                lemma_cut_window_spent(v.window, fresh, g, tolerance as nat);
                lemma_push_not_holds(v.awaiting, ((v.generation + k) as u32, material_at(cs, v.secret, v.generation as nat, k)), g);
            }
        },
        DualOp::Confirm(h) => {
            if holds(v.awaiting, h) {
                lemma_remove_not_holds(v.awaiting, slot_of(v.awaiting, h), g);
            }
        },
        DualOp::Decrypt(h) => {
            if w != v {
                assert(h != g);
                if h >= v.generation {
                    let k = (h - v.generation) as nat;
                    let added = labeled_fresh(cs, v.secret, v.generation as nat, k) + seq![(h, None::<Material>)];
                    assert forall|i: int| 0 <= i < added.len() && (#[trigger] added[i]).0 == g implies added[i].1 is None by {
                        if i < k {
                            assert(added[i].0 == (v.generation + i) as u32);
                        }
                    }
                    assert(v.window + labeled_fresh(cs, v.secret, v.generation as nat, k) + seq![(h, None::<Material>)]
                        =~= v.window + added);
                    lemma_cut_window_spent(v.window, added, g, tolerance as nat);
                } else if holds(v.awaiting, h) {
                    lemma_remove_not_holds(v.awaiting, slot_of(v.awaiting, h), g);
                } else {
                    let k = slot_of(v.window, h);
                    assert forall|i: int| 0 <= i < w.window.len() && (#[trigger] w.window[i]).0 == g implies w.window[i].1 is None by {
                        if i != k {
                            assert(w.window[i] == v.window[i]);
                        }
                    }
                }
            }
        },
    }
}

/// Handing out generation `g` for decryption spends it.
pub proof fn lemma_dual_handed_out_spent(v: DualUseView, cs: Ciphersuite, g: u32, tolerance: u32, distance: u32)
    requires
        dual_wf(v),
        dual_refusal(v, g, tolerance, distance) is None,
    ensures
        dual_spent(dual_next(v, cs, g, tolerance), g),
{
    let next = dual_next(v, cs, g, tolerance);
    if g >= v.generation {
        let k = (g - v.generation) as nat;
        let fresh = labeled_fresh(cs, v.secret, v.generation as nat, k);
        let added = fresh + seq![(g, None::<Material>)];
        assert forall|i: int| 0 <= i < v.window.len() && (#[trigger] v.window[i]).0 == g implies v.window[i].1 is None by {
            assert(v.window[i].0 < v.generation);
        }
        assert forall|i: int| 0 <= i < added.len() && (#[trigger] added[i]).0 == g implies added[i].1 is None by {
            if i < k {
                assert(added[i] == fresh[i]);
                assert(fresh[i].0 == (v.generation + i) as u32);
            }
        }
        assert(v.window + fresh + seq![(g, None::<Material>)] =~= v.window + added);
        lemma_cut_window_spent(v.window, added, g, tolerance as nat);
        assert(!holds(v.awaiting, g)) by {
            if holds(v.awaiting, g) {
                let j = choose|j: int| 0 <= j < v.awaiting.len() && v.awaiting[j].0 == g;
                assert(v.awaiting[j].0 < v.generation);
            }
        }
    } else if holds(v.awaiting, g) {
        let j = slot_of(v.awaiting, g);
        assert(!holds(next.awaiting, g)) by {
            if holds(next.awaiting, g) {
                let k = choose|k: int| 0 <= k < next.awaiting.len() && next.awaiting[k].0 == g;
                if k < j {
                    assert(v.awaiting[k].0 < v.awaiting[j].0);
                } else {
                    assert(v.awaiting[k + 1].0 > v.awaiting[j].0);
                }
            }
        }
        assert forall|i: int| 0 <= i < next.window.len() && (#[trigger] next.window[i]).0 == g implies next.window[i].1 is None by {
            assert(v.window[i].0 != v.awaiting[j].0);
        }
    } else {
        let j = slot_of(v.window, g);
        assert forall|i: int| 0 <= i < next.window.len() && (#[trigger] next.window[i]).0 == g implies next.window[i].1 is None by {
            if i != j {
                if i < j {
                    assert(v.window[i].0 < v.window[j].0);
                } else {
                    assert(v.window[j].0 < v.window[i].0);
                }
            }
        }
    }
}

/// A spent generation stays spent over any run of requests.
pub proof fn lemma_dual_spent_stays_all(v: DualUseView, cs: Ciphersuite, ops: Seq<DualOp>, g: u32, tolerance: u32, distance: u32)
    requires
        dual_spent(v, g),
    ensures
        dual_spent(dual_after_all(v, cs, ops, tolerance, distance), g),
    decreases ops.len(),
{
    if ops.len() > 0 {
        lemma_dual_spent_stays(v, cs, ops[0], g, tolerance, distance);
        lemma_dual_spent_stays_all(dual_after(v, cs, ops[0], tolerance, distance), cs, ops.drop_first(), g, tolerance, distance);
    }
}

/// Forward secrecy of a dual-use ratchet: once the key material of
/// generation `g` was handed out for decryption, every later request to
/// decrypt `g`, after any run of sends, lane sends, confirmations and
/// decryptions, is refused.
pub proof fn lemma_dual_never_handed_out_again(
    v: DualUseView,
    cs: Ciphersuite,
    g: u32,
    ops: Seq<DualOp>,
    tolerance: u32,
    distance: u32,
)
    requires
        dual_wf(v),
        dual_refusal(v, g, tolerance, distance) is None,
    ensures
        dual_refusal(dual_after_all(dual_next(v, cs, g, tolerance), cs, ops, tolerance, distance), g, tolerance, distance) is Some,
{
    lemma_dual_handed_out_spent(v, cs, g, tolerance, distance);
    let n = dual_next(v, cs, g, tolerance);
    lemma_dual_spent_stays_all(n, cs, ops, g, tolerance, distance);
    lemma_dual_spent_refused(dual_after_all(n, cs, ops, tolerance, distance), g, tolerance, distance);
}

/// The maximum forward distance of a dual-use ratchet counts from the head:
/// a request to decrypt more than `distance` generations above the head `h`
/// (where `h + distance` does not pass `u32::MAX`) is refused as too distant
/// in the future and changes nothing; a request at the head or at most
/// `distance` above it (below `u32::MAX`) is never refused; and the refusal
/// as too distant in the future comes for nothing else.
pub proof fn lemma_dual_forward_distance(v: DualUseView, cs: Ciphersuite, g: u32, tolerance: u32, distance: u32)
    ensures
        v.generation < u32::MAX - distance && g > v.generation + distance ==> {
            &&& dual_refusal(v, g, tolerance, distance) == Some(SecretTreeError::TooDistantInTheFuture)
            &&& dual_after(v, cs, DualOp::Decrypt(g), tolerance, distance) == v
        },
        v.generation <= g <= v.generation + distance && g < u32::MAX ==> dual_refusal(v, g, tolerance, distance) is None,
        dual_refusal(v, g, tolerance, distance) == Some(SecretTreeError::TooDistantInTheFuture) ==> g > v.generation + distance,
{
}

/// The number of leading entries of `s` that lie below `g`, for an ordered `s`.
pub open spec fn prefix_below<X>(s: Seq<(u32, X)>, g: u32) -> nat
    decreases s.len(),
{
    if s.len() == 0 {
        0
    } else if s.last().0 < g {
        s.len()
    } else {
        prefix_below(s.drop_last(), g)
    }
}

/// The entries of an ordered `s` that lie below `g`.
pub open spec fn keep_below<X>(s: Seq<(u32, X)>, g: u32) -> Seq<(u32, X)> {
    s.take(prefix_below(s, g) as int)
}

/// Of an ordered sequence, `keep_below` keeps exactly the entries below `g`.
pub proof fn lemma_keep_below<X>(s: Seq<(u32, X)>, g: u32)
    requires
        increasing(s),
    ensures
        prefix_below(s, g) <= s.len(),
        increasing(keep_below(s, g)),
        forall|i: int| 0 <= i < s.len() ==> (i < prefix_below(s, g) <==> #[trigger] s[i].0 < g),
    decreases s.len(),
{
    if s.len() > 0 {
        if s.last().0 < g {
            assert forall|i: int| 0 <= i < s.len() implies (i < prefix_below(s, g) <==> #[trigger] s[i].0 < g) by {
                if i < s.len() - 1 {
                    assert(s[i].0 < s[s.len() - 1].0);
                }
            }
        } else {
            let t = s.drop_last();
            assert(increasing(t)) by {
                assert forall|i: int, j: int| 0 <= i < j < t.len() implies t[i].0 < t[j].0 by {
                    assert(t[i] == s[i] && t[j] == s[j]);
                }
            }
            lemma_keep_below(t, g);
            assert forall|i: int| 0 <= i < s.len() implies (i < prefix_below(s, g) <==> #[trigger] s[i].0 < g) by {
                if i < s.len() - 1 {
                    assert(s[i] == t[i]);
                    assert(t[i].0 < g <==> i < prefix_below(t, g));
                } else {
                    assert(prefix_below(s, g) == prefix_below(t, g));
                }
            }
        }
    }
}

/// The state of a dual-use ratchet as plain values, to be stored and read
/// back: the chain head, the receive window and the own messages awaiting
/// confirmation, each material as its key and nonce bytes.
pub struct DualUseState {
    pub secret: Vec<u8>,
    pub generation: u32,
    pub window: Vec<(u32, Option<(Vec<u8>, Vec<u8>)>)>,
    pub awaiting: Vec<(u32, (Vec<u8>, Vec<u8>))>,
}

pub open spec fn stored_window_entry(e: (u32, Option<(Vec<u8>, Vec<u8>)>)) -> (u32, Option<Material>) {
    (
        e.0,
        match e.1 {
            Some(m) => Some((m.0@, m.1@)),
            None => None,
        },
    )
}

pub open spec fn stored_awaiting_entry(e: (u32, (Vec<u8>, Vec<u8>))) -> (u32, Material) {
    (e.0, (e.1.0@, e.1.1@))
}

impl View for DualUseState {
    type V = DualUseView;

    open spec fn view(&self) -> DualUseView {
        DualUseView {
            secret: self.secret@,
            generation: self.generation,
            window: self.window@.map_values(|e: (u32, Option<(Vec<u8>, Vec<u8>)>)| stored_window_entry(e)),
            awaiting: self.awaiting@.map_values(|e: (u32, (Vec<u8>, Vec<u8>))| stored_awaiting_entry(e)),
        }
    }
}

/// Whether the generations of `s` increase strictly.
fn check_increasing<X>(s: &Vec<(u32, X)>) -> (b: bool)
    ensures
        b == increasing(s@),
{
    let mut i: usize = 1;
    while i < s.len()
        invariant
            1 <= i,
            forall|a: int, c: int| 0 <= a < c < i && c < s@.len() ==> s@[a].0 < s@[c].0,
        decreases s.len() - i,
    {
        if s[i - 1].0 >= s[i].0 {
            return false;
        }
        assert forall|a: int, c: int| 0 <= a < c < i + 1 && c < s@.len() implies s@[a].0 < s@[c].0 by {
            if c == i && a < i - 1 {
                assert(s@[a].0 < s@[i - 1].0);
            }
        }
        i = i + 1;
    }
    true
}

/// Whether the generations of `s` lie below `g`.
fn check_below<X>(s: &Vec<(u32, X)>, g: u32) -> (b: bool)
    ensures
        b == all_below(s@, g),
{
    let mut i: usize = 0;
    while i < s.len()
        invariant
            i <= s@.len(),
            forall|k: int| 0 <= k < i ==> s@[k].0 < g,
        decreases s.len() - i,
    {
        if s[i].0 >= g {
            return false;
        }
        i = i + 1;
    }
    true
}

/// Whether no generation lies in both `a` and `c`.
fn check_disjoint<X, Y>(a: &Vec<(u32, X)>, c: &Vec<(u32, Y)>) -> (b: bool)
    ensures
        b == forall|i: int, j: int| 0 <= i < a@.len() && 0 <= j < c@.len() ==> a@[i].0 != c@[j].0,
{
    let mut i: usize = 0;
    while i < a.len()
        invariant
            i <= a@.len(),
            forall|x: int, y: int| 0 <= x < i && 0 <= y < c@.len() ==> a@[x].0 != c@[y].0,
        decreases a.len() - i,
    {
        let mut j: usize = 0;
        while j < c.len()
            invariant
                i < a@.len(),
                j <= c@.len(),
                forall|x: int, y: int| 0 <= x < i && 0 <= y < c@.len() ==> a@[x].0 != c@[y].0,
                forall|y: int| 0 <= y < j ==> a@[i as int].0 != c@[y].0,
            decreases c.len() - j,
        {
            if a[i].0 == c[j].0 {
                return false;
            }
            j = j + 1;
        }
        i = i + 1;
    }
    true
}

impl DualUseRatchet {
    /// A ratchet at generation zero that holds nothing else.
    pub fn new(secret: Secret) -> (r: DualUseRatchet)
        ensures
            r@ == (DualUseView { secret: secret@, generation: 0, window: Seq::empty(), awaiting: Seq::empty() }),
            dual_wf(r@),
    {
        let r = DualUseRatchet {
            ratchet_head: RatchetSecret::initial_ratchet_secret(secret),
            window: Vec::new(),
            awaiting: Vec::new(),
        };
        assert(r@.window =~= Seq::<(u32, Option<Material>)>::empty());
        assert(r@.awaiting =~= Seq::<(u32, Material)>::empty());
        r
    }

    /// The generation of the chain head.
    pub fn generation(&self) -> (r: u32)
        ensures
            r == self@.generation,
    {
        self.ratchet_head.generation()
    }

    /// Moves the chain head to another generation, keeping its secret and
    /// dropping the entries at or above the new head.
    pub fn set_generation(&mut self, generation: u32)
        requires
            dual_wf(old(self)@),
        ensures
            dual_wf(final(self)@),
            final(self)@ == (DualUseView {
                generation,
                window: keep_below(old(self)@.window, generation),
                awaiting: keep_below(old(self)@.awaiting, generation),
                ..old(self)@
            }),
    {
        let ghost v = self@;
        proof {
            lemma_keep_below(v.window, generation);
            lemma_keep_below(v.awaiting, generation);
        }
        loop
            invariant
                self.ratchet_head == old(self).ratchet_head,
                self.awaiting == old(self).awaiting,
                self@.window.len() <= v.window.len(),
                self@.window == v.window.take(self@.window.len() as int),
                prefix_below(self@.window, generation) == prefix_below(v.window, generation),
            ensures
                self.ratchet_head == old(self).ratchet_head,
                self.awaiting == old(self).awaiting,
                self@.window == keep_below(v.window, generation),
            decreases self.window.len(),
        {
            let n = self.window.len();
            let ghost before = self@.window;
            let ghost before_vec = self.window@;
            if n == 0 || self.window[n - 1].0 < generation {
                proof {
                    if n > 0 {
                        assert(before[n - 1] == window_entry_view(before_vec[n - 1]));
                    }
                    assert(keep_below(v.window, generation) =~= before);
                }
                break;
            }
            let _ = self.window.pop();
            proof {
                assert(before[n - 1] == window_entry_view(before_vec[n - 1]));
                assert(self@.window =~= before.drop_last());
                assert(self@.window =~= v.window.take(self@.window.len() as int));
            }
        }
        loop
            invariant
                self.ratchet_head == old(self).ratchet_head,
                self@.window == keep_below(v.window, generation),
                self@.awaiting.len() <= v.awaiting.len(),
                self@.awaiting == v.awaiting.take(self@.awaiting.len() as int),
                prefix_below(self@.awaiting, generation) == prefix_below(v.awaiting, generation),
            ensures
                self.ratchet_head == old(self).ratchet_head,
                self@.window == keep_below(v.window, generation),
                self@.awaiting == keep_below(v.awaiting, generation),
            decreases self.awaiting.len(),
        {
            let n = self.awaiting.len();
            let ghost before = self@.awaiting;
            let ghost before_vec = self.awaiting@;
            if n == 0 || self.awaiting[n - 1].0 < generation {
                proof {
                    if n > 0 {
                        assert(before[n - 1] == awaiting_entry_view(before_vec[n - 1]));
                    }
                    assert(keep_below(v.awaiting, generation) =~= before);
                }
                break;
            }
            let _ = self.awaiting.pop();
            proof {
                assert(before[n - 1] == awaiting_entry_view(before_vec[n - 1]));
                assert(self@.awaiting =~= before.drop_last());
                assert(self@.awaiting =~= v.awaiting.take(self@.awaiting.len() as int));
            }
        }
        self.ratchet_head.set_generation(generation);
        proof {
            let w = self@;
            assert forall|i: int, j: int| 0 <= i < w.window.len() && 0 <= j < w.awaiting.len() implies w.window[i].0
                != w.awaiting[j].0 by {
                assert(w.window[i] == v.window[i]);
                assert(w.awaiting[j] == v.awaiting[j]);
            }
            assert forall|i: int| 0 <= i < w.window.len() implies w.window[i].0 < generation by {
                assert(w.window[i] == v.window[i]);
            }
            assert forall|i: int| 0 <= i < w.awaiting.len() implies w.awaiting[i].0 < generation by {
                assert(w.awaiting[i] == v.awaiting[i]);
            }
        }
    }

    /// The ratchet's state as plain values.
    pub fn to_state(&self) -> (r: DualUseState)
        ensures
            r@ == self@,
    {
        let mut window: Vec<(u32, Option<(Vec<u8>, Vec<u8>)>)> = Vec::new();
        let mut i: usize = 0;
        while i < self.window.len()
            invariant
                i <= self.window@.len(),
                window@.len() == i,
                forall|k: int| 0 <= k < i ==> #[trigger] stored_window_entry(window@[k]) == self@.window[k],
            decreases self.window.len() - i,
        {
            let e = &self.window[i];
            let m = match &e.1 {
                Some(km) => Some((slice_to_bytes(km.0.as_slice()), slice_to_bytes(km.1.as_slice()))),
                None => None,
            };
            window.push((e.0, m));
            proof {
                assert(stored_window_entry(window@[i as int]) == self@.window[i as int]);
            }
            i = i + 1;
        }
        let mut awaiting: Vec<(u32, (Vec<u8>, Vec<u8>))> = Vec::new();
        let mut i: usize = 0;
        while i < self.awaiting.len()
            invariant
                i <= self.awaiting@.len(),
                awaiting@.len() == i,
                forall|k: int| 0 <= k < i ==> #[trigger] stored_awaiting_entry(awaiting@[k]) == self@.awaiting[k],
            decreases self.awaiting.len() - i,
        {
            let e = &self.awaiting[i];
            awaiting.push((e.0, (slice_to_bytes(e.1.0.as_slice()), slice_to_bytes(e.1.1.as_slice()))));
            proof {
                assert(stored_awaiting_entry(awaiting@[i as int]) == self@.awaiting[i as int]);
            }
            i = i + 1;
        }
        let r = DualUseState {
            secret: slice_to_bytes(self.ratchet_head.secret_bytes()),
            generation: self.ratchet_head.generation(),
            window,
            awaiting,
        };
        assert(r@.window =~= self@.window);
        assert(r@.awaiting =~= self@.awaiting);
        r
    }

    /// A ratchet holding a stored state: `None` where the state is not one
    /// that a ratchet can be in (entries out of order, at or above the head,
    /// or a generation both in the window and awaiting confirmation).
    pub fn from_state(state: &DualUseState) -> (r: Option<DualUseRatchet>)
        ensures
            r is Some <==> dual_wf(state@),
            r matches Some(x) ==> x@ == state@,
    {
        let ok = check_increasing(&state.window) && check_increasing(&state.awaiting) && check_below(
            &state.window,
            state.generation,
        ) && check_below(&state.awaiting, state.generation) && check_disjoint(&state.window, &state.awaiting);
        proof {
            let w = state@;
            assert forall|i: int| 0 <= i < w.window.len() implies #[trigger] w.window[i].0 == state.window@[i].0 by {
                assert(w.window[i] == stored_window_entry(state.window@[i]));
            }
            assert forall|i: int| 0 <= i < w.awaiting.len() implies #[trigger] w.awaiting[i].0 == state.awaiting@[i].0 by {
                assert(w.awaiting[i] == stored_awaiting_entry(state.awaiting@[i]));
            }
            assert(increasing(w.window) == increasing(state.window@)) by {
                if increasing(state.window@) {
                    assert forall|i: int, j: int| 0 <= i < j < w.window.len() implies w.window[i].0 < w.window[j].0 by {
                        assert(w.window[i].0 == state.window@[i].0);
                        assert(w.window[j].0 == state.window@[j].0);
                    }
                }
                if increasing(w.window) {
                    assert forall|i: int, j: int| 0 <= i < j < state.window@.len() implies state.window@[i].0 < state.window@[j].0 by {
                        assert(w.window[i].0 == state.window@[i].0);
                        assert(w.window[j].0 == state.window@[j].0);
                    }
                }
            }
            assert(increasing(w.awaiting) == increasing(state.awaiting@)) by {
                if increasing(state.awaiting@) {
                    assert forall|i: int, j: int| 0 <= i < j < w.awaiting.len() implies w.awaiting[i].0 < w.awaiting[j].0 by {
                        assert(w.awaiting[i].0 == state.awaiting@[i].0);
                        assert(w.awaiting[j].0 == state.awaiting@[j].0);
                    }
                }
                if increasing(w.awaiting) {
                    assert forall|i: int, j: int| 0 <= i < j < state.awaiting@.len() implies state.awaiting@[i].0 < state.awaiting@[j].0 by {
                        assert(w.awaiting[i].0 == state.awaiting@[i].0);
                        assert(w.awaiting[j].0 == state.awaiting@[j].0);
                    }
                }
            }
            assert(increasing(w.window) == increasing(state.window@));
            assert(increasing(w.awaiting) == increasing(state.awaiting@));
            assert(all_below(w.window, state.generation) == all_below(state.window@, state.generation)) by {
                if all_below(w.window, state.generation) {
                    assert forall|i: int| 0 <= i < state.window@.len() implies state.window@[i].0 < state.generation by {
                        assert(w.window[i].0 == state.window@[i].0);
                    }
                }
            }
            assert(all_below(w.awaiting, state.generation) == all_below(state.awaiting@, state.generation)) by {
                if all_below(w.awaiting, state.generation) {
                    assert forall|i: int| 0 <= i < state.awaiting@.len() implies state.awaiting@[i].0 < state.generation by {
                        assert(w.awaiting[i].0 == state.awaiting@[i].0);
                    }
                }
            }
            if forall|i: int, j: int| 0 <= i < w.window.len() && 0 <= j < w.awaiting.len() ==> w.window[i].0 != w.awaiting[j].0 {
                assert forall|i: int, j: int| 0 <= i < state.window@.len() && 0 <= j < state.awaiting@.len() implies state.window@[i].0
                    != state.awaiting@[j].0 by {
                    assert(w.window[i].0 == state.window@[i].0);
                    assert(w.awaiting[j].0 == state.awaiting@[j].0);
                }
            }
            if forall|i: int, j: int| 0 <= i < state.window@.len() && 0 <= j < state.awaiting@.len() ==> state.window@[i].0 != state.awaiting@[j].0 {
                assert forall|i: int, j: int| 0 <= i < w.window.len() && 0 <= j < w.awaiting.len() implies w.window[i].0 != w.awaiting[j].0 by {
                    assert(w.window[i].0 == state.window@[i].0);
                    assert(w.awaiting[j].0 == state.awaiting@[j].0);
                }
            }
        }
        if !ok {
            return None;
        }
        let mut window: Vec<(u32, Option<RatchetKeyMaterial>)> = Vec::new();
        let mut i: usize = 0;
        while i < state.window.len()
            invariant
                i <= state.window@.len(),
                window@.len() == i,
                forall|k: int| 0 <= k < i ==> #[trigger] window_entry_view(window@[k]) == state@.window[k],
            decreases state.window.len() - i,
        {
            let e = &state.window[i];
            let m = match &e.1 {
                Some(km) => Some((AeadKey::from_vec(slice_to_bytes(km.0.as_slice())), AeadNonce::from_vec(slice_to_bytes(km.1.as_slice())))),
                None => None,
            };
            window.push((e.0, m));
            proof {
                assert(window_entry_view(window@[i as int]) == state@.window[i as int]);
            }
            i = i + 1;
        }
        let mut awaiting: Vec<(u32, RatchetKeyMaterial)> = Vec::new();
        let mut i: usize = 0;
        while i < state.awaiting.len()
            invariant
                i <= state.awaiting@.len(),
                awaiting@.len() == i,
                forall|k: int| 0 <= k < i ==> #[trigger] awaiting_entry_view(awaiting@[k]) == state@.awaiting[k],
            decreases state.awaiting.len() - i,
        {
            let e = &state.awaiting[i];
            awaiting.push((e.0, (AeadKey::from_vec(slice_to_bytes(e.1.0.as_slice())), AeadNonce::from_vec(slice_to_bytes(e.1.1.as_slice())))));
            proof {
                assert(awaiting_entry_view(awaiting@[i as int]) == state@.awaiting[i as int]);
            }
            i = i + 1;
        }
        let mut head = RatchetSecret::initial_ratchet_secret(Secret::from_slice(state.secret.as_slice()));
        head.set_generation(state.generation);
        let r = DualUseRatchet { ratchet_head: head, window, awaiting };
        assert(r@.window =~= state@.window);
        assert(r@.awaiting =~= state@.awaiting);
        Some(r)
    }

    /// Hands out the key material of the head's generation for an own
    /// message and keeps it until the message is confirmed.
    pub fn secret_for_encryption(&mut self, cs: Ciphersuite, crypto: &RustCrypto) -> (r: Result<
        (u32, RatchetKeyMaterial),
        SecretTreeError,
    >)
        requires
            dual_wf(old(self)@),
        ensures
            dual_wf(final(self)@),
            old(self)@.secret.len() == cs.spec_hash_length() ==> final(self)@.secret.len() == cs.spec_hash_length(),
            ({
                let v = old(self)@;
                if v.generation == u32::MAX {
                    r == Err::<(u32, RatchetKeyMaterial), SecretTreeError>(SecretTreeError::RatchetTooLong) && final(self)@ == v
                } else if v.secret.len() < cs.spec_hash_length() {
                    (r matches Err(SecretTreeError::CryptoError(_))) && final(self)@ == v
                } else {
                    &&& r is Ok
                    &&& r->Ok_0.0 == v.generation
                    &&& material_view(r->Ok_0.1) == key_material(cs, v.secret, v.generation as nat)
                    &&& final(self)@ == encrypt_next(v, cs)
                }
            }),
    {
        let ghost v = self@;
        match self.ratchet_head.ratchet_forward(crypto, cs) {
            Ok((generation, material)) => {
                let kept = copy_material(&material);
                self.awaiting.push((generation, kept));
                assert(self@.awaiting =~= v.awaiting.push((v.generation, material_view(material))));
                Ok((generation, material))
            },
            Err(e) => Err(e),
        }
    }

    /// Confirms an own message: drops the key material kept for it, if any.
    pub fn delete_secret_for_generation(&mut self, generation: u32)
        requires
            dual_wf(old(self)@),
        ensures
            dual_wf(final(self)@),
            final(self)@ == confirm_next(old(self)@, generation),
    {
        let ghost v = self@;
        match find_generation(&self.awaiting, generation) {
            Some(k) => {
                proof {
                    assert(v.awaiting[k as int].0 == generation);
                    lemma_slot_unique(v.awaiting, generation, k as int);
                }
                let _ = self.awaiting.remove(k);
                assert(self@.awaiting =~= v.awaiting.remove(k as int));
            },
            None => {
                assert forall|k: int| 0 <= k < v.awaiting.len() implies v.awaiting[k].0 != generation by {
                    assert(v.awaiting[k].0 == self.awaiting@[k].0);
                }
            },
        }
    }

    /// Hands out the key material of `generation` for decryption: ahead of
    /// the head the chain is ratcheted forward and the skipped generations
    /// join the receive window; behind it an own message awaiting confirmation
    /// or an entry of the window is used once.
    pub fn secret_for_decryption(
        &mut self,
        cs: Ciphersuite,
        crypto: &RustCrypto,
        generation: u32,
        configuration: &SenderRatchetConfiguration,
    ) -> (r: Result<RatchetKeyMaterial, SecretTreeError>)
        requires
            dual_wf(old(self)@),
        ensures
            dual_wf(final(self)@),
            old(self)@.secret.len() == cs.spec_hash_length() ==> final(self)@.secret.len() == cs.spec_hash_length(),
            ({
                let v = old(self)@;
                let tolerance = configuration.spec_tolerance();
                let distance = configuration.spec_distance();
                match dual_refusal(v, generation, tolerance, distance) {
                    Some(e) => r == Err::<RatchetKeyMaterial, SecretTreeError>(e) && final(self)@ == v,
                    None => if generation >= v.generation && v.secret.len() < cs.spec_hash_length() {
                        &&& r matches Err(SecretTreeError::CryptoError(_))
                        &&& final(self)@ == v
                    } else {
                        &&& r is Ok
                        &&& material_view(r->Ok_0) == dual_material(v, cs, generation)
                        &&& final(self)@ == dual_next(v, cs, generation, tolerance)
                    },
                }
            }),
            final(self)@ == dual_after(
                old(self)@,
                cs,
                DualOp::Decrypt(generation),
                configuration.spec_tolerance(),
                configuration.spec_distance(),
            ),
    {
        let ghost v = self@;
        let current = self.ratchet_head.generation();
        let tolerance = configuration.out_of_order_tolerance();
        let distance = configuration.maximum_forward_distance();
        if current < u32::MAX - distance && generation > current + distance {
            return Err(SecretTreeError::TooDistantInTheFuture);
        }
        if generation >= current {
            if generation == u32::MAX {
                return Err(SecretTreeError::RatchetTooLong);
            }
            let mut head = self.ratchet_head.duplicate();
            let (mut fresh, material) = match ratchet_labeled(&mut head, crypto, cs, generation - current) {
                Ok(derived) => derived,
                Err(e) => {
                    return Err(e);
                },
            };
            self.ratchet_head = head;
            self.window.append(&mut fresh);
            self.window.push((generation, None));
            let len = self.window.len();
            if len > tolerance as usize {
                let kept = self.window.split_off(len - tolerance as usize);
                self.window = kept;
            }
            proof {
                let all = v.window + labeled_fresh(cs, v.secret, v.generation as nat, (generation - current) as nat)
                    + seq![(generation, None::<Material>)];
                assert(self@.window =~= keep_newest(all, tolerance as nat));
                assert forall|i: int, j: int| 0 <= i < j < all.len() implies all[i].0 < all[j].0 by {
                    if j < v.window.len() {
                    } else if i < v.window.len() {
                        assert(all[i].0 < current);
                    }
                }
            }
            Ok(material)
        } else {
            match find_generation(&self.awaiting, generation) {
                Some(k) => {
                    proof {
                        assert(v.awaiting[k as int].0 == generation);
                        lemma_slot_unique(v.awaiting, generation, k as int);
                    }
                    let (_, material) = self.awaiting.remove(k);
                    assert(self@.awaiting =~= v.awaiting.remove(k as int));
                    return Ok(material);
                },
                None => {
                    assert(!holds(v.awaiting, generation)) by {
                        assert forall|k: int| 0 <= k < v.awaiting.len() implies v.awaiting[k].0 != generation by {
                            assert(v.awaiting[k].0 == self.awaiting@[k].0);
                        }
                    }
                },
            }
            match find_generation(&self.window, generation) {
                Some(k) => {
                    proof {
                        assert(v.window[k as int].0 == generation);
                        lemma_slot_unique(v.window, generation, k as int);
                    }
                    let mut entry: (u32, Option<RatchetKeyMaterial>) = (generation, None);
                    self.window.set_and_swap(k, &mut entry);
                    match entry.1 {
                        Some(material) => {
                            assert(self@.window =~= v.window.update(k as int, (generation, None)));
                            Ok(material)
                        },
                        None => {
                            assert(self@.window =~= v.window);
                            Err(SecretTreeError::SecretReuseError)
                        },
                    }
                },
                None => {
                    assert(!holds(v.window, generation)) by {
                        assert forall|k: int| 0 <= k < v.window.len() implies v.window[k].0 != generation by {
                            assert(v.window[k].0 == self.window@[k].0);
                        }
                    }
                    if current - generation > tolerance {
                        Err(SecretTreeError::TooDistantInThePast)
                    } else {
                        Err(SecretTreeError::SecretReuseError)
                    }
                },
            }
        }
    }

    /// Sends in a generation lane: ratchets to the first generation at or
    /// after the head that lies in the lane, keeps the skipped generations in
    /// the receive window for the other devices' messages, and keeps the sent
    /// generation's material until the message is confirmed. The lane is
    /// checked before anything changes.
    pub fn secret_for_encryption_in_generation_lane(
        &mut self,
        cs: Ciphersuite,
        crypto: &RustCrypto,
        lane: GenerationLaneContext,
        configuration: &SenderRatchetConfiguration,
    ) -> (r: Result<(u32, RatchetKeyMaterial), SecretTreeError>)
        requires
            dual_wf(old(self)@),
        ensures
            dual_wf(final(self)@),
            old(self)@.secret.len() == cs.spec_hash_length() ==> final(self)@.secret.len() == cs.spec_hash_length(),
            ({
                let v = old(self)@;
                let tolerance = configuration.spec_tolerance();
                let distance = configuration.spec_distance();
                match lane_refusal(v, lane.width, lane.residue, tolerance, distance) {
                    Some(e) => r == Err::<(u32, RatchetKeyMaterial), SecretTreeError>(e) && final(self)@ == v,
                    None => if v.secret.len() < cs.spec_hash_length() {
                        &&& r matches Err(SecretTreeError::CryptoError(_))
                        &&& final(self)@ == v
                    } else {
                        let k = lane_offset(v.generation, lane.width, lane.residue);
                        &&& r is Ok
                        &&& r->Ok_0.0 == v.generation + k
                        &&& material_view(r->Ok_0.1) == material_at(cs, v.secret, v.generation as nat, k)
                        &&& final(self)@ == lane_next(v, cs, lane.width, lane.residue, tolerance)
                    },
                }
            }),
            final(self)@ == dual_after(
                old(self)@,
                cs,
                DualOp::LaneSend { width: lane.width, residue: lane.residue },
                configuration.spec_tolerance(),
                configuration.spec_distance(),
            ),
    {
        let ghost v = self@;
        let width = lane.width;
        let residue = lane.residue;
        let tolerance = configuration.out_of_order_tolerance();
        let distance = configuration.maximum_forward_distance();
        if residue >= width {
            return Err(SecretTreeError::GenerationLaneInvalidResidue);
        }
        if width - 1 > tolerance || width - 1 > distance {
            return Err(SecretTreeError::GenerationLaneTooWide);
        }
        let current = self.ratchet_head.generation();
        let m = current % width;
        let offset = if residue >= m { residue - m } else { (width - m) + residue };
        if current >= u32::MAX - offset {
            return Err(SecretTreeError::RatchetTooLong);
        }
        let mut head = self.ratchet_head.duplicate();
        let (mut fresh, material) = match ratchet_labeled(&mut head, crypto, cs, offset) {
            Ok(derived) => derived,
            Err(e) => {
                return Err(e);
            },
        };
        let target = current + offset;
        self.ratchet_head = head;
        self.window.append(&mut fresh);
        let len = self.window.len();
        if len > tolerance as usize {
            let kept = self.window.split_off(len - tolerance as usize);
            self.window = kept;
        }
        let kept_material = copy_material(&material);
        self.awaiting.push((target, kept_material));
        proof {
            let all = v.window + labeled_fresh(cs, v.secret, v.generation as nat, offset as nat);
            assert(self@.window =~= keep_newest(all, tolerance as nat));
            assert(self@.awaiting =~= v.awaiting.push((target, material_view(material))));
            assert forall|i: int, j: int| 0 <= i < j < all.len() implies all[i].0 < all[j].0 by {
                if j < v.window.len() {
                } else if i < v.window.len() {
                    assert(all[i].0 < current);
                }
            }
        }
        Ok((target, material))
    }
}

} // verus!

