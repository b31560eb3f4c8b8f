//! The secret tree of RFC 9420, section 9: one secret per node, derived from
//! the root down, and a pair of sender ratchets (handshake and application)
//! per leaf. A node's secret is deleted once its children's are derived.
use vstd::prelude::*;
use crate::ciphersuite::Ciphersuite;
use crate::config::SenderRatchetConfiguration;
use crate::decryption::{
    follows_chain, lemma_decryption_follows_chain, lemma_new_follows_chain, decryption_material, decryption_next, decryption_refusal, DecryptionRatchet, DecryptionView,
};
use crate::dual_use::{
    lemma_dual_decryption_follows_chain, lemma_dual_encryption_follows_chain, lemma_lane_follows_chain, lemma_lane_target, dual_follows, dual_material, dual_next, dual_refusal, dual_wf, encrypt_next, lane_next, lane_offset,
    lane_refusal, DualUseRatchet, DualUseView, GenerationLaneContext,
};
use crate::error::SecretTreeError;
use crate::kdf::{expand_with_label, kdf_expand_label};
use crate::ratchet::{chain_secret, key_material, material_at, next_chain_secret, RatchetSecret};
use crate::secret::{material_view, RatchetKeyMaterial, Secret};
use crate::tree::{lemma_ancestor_in_row, lemma_div_two_pow_step, lemma_two_pow_30, lemma_two_pow_monotonic, lemma_two_pow_positive, two_pow, LeafNodeIndex, TreeSize};
use openmls_rust_crypto::RustCrypto;
use openmls_traits::types::CryptoError;
use vstd::std_specs::cmp::PartialEqSpecImpl;

verus! {

/// The bytes of `"tree"`.
pub open spec fn tree_label() -> Seq<u8> {
    seq![116u8, 114u8, 101u8, 101u8]
}

/// The bytes of `"left"`.
pub open spec fn left_context() -> Seq<u8> {
    seq![108u8, 101u8, 102u8, 116u8]
}

/// The bytes of `"right"`.
pub open spec fn right_context() -> Seq<u8> {
    seq![114u8, 105u8, 103u8, 104u8, 116u8]
}

/// The bytes of `"handshake"`.
pub open spec fn handshake_label() -> Seq<u8> {
    seq![104u8, 97u8, 110u8, 100u8, 115u8, 104u8, 97u8, 107u8, 101u8]
}

/// The bytes of `"application"`.
pub open spec fn application_label() -> Seq<u8> {
    seq![97u8, 112u8, 112u8, 108u8, 105u8, 99u8, 97u8, 116u8, 105u8, 111u8, 110u8]
}

/// The secret of a node's left or right child.
pub open spec fn child_secret(cs: Ciphersuite, parent: Seq<u8>, right: bool) -> Seq<u8> {
    expand_with_label(
        cs,
        parent,
        tree_label(),
        if right { right_context() } else { left_context() },
        cs.spec_hash_length(),
    )
}

/// The secret of the node at `level` (leaves at level zero) and horizontal
/// position `pos` in a tree of the given depth whose root holds `root`.
pub open spec fn node_secret(cs: Ciphersuite, root: Seq<u8>, depth: nat, level: nat, pos: nat) -> Seq<u8>
    decreases depth - level,
{
    if level >= depth {
        root
    } else {
        child_secret(cs, node_secret(cs, root, depth, level + 1, pos / 2), pos % 2 == 1)
    }
}

/// The secret tree of RFC 9420, section 9: the root holds the encryption
/// secret; the left child (position `2 * pos`, one level down) of the node
/// at `pos` with secret `p` has `ExpandWithLabel(p, "tree", "left", KDF.Nh)`,
/// the right child (position `2 * pos + 1`) has
/// `ExpandWithLabel(p, "tree", "right", KDF.Nh)`; a leaf with secret `s`
/// starts its handshake ratchet with `ExpandWithLabel(s, "handshake", "",
/// KDF.Nh)` and its application ratchet with `ExpandWithLabel(s,
/// "application", "", KDF.Nh)`.
pub proof fn lemma_tree_derivation(cs: Ciphersuite, root: Seq<u8>, depth: nat, level: nat, pos: nat, leaf: Seq<u8>)
    requires
        level < depth,
    ensures
        node_secret(cs, root, depth, depth, 0) == root,
        node_secret(cs, root, depth, level, 2 * pos) == expand_with_label(
            cs,
            node_secret(cs, root, depth, level + 1, pos),
            seq![116u8, 114u8, 101u8, 101u8],
            seq![108u8, 101u8, 102u8, 116u8],
            cs.spec_hash_length(),
        ),
        node_secret(cs, root, depth, level, 2 * pos + 1) == expand_with_label(
            cs,
            node_secret(cs, root, depth, level + 1, pos),
            seq![116u8, 114u8, 101u8, 101u8],
            seq![114u8, 105u8, 103u8, 104u8, 116u8],
            cs.spec_hash_length(),
        ),
        ratchet_start(cs, leaf, SecretType::HandshakeSecret) == expand_with_label(
            cs,
            leaf,
            seq![104u8, 97u8, 110u8, 100u8, 115u8, 104u8, 97u8, 107u8, 101u8],
            Seq::<u8>::empty(),
            cs.spec_hash_length(),
        ),
        ratchet_start(cs, leaf, SecretType::ApplicationSecret) == expand_with_label(
            cs,
            leaf,
            seq![97u8, 112u8, 112u8, 108u8, 105u8, 99u8, 97u8, 116u8, 105u8, 111u8, 110u8],
            Seq::<u8>::empty(),
            cs.spec_hash_length(),
        ),
{
    assert((2 * pos) / 2 == pos && (2 * pos) % 2 == 0);
    assert((2 * pos + 1) / 2 == pos && (2 * pos + 1) % 2 == 1);
    assert(tree_label() =~= seq![116u8, 114u8, 101u8, 101u8]);
    assert(left_context() =~= seq![108u8, 101u8, 102u8, 116u8]);
    assert(right_context() =~= seq![114u8, 105u8, 103u8, 104u8, 116u8]);
    assert(handshake_label() =~= seq![104u8, 97u8, 110u8, 100u8, 115u8, 104u8, 97u8, 107u8, 101u8]);
    assert(application_label() =~= seq![97u8, 112u8, 112u8, 108u8, 105u8, 99u8, 97u8, 116u8, 105u8, 111u8, 110u8]);
}

/// The two kinds of sender ratchets of a leaf.
#[derive(Debug, Clone, Copy, PartialEq, Eq, Structural)]
pub enum SecretType {
    HandshakeSecret,
    ApplicationSecret,
}

/// The label that starts a leaf's ratchet of the given kind.
pub open spec fn ratchet_label(st: SecretType) -> Seq<u8> {
    match st {
        SecretType::HandshakeSecret => handshake_label(),
        SecretType::ApplicationSecret => application_label(),
    }
}

/// The first ratchet secret of the given kind for the leaf with secret `leaf`.
pub open spec fn ratchet_start(cs: Ciphersuite, leaf: Seq<u8>, st: SecretType) -> Seq<u8> {
    expand_with_label(cs, leaf, ratchet_label(st), Seq::<u8>::empty(), cs.spec_hash_length())
}

/// A leaf's sender ratchet: the own leaf encrypts (or, when it is shared by
/// several devices, encrypts and decrypts), the others' leaves decrypt.
#[derive(Debug, Clone, PartialEq, Eq)]
pub enum SenderRatchet {
    EncryptionRatchet(RatchetSecret),
    DecryptionRatchet(DecryptionRatchet),
    DualUseRatchet(DualUseRatchet),
}

/// A sender ratchet as values.
pub enum SenderView {
    /// The chain head's secret and generation.
    Encryption(Seq<u8>, u32),
    Decryption(DecryptionView),
    DualUse(DualUseView),
}

pub open spec fn sender_view(r: SenderRatchet) -> SenderView {
    match r {
        SenderRatchet::EncryptionRatchet(e) => SenderView::Encryption(e.spec_secret(), e.spec_generation()),
        SenderRatchet::DecryptionRatchet(d) => SenderView::Decryption(d@),
        SenderRatchet::DualUseRatchet(d) => SenderView::DualUse(d@),
    }
}

/// The secret from which a group's secret tree is derived.
#[derive(Debug, Clone, PartialEq, Eq)]
pub struct EncryptionSecret {
    secret: Secret,
}

impl View for EncryptionSecret {
    type V = Seq<u8>;

    closed spec fn view(&self) -> Seq<u8> {
        self.secret@
    }
}

impl EncryptionSecret {
    pub fn from_slice(bytes: &[u8]) -> (r: EncryptionSecret)
        ensures
            r@ == bytes@,
    {
        EncryptionSecret { secret: Secret::from_slice(bytes) }
    }

    /// A fresh random secret of the cipher suite's hash length.
    pub fn random(cs: Ciphersuite, rand: &RustCrypto) -> (r: Result<EncryptionSecret, CryptoError>)
        ensures
            r matches Ok(s) ==> s@.len() == cs.spec_hash_length(),
    {
        match Secret::random(cs, rand) {
            Ok(secret) => Ok(EncryptionSecret { secret }),
            Err(e) => Err(e),
        }
    }
}

/// A secret tree, as values.
pub struct SecretTreeView {
    pub ciphersuite: Ciphersuite,
    /// The encryption secret that the tree was made from.
    pub root: Seq<u8>,
    pub depth: nat,
    pub own: nat,
    /// The own leaf is shared by several devices: it encrypts and decrypts.
    pub dual_use: bool,
    /// Per leaf, the handshake and application ratchets once they exist.
    pub leaves: Seq<Option<(SenderView, SenderView)>>,
}

/// The ratchets that a leaf starts with.
pub open spec fn initial_pair(v: SecretTreeView, i: nat) -> (SenderView, SenderView) {
    let leaf = node_secret(v.ciphersuite, v.root, v.depth, 0, i);
    let hs = ratchet_start(v.ciphersuite, leaf, SecretType::HandshakeSecret);
    let app = ratchet_start(v.ciphersuite, leaf, SecretType::ApplicationSecret);
    if i == v.own && v.dual_use {
        (
            SenderView::DualUse(DualUseView { secret: hs, generation: 0, window: Seq::empty(), awaiting: Seq::empty() }),
            SenderView::DualUse(DualUseView { secret: app, generation: 0, window: Seq::empty(), awaiting: Seq::empty() }),
        )
    } else if i == v.own {
        (SenderView::Encryption(hs, 0), SenderView::Encryption(app, 0))
    } else {
        (
            SenderView::Decryption(DecryptionView { secret: hs, generation: 0, past: Seq::empty() }),
            SenderView::Decryption(DecryptionView { secret: app, generation: 0, past: Seq::empty() }),
        )
    }
}

/// A leaf's ratchets: the existing ones, or those it starts with.
pub open spec fn leaf_pair(v: SecretTreeView, i: nat) -> (SenderView, SenderView) {
    match v.leaves[i as int] {
        Some(p) => p,
        None => initial_pair(v, i),
    }
}

pub open spec fn select(p: (SenderView, SenderView), st: SecretType) -> SenderView {
    match st {
        SecretType::HandshakeSecret => p.0,
        SecretType::ApplicationSecret => p.1,
    }
}

pub open spec fn replace(p: (SenderView, SenderView), st: SecretType, x: SenderView) -> (SenderView, SenderView) {
    match st {
        SecretType::HandshakeSecret => (x, p.1),
        SecretType::ApplicationSecret => (p.0, x),
    }
}

/// The generation of a sender ratchet.
pub open spec fn sender_generation(x: SenderView) -> u32 {
    match x {
        SenderView::Encryption(_, g) => g,
        SenderView::Decryption(d) => d.generation,
        SenderView::DualUse(d) => d.generation,
    }
}

/// The chain head's secret of a sender ratchet.
pub open spec fn sender_secret(x: SenderView) -> Seq<u8> {
    match x {
        SenderView::Encryption(s, _) => s,
        SenderView::Decryption(d) => d.secret,
        SenderView::DualUse(d) => d.secret,
    }
}

/// A sender ratchet after an own message was sent.
pub open spec fn after_encryption(x: SenderView, cs: Ciphersuite) -> SenderView {
    match x {
        SenderView::DualUse(d) => SenderView::DualUse(encrypt_next(d, cs)),
        _ => SenderView::Encryption(
            next_chain_secret(cs, sender_secret(x), sender_generation(x) as nat),
            (sender_generation(x) + 1) as u32,
        ),
    }
}

/// The dual-use ratchet that a sender view holds.
pub open spec fn as_dual_use(x: SenderView) -> DualUseView {
    match x {
        SenderView::DualUse(d) => d,
        _ => DualUseView {
            secret: sender_secret(x),
            generation: sender_generation(x),
            window: Seq::empty(),
            awaiting: Seq::empty(),
        },
    }
}

/// The kind of ratchet that leaf `i` calls for.
pub open spec fn kind_ok(v: SecretTreeView, i: int, x: SenderView) -> bool {
    &&& (x is Encryption <==> (i == v.own && !v.dual_use))
    &&& (x is DualUse <==> (i == v.own && v.dual_use))
}

/// The tree with leaf `i`'s ratchets replaced.
pub open spec fn with_leaf(v: SecretTreeView, i: nat, p: (SenderView, SenderView)) -> SecretTreeView {
    SecretTreeView { leaves: v.leaves.update(i as int, Some(p)), ..v }
}

/// A leaf's ratchets can only be set up when the encryption secret is at
/// least as long as a hash output.
pub open spec fn setup_fails(v: SecretTreeView, i: nat) -> bool {
    v.leaves[i as int] is None && v.root.len() < v.ciphersuite.spec_hash_length()
}

/// The decryption ratchet that a sender view holds.
pub open spec fn as_decryption(x: SenderView) -> DecryptionView {
    match x {
        SenderView::Decryption(d) => d,
        _ => DecryptionView { secret: sender_secret(x), generation: sender_generation(x), past: Seq::empty() },
    }
}

/// The first secret of leaf `i`'s ratchet of the given kind.
pub open spec fn leaf_start(v: SecretTreeView, i: nat, st: SecretType) -> Seq<u8> {
    ratchet_start(v.ciphersuite, node_secret(v.ciphersuite, v.root, v.depth, 0, i), st)
}

/// A sender ratchet lies on the chain that starts with `s0`.
pub open spec fn sender_follows(x: SenderView, cs: Ciphersuite, s0: Seq<u8>) -> bool {
    match x {
        SenderView::Encryption(s, g) => s == chain_secret(cs, s0, 0, g as nat),
        SenderView::Decryption(d) => follows_chain(d, cs, s0),
        SenderView::DualUse(d) => dual_follows(d, cs, s0),
    }
}

/// Every ratchet of the tree is of the kind its leaf calls for and lies on
/// the chain that the tree's encryption secret starts for it.
pub open spec fn tree_follows(v: SecretTreeView) -> bool {
    &&& v.leaves.len() == two_pow(v.depth)
    &&& forall|i: int|
        0 <= i < v.leaves.len() && (#[trigger] v.leaves[i]) is Some ==> {
            let p = v.leaves[i]->Some_0;
            &&& kind_ok(v, i, p.0)
            &&& kind_ok(v, i, p.1)
            &&& sender_follows(p.0, v.ciphersuite, leaf_start(v, i as nat, SecretType::HandshakeSecret))
            &&& sender_follows(p.1, v.ciphersuite, leaf_start(v, i as nat, SecretType::ApplicationSecret))
        }
}

/// The ratchets of a leaf, existing or not yet started, lie on its chains.
pub proof fn lemma_leaf_pair_follows(v: SecretTreeView, i: nat, st: SecretType)
    requires
        tree_follows(v),
        i < v.leaves.len(),
    ensures
        sender_follows(select(leaf_pair(v, i), st), v.ciphersuite, leaf_start(v, i, st)),
        kind_ok(v, i as int, select(leaf_pair(v, i), st)),
{
    if v.leaves[i as int] is None {
        lemma_new_follows_chain(v.ciphersuite, leaf_start(v, i, st));
    }
}

/// Replacing one ratchet of a leaf by one of the same kind that lies on the
/// same chain keeps the whole tree on its chains.
pub proof fn lemma_replace_follows(v: SecretTreeView, i: nat, st: SecretType, x: SenderView)
    requires
        tree_follows(v),
        i < v.leaves.len(),
        sender_follows(x, v.ciphersuite, leaf_start(v, i, st)),
        kind_ok(v, i as int, x),
    ensures
        tree_follows(with_leaf(v, i, replace(leaf_pair(v, i), st, x))),
{
    lemma_leaf_pair_follows(v, i, SecretType::HandshakeSecret);
    lemma_leaf_pair_follows(v, i, SecretType::ApplicationSecret);
    let w = with_leaf(v, i, replace(leaf_pair(v, i), st, x));
    assert forall|j: int| 0 <= j < w.leaves.len() && (#[trigger] w.leaves[j]) is Some implies {
        let p = w.leaves[j]->Some_0;
        &&& kind_ok(w, j, p.0)
        &&& kind_ok(w, j, p.1)
        &&& sender_follows(p.0, w.ciphersuite, leaf_start(w, j as nat, SecretType::HandshakeSecret))
        &&& sender_follows(p.1, w.ciphersuite, leaf_start(w, j as nat, SecretType::ApplicationSecret))
    } by {
        if j != i {
            assert(w.leaves[j] == v.leaves[j]);
        }
    }
}

/// The key material that a member's tree hands out for generation `g` of
/// another member's leaf `i` is the key material of generation `g` of the
/// chain that the encryption secret starts for that leaf and kind, whatever
/// was asked of the tree before; and the tree stays on its chains.
pub proof fn lemma_tree_decryption_follows_chain(
    v: SecretTreeView,
    i: nat,
    st: SecretType,
    g: u32,
    tolerance: u32,
    distance: u32,
)
    requires
        tree_follows(v),
        i < v.leaves.len(),
        i != v.own,
        decryption_refusal(as_decryption(select(leaf_pair(v, i), st)), g, tolerance, distance) is None,
    ensures
        ({
            let d = as_decryption(select(leaf_pair(v, i), st));
            &&& decryption_material(d, v.ciphersuite, g) == material_at(v.ciphersuite, leaf_start(v, i, st), 0, g as nat)
            &&& tree_follows(
                with_leaf(
                    v,
                    i,
                    replace(leaf_pair(v, i), st, SenderView::Decryption(decryption_next(d, v.ciphersuite, g, tolerance))),
                ),
            )
        }),
{
    lemma_leaf_pair_follows(v, i, st);
    let d = as_decryption(select(leaf_pair(v, i), st));
    lemma_decryption_follows_chain(d, v.ciphersuite, leaf_start(v, i, st), g, tolerance, distance);
    lemma_replace_follows(v, i, st, SenderView::Decryption(decryption_next(d, v.ciphersuite, g, tolerance)));
}

/// The same for the own leaf when it is shared by several devices: what it
/// hands out for decrypting generation `g` is the key material of
/// generation `g` of its chain.
pub proof fn lemma_tree_dual_use_decryption_follows_chain(
    v: SecretTreeView,
    st: SecretType,
    g: u32,
    tolerance: u32,
    distance: u32,
)
    requires
        tree_follows(v),
        v.dual_use,
        v.own < v.leaves.len(),
        dual_refusal(as_dual_use(select(leaf_pair(v, v.own), st)), g, tolerance, distance) is None,
    ensures
        ({
            let d = as_dual_use(select(leaf_pair(v, v.own), st));
            &&& dual_material(d, v.ciphersuite, g) == material_at(v.ciphersuite, leaf_start(v, v.own, st), 0, g as nat)
            &&& tree_follows(
                with_leaf(
                    v,
                    v.own,
                    replace(leaf_pair(v, v.own), st, SenderView::DualUse(dual_next(d, v.ciphersuite, g, tolerance))),
                ),
            )
        }),
{
    lemma_leaf_pair_follows(v, v.own, st);
    let d = as_dual_use(select(leaf_pair(v, v.own), st));
    lemma_dual_decryption_follows_chain(d, v.ciphersuite, leaf_start(v, v.own, st), g, tolerance, distance);
    lemma_replace_follows(v, v.own, st, SenderView::DualUse(dual_next(d, v.ciphersuite, g, tolerance)));
}

/// The key material that a member's tree hands out for encrypting on its
/// own leaf at generation `g` is the key material of generation `g` of the
/// chain that the encryption secret starts for that leaf and kind; and the
/// tree stays on its chains.
pub proof fn lemma_tree_encryption_follows_chain(v: SecretTreeView, st: SecretType)
    requires
        tree_follows(v),
        v.own < v.leaves.len(),
        sender_generation(select(leaf_pair(v, v.own), st)) < u32::MAX,
    ensures
        ({
            let x = select(leaf_pair(v, v.own), st);
            let g = sender_generation(x);
            &&& key_material(v.ciphersuite, sender_secret(x), g as nat) == material_at(
                v.ciphersuite,
                leaf_start(v, v.own, st),
                0,
                g as nat,
            )
            &&& tree_follows(with_leaf(v, v.own, replace(leaf_pair(v, v.own), st, after_encryption(x, v.ciphersuite))))
        }),
{
    let i = v.own;
    lemma_leaf_pair_follows(v, i, st);
    let x = select(leaf_pair(v, i), st);
    let g = sender_generation(x);
    let s0 = leaf_start(v, i, st);
    match x {
        SenderView::DualUse(d) => {
            lemma_dual_encryption_follows_chain(d, v.ciphersuite, s0);
        },
        _ => {
            assert(chain_secret(v.ciphersuite, s0, 0, (g + 1) as nat) == next_chain_secret(
                v.ciphersuite,
                chain_secret(v.ciphersuite, s0, 0, g as nat),
                g as nat,
            ));
        },
    }
    lemma_replace_follows(v, i, st, after_encryption(x, v.ciphersuite));
}

/// A send in a generation lane on the shared own leaf hands out the key
/// material of the lane's generation of the application chain; and the tree
/// stays on its chains.
pub proof fn lemma_tree_lane_follows_chain(v: SecretTreeView, lane: GenerationLaneContext, tolerance: u32, distance: u32)
    requires
        tree_follows(v),
        v.dual_use,
        v.own < v.leaves.len(),
        lane_refusal(as_dual_use(leaf_pair(v, v.own).1), lane.width, lane.residue, tolerance, distance) is None,
    ensures
        ({
            let d = as_dual_use(leaf_pair(v, v.own).1);
            let k = lane_offset(d.generation, lane.width, lane.residue);
            &&& material_at(v.ciphersuite, d.secret, d.generation as nat, k) == material_at(
                v.ciphersuite,
                leaf_start(v, v.own, SecretType::ApplicationSecret),
                0,
                (d.generation + k) as nat,
            )
            &&& tree_follows(
                with_leaf(
                    v,
                    v.own,
                    replace(
                        leaf_pair(v, v.own),
                        SecretType::ApplicationSecret,
                        SenderView::DualUse(lane_next(d, v.ciphersuite, lane.width, lane.residue, tolerance)),
                    ),
                ),
            )
        }),
{
    let st = SecretType::ApplicationSecret;
    lemma_leaf_pair_follows(v, v.own, st);
    let d = as_dual_use(leaf_pair(v, v.own).1);
    lemma_lane_follows_chain(d, v.ciphersuite, leaf_start(v, v.own, st), lane.width, lane.residue, tolerance, distance);
    lemma_replace_follows(
        v,
        v.own,
        st,
        SenderView::DualUse(lane_next(d, v.ciphersuite, lane.width, lane.residue, tolerance)),
    );
}

/// What one member encrypts with, another member decrypts with: for two
/// trees of the same encryption secret, cipher suite and size, the key
/// material that the owner of leaf `i` hands out for its next generation `g`
/// is the material that the other member's tree hands out for generation
/// `g` of leaf `i`.
pub proof fn lemma_members_agree(
    sender: SecretTreeView,
    receiver: SecretTreeView,
    st: SecretType,
    tolerance: u32,
    distance: u32,
)
    requires
        tree_follows(sender),
        tree_follows(receiver),
        sender.ciphersuite == receiver.ciphersuite,
        sender.root == receiver.root,
        sender.depth == receiver.depth,
        sender.own < sender.leaves.len(),
        receiver.own != sender.own,
        sender_generation(select(leaf_pair(sender, sender.own), st)) < u32::MAX,
        decryption_refusal(
            as_decryption(select(leaf_pair(receiver, sender.own), st)),
            sender_generation(select(leaf_pair(sender, sender.own), st)),
            tolerance,
            distance,
        ) is None,
    ensures
        ({
            let x = select(leaf_pair(sender, sender.own), st);
            let g = sender_generation(x);
            key_material(sender.ciphersuite, sender_secret(x), g as nat) == decryption_material(
                as_decryption(select(leaf_pair(receiver, sender.own), st)),
                receiver.ciphersuite,
                g,
            )
        }),
{
    let i = sender.own;
    let g = sender_generation(select(leaf_pair(sender, i), st));
    lemma_tree_encryption_follows_chain(sender, st);
    lemma_tree_decryption_follows_chain(receiver, i, st, g, tolerance, distance);
    assert(leaf_start(sender, i, st) == leaf_start(receiver, i, st));
}

/// The tree after a request to decrypt generation `g` of leaf `i`'s ratchet
/// of kind `st`, whatever its outcome: a request refused before the leaf's
/// ratchets are started leaves the tree as it was, one refused by the
/// ratchet leaves the ratchets started.
pub open spec fn tree_decryption_after(
    v: SecretTreeView,
    i: nat,
    st: SecretType,
    g: u32,
    tolerance: u32,
    distance: u32,
) -> SecretTreeView {
    let p = leaf_pair(v, i);
    let x = select(p, st);
    if i >= v.leaves.len() || (i == v.own && !v.dual_use) || setup_fails(v, i) {
        v
    } else if i == v.own {
        let d = as_dual_use(x);
        if dual_refusal(d, g, tolerance, distance) is Some {
            with_leaf(v, i, p)
        } else {
            with_leaf(v, i, replace(p, st, SenderView::DualUse(dual_next(d, v.ciphersuite, g, tolerance))))
        }
    } else {
        let d = as_decryption(x);
        if decryption_refusal(d, g, tolerance, distance) is Some {
            with_leaf(v, i, p)
        } else {
            with_leaf(v, i, replace(p, st, SenderView::Decryption(decryption_next(d, v.ciphersuite, g, tolerance))))
        }
    }
}

/// A request to decrypt: the leaf, the kind of ratchet and the generation.
pub type DecryptionRequest = (nat, SecretType, u32);

/// The tree after the requests `reqs`, in that order.
pub open spec fn tree_decryptions_after(v: SecretTreeView, reqs: Seq<DecryptionRequest>, tolerance: u32, distance: u32) -> SecretTreeView
    decreases reqs.len(),
{
    if reqs.len() == 0 {
        v
    } else {
        let last = reqs.last();
        tree_decryption_after(tree_decryptions_after(v, reqs.drop_last(), tolerance, distance), last.0, last.1, last.2, tolerance, distance)
    }
}

/// The number of requests in `reqs` for leaf `i`'s ratchet of kind `st`.
pub open spec fn count_requests(reqs: Seq<DecryptionRequest>, i: nat, st: SecretType) -> nat
    decreases reqs.len(),
{
    if reqs.len() == 0 {
        0
    } else {
        count_requests(reqs.drop_last(), i, st) + if reqs.last().0 == i && reqs.last().1 == st { 1nat } else { 0nat }
    }
}

/// The generation of leaf `i`'s ratchet of kind `st`: zero before it exists.
pub open spec fn leaf_generation(v: SecretTreeView, i: nat, st: SecretType) -> u32 {
    sender_generation(select(leaf_pair(v, i), st))
}

/// Leaf `i` has no ratchets yet or only decryption ratchets.
pub open spec fn decrypts_only(v: SecretTreeView, i: nat) -> bool {
    v.leaves[i as int] matches Some(p) ==> p.0 is Decryption && p.1 is Decryption
}

/// One request changes only the ratchets of the leaf it names: the tree's
/// other parts and the generations of every other ratchet stay; a request
/// for the generation at the head of another member's decryption ratchet
/// moves that head one generation on.
pub proof fn lemma_decryption_request_generations(
    v: SecretTreeView,
    i: nat,
    st: SecretType,
    g: u32,
    tolerance: u32,
    distance: u32,
    j: nat,
    st2: SecretType,
)
    requires
        j < v.leaves.len(),
    ensures
        ({
            let w = tree_decryption_after(v, i, st, g, tolerance, distance);
            &&& w.leaves.len() == v.leaves.len()
            &&& w.ciphersuite == v.ciphersuite && w.root == v.root && w.depth == v.depth
            &&& w.own == v.own && w.dual_use == v.dual_use
            &&& (i != j || st != st2) ==> leaf_generation(w, j, st2) == leaf_generation(v, j, st2)
            &&& (j != v.own && decrypts_only(v, j)) ==> decrypts_only(w, j)
            &&& (i == j && st == st2 && j != v.own && decrypts_only(v, j) && v.root.len() >= v.ciphersuite.spec_hash_length()
                && g == leaf_generation(v, j, st) && g < u32::MAX) ==> leaf_generation(w, j, st) == g + 1
        }),
{
    let w = tree_decryption_after(v, i, st, g, tolerance, distance);
    if i < v.leaves.len() && i != j {
        assert(w.leaves[j as int] == v.leaves[j as int]);
    }
}

/// Decryption requests for a leaf's ratchet made in order of generation,
/// starting at its head, each move the head one generation on, whatever
/// requests for other leaves and kinds come in between; the generations of
/// ratchets that no request names stay as they were.
pub proof fn lemma_in_order_requests(v: SecretTreeView, reqs: Seq<DecryptionRequest>, j: nat, st: SecretType, tolerance: u32, distance: u32)
    requires
        j < v.leaves.len(),
        j != v.own,
        decrypts_only(v, j),
        v.root.len() >= v.ciphersuite.spec_hash_length(),
        forall|k: int|
            0 <= k < reqs.len() && (#[trigger] reqs[k]).0 == j && reqs[k].1 == st ==> reqs[k].2 == leaf_generation(v, j, st)
                + count_requests(reqs.take(k), j, st) && reqs[k].2 < u32::MAX,
    ensures
        ({
            let w = tree_decryptions_after(v, reqs, tolerance, distance);
            &&& w.leaves.len() == v.leaves.len()
            &&& w.ciphersuite == v.ciphersuite && w.root == v.root && w.depth == v.depth
            &&& w.own == v.own && w.dual_use == v.dual_use
            &&& decrypts_only(w, j)
            &&& leaf_generation(w, j, st) == leaf_generation(v, j, st) + count_requests(reqs, j, st)
            &&& forall|j2: nat, st2: SecretType|
                j2 < v.leaves.len() && count_requests(reqs, j2, st2) == 0 ==> #[trigger] leaf_generation(w, j2, st2)
                    == leaf_generation(v, j2, st2)
        }),
    decreases reqs.len(),
{
    if reqs.len() > 0 {
        let front = reqs.drop_last();
        let n = front.len() as int;
        assert forall|k: int|
            0 <= k < front.len() && (#[trigger] front[k]).0 == j && front[k].1 == st implies front[k].2 == leaf_generation(v, j, st)
                + count_requests(front.take(k), j, st) && front[k].2 < u32::MAX by {
            assert(front[k] == reqs[k]);
            assert(front.take(k) =~= reqs.take(k));
        }
        lemma_in_order_requests(v, front, j, st, tolerance, distance);
        let u = tree_decryptions_after(v, front, tolerance, distance);
        let last = reqs.last();
        assert(reqs.take(n) =~= front);
        assert(last == reqs[n]);
        lemma_decryption_request_generations(u, last.0, last.1, last.2, tolerance, distance, j, st);
        let w = tree_decryptions_after(v, reqs, tolerance, distance);
        assert forall|j2: nat, st2: SecretType|
            j2 < v.leaves.len() && count_requests(reqs, j2, st2) == 0 implies #[trigger] leaf_generation(w, j2, st2)
                == leaf_generation(v, j2, st2) by {
            lemma_decryption_request_generations(u, last.0, last.1, last.2, tolerance, distance, j2, st2);
            assert(count_requests(front, j2, st2) == 0);
            assert(leaf_generation(u, j2, st2) == leaf_generation(v, j2, st2));
        }
    }
}

/// The encryption secret that a tree was made from, kept for the proofs
/// alone: it takes no memory at run time, and any two compare equal.
#[derive(Clone)]
struct RootRecord {
    value: Ghost<Seq<u8>>,
}

impl PartialEq for RootRecord {
    fn eq(&self, other: &Self) -> (r: bool) {
        true
    }
}

impl PartialEqSpecImpl for RootRecord {
    open spec fn obeys_eq_spec() -> bool {
        true
    }

    open spec fn eq_spec(&self, other: &Self) -> bool {
        true
    }
}

/// The secret tree of a group, seen from one member's leaf.
#[derive(Clone, PartialEq)]
pub struct SecretTree {
    ciphersuite: Ciphersuite,
    own_index: LeafNodeIndex,
    dual_use: bool,
    size: TreeSize,
    root: RootRecord,
    /// `nodes[level][pos]`: the node secrets still kept, leaves at level zero.
    nodes: Vec<Vec<Option<Secret>>>,
    handshake_sender_ratchets: Vec<Option<SenderRatchet>>,
    application_sender_ratchets: Vec<Option<SenderRatchet>>,
}

impl View for SecretTree {
    type V = SecretTreeView;

    closed spec fn view(&self) -> SecretTreeView {
        SecretTreeView {
            ciphersuite: self.ciphersuite,
            root: self.root.value@,
            depth: self.size.spec_depth(),
            own: self.own_index.index as nat,
            dual_use: self.dual_use,
            leaves: Seq::new(
                self.handshake_sender_ratchets@.len(),
                |i: int|
                    match (self.handshake_sender_ratchets@[i], self.application_sender_ratchets@[i]) {
                        (Some(h), Some(a)) => Some((sender_view(h), sender_view(a))),
                        _ => None,
                    },
            ),
        }
    }
}

fn tree_label_bytes() -> (r: Vec<u8>)
    ensures
        r@ == tree_label(),
{
    let v: Vec<u8> = vec![116u8, 114u8, 101u8, 101u8];
    assert(v@ =~= tree_label());
    v
}

fn context_bytes(right: bool) -> (r: Vec<u8>)
    ensures
        r@ == if right { right_context() } else { left_context() },
{
    if right {
        let v: Vec<u8> = vec![114u8, 105u8, 103u8, 104u8, 116u8];
        assert(v@ =~= right_context());
        v
    } else {
        let v: Vec<u8> = vec![108u8, 101u8, 102u8, 116u8];
        assert(v@ =~= left_context());
        v
    }
}

fn ratchet_label_bytes(st: SecretType) -> (r: Vec<u8>)
    ensures
        r@ == ratchet_label(st),
{
    match st {
        SecretType::HandshakeSecret => {
            let v: Vec<u8> = vec![104u8, 97u8, 110u8, 100u8, 115u8, 104u8, 97u8, 107u8, 101u8];
            assert(v@ =~= handshake_label());
            v
        },
        SecretType::ApplicationSecret => {
            let v: Vec<u8> = vec![97u8, 112u8, 112u8, 108u8, 105u8, 99u8, 97u8, 116u8, 105u8, 111u8, 110u8];
            assert(v@ =~= application_label());
            v
        },
    }
}

/// The secret of the left or the right child of a node.
fn derive_child(crypto: &RustCrypto, cs: Ciphersuite, parent: &Secret, right: bool) -> (r: Result<Secret, CryptoError>)
    ensures
        r is Ok <==> parent@.len() >= cs.spec_hash_length(),
        r matches Ok(c) ==> c@ == child_secret(cs, parent@, right) && c@.len() == cs.spec_hash_length(),
{
    let label = tree_label_bytes();
    let context = context_bytes(right);
    match kdf_expand_label(crypto, cs, parent.as_slice(), label.as_slice(), context.as_slice(), cs.hash_length()) {
        Ok(v) => Ok(Secret::from_vec(v)),
        Err(e) => Err(e),
    }
}

/// The first ratchet secret of the given kind for a leaf.
fn derive_ratchet_start(crypto: &RustCrypto, cs: Ciphersuite, leaf: &Secret, st: SecretType) -> (r: Result<Secret, CryptoError>)
    ensures
        r is Ok <==> leaf@.len() >= cs.spec_hash_length(),
        r matches Ok(c) ==> c@ == ratchet_start(cs, leaf@, st) && c@.len() == cs.spec_hash_length(),
{
    let label = ratchet_label_bytes(st);
    let context: Vec<u8> = Vec::new();
    assert(context@ =~= Seq::<u8>::empty());
    match kdf_expand_label(crypto, cs, leaf.as_slice(), label.as_slice(), context.as_slice(), cs.hash_length()) {
        Ok(v) => Ok(Secret::from_vec(v)),
        Err(e) => Err(e),
    }
}

/// Puts `value` at `nodes[level][pos]`.
fn set_node(nodes: &mut Vec<Vec<Option<Secret>>>, level: usize, pos: usize, value: Option<Secret>)
    requires
        level < old(nodes)@.len(),
        pos < old(nodes)@[level as int]@.len(),
    ensures
        final(nodes)@.len() == old(nodes)@.len(),
        forall|l: int| 0 <= l < old(nodes)@.len() && l != level ==> #[trigger] final(nodes)@[l] == old(nodes)@[l],
        final(nodes)@[level as int]@ == old(nodes)@[level as int]@.update(pos as int, value),
{
    let mut row: Vec<Option<Secret>> = Vec::new();
    std::mem::swap(&mut row, &mut nodes[level]);
    row.set(pos, value);
    std::mem::swap(&mut row, &mut nodes[level]);
}

/// A row of `n` nodes without secrets.
fn empty_row(n: u32) -> (r: Vec<Option<Secret>>)
    ensures
        r@.len() == n,
        forall|i: int| 0 <= i < n ==> (#[trigger] r@[i]) is None,
{
    let mut row: Vec<Option<Secret>> = Vec::new();
    let mut i: u32 = 0;
    while i < n
        invariant
            i <= n,
            row@.len() == i,
            forall|k: int| 0 <= k < i ==> (#[trigger] row@[k]) is None,
        decreases n - i,
    {
        row.push(None);
        i = i + 1;
    }
    row
}

/// `n` leaves without ratchets.
fn empty_ratchets(n: u32) -> (r: Vec<Option<SenderRatchet>>)
    ensures
        r@.len() == n,
        forall|i: int| 0 <= i < n ==> (#[trigger] r@[i]) is None,
{
    let mut v: Vec<Option<SenderRatchet>> = Vec::new();
    let mut i: u32 = 0;
    while i < n
        invariant
            i <= n,
            v@.len() == i,
            forall|k: int| 0 <= k < i ==> (#[trigger] v@[k]) is None,
        decreases n - i,
    {
        v.push(None);
        i = i + 1;
    }
    v
}

impl SecretTree {
    /// The node at `level` and `pos` holds a secret.
    closed spec fn present(&self, level: nat, pos: nat) -> bool {
        self.nodes@[level as int]@[pos as int] is Some
    }

    /// The ancestor of leaf `j` at `level` holds a secret.
    closed spec fn covered_at(&self, j: int, level: int) -> bool {
        0 <= level <= self.size.spec_depth() && self.present(level as nat, (j / two_pow(level as nat) as int) as nat)
    }

    /// The sizes of the node rows and ratchet vectors.
    closed spec fn shape_ok(&self) -> bool {
        let depth = self.size.spec_depth();
        let leaves = self.size.spec_leaf_count();
        &&& depth <= 30
        &&& leaves == two_pow(depth)
        &&& self.nodes@.len() == depth + 1
        &&& forall|l: int| 0 <= l <= depth ==> (#[trigger] self.nodes@[l])@.len() == two_pow((depth - l) as nat)
        &&& self.handshake_sender_ratchets@.len() == leaves
        &&& self.application_sender_ratchets@.len() == leaves
    }

    /// A node that holds a secret holds the one derived from the root.
    closed spec fn nodes_ok(&self) -> bool {
        let cs = self.ciphersuite;
        let depth = self.size.spec_depth();
        forall|l: int, p: int|
            0 <= l <= depth && 0 <= p < two_pow((depth - l) as nat) && (#[trigger] self.nodes@[l]@[p]) is Some ==> {
                &&& self.nodes@[l]@[p]->Some_0@ == node_secret(cs, self.root.value@, depth, l as nat, p as nat)
                &&& l < depth ==> self.nodes@[l]@[p]->Some_0@.len() == cs.spec_hash_length()
            }
    }

    /// Every leaf without ratchets can still derive its secret.
    closed spec fn covered(&self) -> bool {
        forall|j: int|
            0 <= j < self.size.spec_leaf_count() && (#[trigger] self.handshake_sender_ratchets@[j]) is None ==> exists|l: int|
                #[trigger] self.covered_at(j, l)
    }

    /// Ratchets exist in pairs, of the kind that the leaf calls for, with
    /// secrets of a hash output's length.
    closed spec fn ratchets_ok(&self) -> bool {
        let cs = self.ciphersuite;
        let leaves = self.size.spec_leaf_count();
        &&& forall|j: int|
            0 <= j < leaves ==> (#[trigger] self.handshake_sender_ratchets@[j] is Some
                <==> self.application_sender_ratchets@[j] is Some)
        &&& forall|j: int|
            0 <= j < leaves && (#[trigger] self.handshake_sender_ratchets@[j]) is Some ==> Self::ratchet_ok(
                self.handshake_sender_ratchets@[j]->Some_0,
                j == self.own_index.index,
                self.dual_use,
                cs,
            )
        &&& forall|j: int|
            0 <= j < leaves && (#[trigger] self.application_sender_ratchets@[j]) is Some ==> Self::ratchet_ok(
                self.application_sender_ratchets@[j]->Some_0,
                j == self.own_index.index,
                self.dual_use,
                cs,
            )
    }

    /// While the root is too short to derive from, nothing was derived.
    closed spec fn short_root_ok(&self) -> bool {
        self.root.value@.len() < self.ciphersuite.spec_hash_length() ==> {
            &&& self.present(self.size.spec_depth(), 0)
            &&& forall|l: int, p: int|
                0 <= l < self.size.spec_depth() && 0 <= p < self.nodes@[l]@.len() ==> !(#[trigger] self.nodes@[l]@[p] is Some)
            &&& forall|j: int| 0 <= j < self.size.spec_leaf_count() ==> (#[trigger] self.handshake_sender_ratchets@[j]) is None
        }
    }

    /// No two ancestors of a leaf (the leaf itself among them) hold a secret
    /// at once.
    closed spec fn exclusive(&self) -> bool {
        forall|j: int, l1: int, l2: int|
            0 <= j < self.size.spec_leaf_count() && l1 < l2 && #[trigger] self.covered_at(j, l1) ==> !#[trigger] self.covered_at(
                j,
                l2,
            )
    }

    /// No ancestor of a leaf whose ratchets were started, nor the leaf itself,
    /// holds a secret.
    closed spec fn cleared(&self) -> bool {
        forall|j: int, l: int|
            0 <= j < self.size.spec_leaf_count() && (#[trigger] self.handshake_sender_ratchets@[j]) is Some ==> !#[trigger] self.covered_at(
                j,
                l,
            )
    }

    /// The node secrets that the tree still keeps: `node_store()[level][pos]`,
    /// leaves at level zero, `None` where a secret was deleted or not derived.
    pub closed spec fn node_store(&self) -> Seq<Seq<Option<Seq<u8>>>> {
        Seq::new(
            self.nodes@.len(),
            |l: int|
                Seq::new(
                    self.nodes@[l]@.len(),
                    |p: int|
                        match self.nodes@[l]@[p] {
                            Some(s) => Some(s@),
                            None => None,
                        },
                ),
        )
    }

    /// What the tree keeps of its node secrets: a row per level, as wide as
    /// the level; no secret on the path from a leaf whose ratchets were started
    /// up to the root, the leaf's own included, so that a leaf's secret cannot
    /// be derived again once its ratchets exist; and every secret it keeps is
    /// the one that the encryption secret gives that node.
    pub proof fn lemma_kept_node_secrets(&self)
        requires
            self.wf(),
        ensures
            self.node_store().len() == self@.depth + 1,
            forall|l: int| 0 <= l <= self@.depth ==> (#[trigger] self.node_store()[l]).len() == two_pow((self@.depth - l) as nat),
            forall|i: int, l: int|
                0 <= i < self@.leaves.len() && (#[trigger] self@.leaves[i]) is Some && 0 <= l <= self@.depth
                    ==> (#[trigger] self.node_store()[l])[i / (two_pow(l as nat) as int)] is None,
            forall|l: int, p: int|
                0 <= l <= self@.depth && 0 <= p < two_pow((self@.depth - l) as nat) && (#[trigger] self.node_store()[l][p]) is Some
                    ==> self.node_store()[l][p] == Some(node_secret(self@.ciphersuite, self@.root, self@.depth, l as nat, p as nat)),
    {
        let depth = self.size.spec_depth();
        assert forall|i: int, l: int|
            0 <= i < self@.leaves.len() && (#[trigger] self@.leaves[i]) is Some && 0 <= l <= self@.depth
                implies (#[trigger] self.node_store()[l])[i / (two_pow(l as nat) as int)] is None by {
            assert(self.handshake_sender_ratchets@[i] is Some);
            assert(!self.covered_at(i, l));
            lemma_ancestor_in_row(i, depth, l as nat);
        }
        assert forall|l: int, p: int|
            0 <= l <= self@.depth && 0 <= p < two_pow((self@.depth - l) as nat) && (#[trigger] self.node_store()[l][p]) is Some
                implies self.node_store()[l][p] == Some(node_secret(self@.ciphersuite, self@.root, self@.depth, l as nat, p as nat)) by {
            assert(self.nodes@[l]@[p] is Some);
        }
    }

    /// The invariant of the tree.
    pub closed spec fn wf(&self) -> bool {
        &&& self.shape_ok()
        &&& self.nodes_ok()
        &&& self.covered()
        &&& self.ratchets_ok()
        &&& self.short_root_ok()
        &&& self.exclusive()
        &&& self.cleared()
    }

    /// A tree whose root holds the encryption secret and whose leaves have no
    /// ratchets yet. The own leaf is shared by the member's devices (virtual
    /// clients): it encrypts, keeps its own messages until they are confirmed,
    /// decrypts them for the other devices, and sends in generation lanes.
    /// A tree whose own leaf cannot decrypt, as without virtual clients, is
    /// made by `new_unshared`.
    pub fn new(
        ciphersuite: Ciphersuite,
        encryption_secret: EncryptionSecret,
        size: TreeSize,
        own_index: LeafNodeIndex,
    ) -> (r: SecretTree)
        ensures
            r.wf(),
            r@.ciphersuite == ciphersuite,
            r@.root == encryption_secret@,
            r@.depth == size.spec_depth(),
            r@.own == own_index.index,
            r@.dual_use,
            r@.leaves.len() == two_pow(size.spec_depth()),
            forall|i: int| 0 <= i < r@.leaves.len() ==> #[trigger] r@.leaves[i] is None,
            tree_follows(r@),
    {
        Self::create(ciphersuite, encryption_secret, size, own_index, true)
    }

    /// A tree of a member with a single device, as without virtual clients:
    /// its own leaf only encrypts, never decrypts (a request to decrypt it is
    /// refused as `RatchetTypeError`), and has no generation lanes.
    pub fn new_unshared(
        ciphersuite: Ciphersuite,
        encryption_secret: EncryptionSecret,
        size: TreeSize,
        own_index: LeafNodeIndex,
    ) -> (r: SecretTree)
        ensures
            r.wf(),
            r@.ciphersuite == ciphersuite,
            r@.root == encryption_secret@,
            r@.depth == size.spec_depth(),
            r@.own == own_index.index,
            !r@.dual_use,
            r@.leaves.len() == two_pow(size.spec_depth()),
            forall|i: int| 0 <= i < r@.leaves.len() ==> #[trigger] r@.leaves[i] is None,
            tree_follows(r@),
    {
        Self::create(ciphersuite, encryption_secret, size, own_index, false)
    }

    fn create(
        ciphersuite: Ciphersuite,
        encryption_secret: EncryptionSecret,
        size: TreeSize,
        own_index: LeafNodeIndex,
        dual_use: bool,
    ) -> (r: SecretTree)
        ensures
            r.wf(),
            r@.ciphersuite == ciphersuite,
            r@.root == encryption_secret@,
            r@.depth == size.spec_depth(),
            r@.own == own_index.index,
            r@.dual_use == dual_use,
            r@.leaves.len() == two_pow(size.spec_depth()),
            forall|i: int| 0 <= i < r@.leaves.len() ==> #[trigger] r@.leaves[i] is None,
            tree_follows(r@),
    {
        let leaves = size.leaf_count();
        let depth = size.depth();
        let ghost root = encryption_secret@;
        let mut nodes: Vec<Vec<Option<Secret>>> = Vec::new();
        let mut level: u32 = 0;
        let mut count: u32 = leaves;
        while level < depth
            invariant
                level <= depth <= 30,
                nodes@.len() == level,
                count == two_pow((depth - level) as nat),
                forall|l: int| 0 <= l < level ==> (#[trigger] nodes@[l])@.len() == two_pow((depth - l) as nat),
                forall|l: int, p: int| 0 <= l < level && 0 <= p < nodes@[l]@.len() ==> (#[trigger] nodes@[l]@[p]) is None,
            decreases depth - level,
        {
            let row = empty_row(count);
            nodes.push(row);
            proof {
                assert(two_pow((depth - level) as nat) == 2 * two_pow((depth - level - 1) as nat));
            }
            level = level + 1;
            count = count / 2;
        }
        let mut top: Vec<Option<Secret>> = Vec::new();
        top.push(Some(encryption_secret.secret));
        nodes.push(top);
        let handshake = empty_ratchets(leaves);
        let application = empty_ratchets(leaves);
        let tree = SecretTree {
            ciphersuite,
            own_index,
            dual_use,
            size,
            root: RootRecord { value: Ghost(root) },
            nodes,
            handshake_sender_ratchets: handshake,
            application_sender_ratchets: application,
        };
        proof {
            assert(two_pow(0) == 1);
            assert forall|j: int| 0 <= j < leaves && (#[trigger] tree.handshake_sender_ratchets@[j]) is None implies exists|l: int|
                #[trigger] tree.covered_at(j, l) by {
                vstd::arithmetic::div_mod::lemma_basic_div(j, two_pow(depth as nat) as int);
                assert(tree.covered_at(j, depth as int));
            }
            assert forall|l: int, p: int|
                0 <= l <= depth && 0 <= p < two_pow((depth - l) as nat) && (#[trigger] tree.nodes@[l]@[p]) is Some implies {
                &&& tree.nodes@[l]@[p]->Some_0@ == node_secret(ciphersuite, root, depth as nat, l as nat, p as nat)
                &&& l < depth ==> tree.nodes@[l]@[p]->Some_0@.len() == ciphersuite.spec_hash_length()
            } by {
                assert(l == depth);
            }
            assert(tree@.leaves.len() == two_pow(size.spec_depth()));
            assert forall|j: int, l1: int, l2: int|
                0 <= j < leaves && l1 < l2 && #[trigger] tree.covered_at(j, l1) implies !#[trigger] tree.covered_at(j, l2) by {
                lemma_ancestor_in_row(j, depth as nat, l1 as nat);
            }
        }
        tree
    }

    /// Derives leaf `index`'s secret from the lowest ancestor that still holds
    /// one, keeping the siblings' secrets and deleting those it used, and
    /// starts the leaf's two ratchets.
    fn initialize_sender_ratchets(&mut self, crypto: &RustCrypto, index: u32) -> (r: Result<(), SecretTreeError>)
        requires
            old(self).wf(),
            index < old(self).size.spec_leaf_count(),
            old(self).handshake_sender_ratchets@[index as int] is None,
        ensures
            final(self).wf(),
            old(self)@.root.len() < old(self)@.ciphersuite.spec_hash_length() ==> {
                &&& r matches Err(SecretTreeError::CryptoError(_))
                &&& final(self)@ == old(self)@
                &&& final(self).nodes == old(self).nodes
            },
            old(self)@.root.len() >= old(self)@.ciphersuite.spec_hash_length() ==> {
                &&& r is Ok
                &&& final(self)@ == with_leaf(old(self)@, index as nat, initial_pair(old(self)@, index as nat))
            },
    {
        let cs = self.ciphersuite;
        let depth = self.size.depth();
        let leaves = self.size.leaf_count();
        let ghost root = self.root.value@;
        let mut level: u32 = depth;
        let mut divisor: u32 = leaves;
        proof {
            let j = index as int;
            assert(self.handshake_sender_ratchets@[j] is None);
            let l = choose|l: int| #[trigger] self.covered_at(j, l);
            assert(self.covered_at(j, l));
        }
        while level > 0
            invariant
                level <= depth <= 30,
                divisor == two_pow(level as nat),
                index < leaves,
                leaves == two_pow(depth as nat),
                depth == self.size.spec_depth(),
                leaves == self.size.spec_leaf_count(),
                cs == self.ciphersuite,
                root == self.root.value@,
                self.ciphersuite == old(self).ciphersuite,
                self.size == old(self).size,
                self.root == old(self).root,
                self.own_index == old(self).own_index,
                self.dual_use == old(self).dual_use,
                self.handshake_sender_ratchets == old(self).handshake_sender_ratchets,
                self.application_sender_ratchets == old(self).application_sender_ratchets,
                self.shape_ok(),
                self.nodes_ok(),
                self.covered(),
                self.ratchets_ok(),
                self.exclusive(),
                self.cleared(),
                self.handshake_sender_ratchets@[index as int] is None,
                exists|l: int| 0 <= l <= level && #[trigger] self.covered_at(index as int, l),
                root.len() < cs.spec_hash_length() ==> self.nodes == old(self).nodes,
                old(self).wf(),
            decreases level,
        {
            proof {
                lemma_ancestor_in_row(index as int, depth as nat, level as nat);
                lemma_two_pow_positive(level as nat);
                assert(two_pow(level as nat) == 2 * two_pow((level - 1) as nat));
                lemma_two_pow_monotonic((depth - level + 1) as nat, 30);
                lemma_two_pow_30();
                assert(two_pow((depth - level + 1) as nat) == 2 * two_pow((depth - level) as nat));
            }
            let pos = index / divisor;
            let lu = level as usize;
            let pu = pos as usize;
            let split = match &self.nodes[lu][pu] {
                Some(parent) => Some((derive_child(crypto, cs, parent, false), derive_child(crypto, cs, parent, true))),
                None => None,
            };
            match split {
                Some((Ok(left), Ok(right))) => {
                    let ghost before = *self;
                    set_node(&mut self.nodes, lu, pu, None);
                    set_node(&mut self.nodes, lu - 1, 2 * pu, Some(left));
                    set_node(&mut self.nodes, lu - 1, 2 * pu + 1, Some(right));
                    proof {
                        self.lemma_split_keeps_invariant(before, level as nat, pos as nat, index as nat);
                    }
                },
                Some((Err(e), _)) => {
                    return Err(SecretTreeError::CryptoError(e));
                },
                Some((_, Err(e))) => {
                    return Err(SecretTreeError::CryptoError(e));
                },
                None => {
                    proof {
                        let l = choose|l: int| 0 <= l <= level && #[trigger] self.covered_at(index as int, l);
                        assert(l != level);
                        assert(0 <= l <= level - 1 && self.covered_at(index as int, l));
                    }
                },
            }
            level = level - 1;
            divisor = divisor / 2;
        }
        let iu = index as usize;
        proof {
            assert(two_pow(0) == 1);
            let l = choose|l: int| 0 <= l <= 0 && #[trigger] self.covered_at(index as int, l);
            assert(l == 0);
            assert(index as int / 1 == index as int);
            assert(self.present(0, index as nat));
        }
        let started = match &self.nodes[0][iu] {
            Some(leaf) => (
                derive_ratchet_start(crypto, cs, leaf, SecretType::HandshakeSecret),
                derive_ratchet_start(crypto, cs, leaf, SecretType::ApplicationSecret),
            ),
            None => {
                return Err(SecretTreeError::IndexOutOfBounds);
            },
        };
        let (hs, app) = match started {
            (Ok(hs), Ok(app)) => (hs, app),
            (Err(e), _) => {
                return Err(SecretTreeError::CryptoError(e));
            },
            (_, Err(e)) => {
                return Err(SecretTreeError::CryptoError(e));
            },
        };
        let ghost before = *self;
        set_node(&mut self.nodes, 0, iu, None);
        let own = index == self.own_index.index;
        let (handshake, application) = if own && self.dual_use {
            (
                SenderRatchet::DualUseRatchet(DualUseRatchet::new(hs)),
                SenderRatchet::DualUseRatchet(DualUseRatchet::new(app)),
            )
        } else if own {
            (
                SenderRatchet::EncryptionRatchet(RatchetSecret::initial_ratchet_secret(hs)),
                SenderRatchet::EncryptionRatchet(RatchetSecret::initial_ratchet_secret(app)),
            )
        } else {
            (
                SenderRatchet::DecryptionRatchet(DecryptionRatchet::new(hs)),
                SenderRatchet::DecryptionRatchet(DecryptionRatchet::new(app)),
            )
        };
        let ghost gh = handshake;
        let ghost ga = application;
        proof {
            let leaf_view = node_secret(cs, root, depth as nat, 0, index as nat);
            assert(before.nodes@[0]@[index as int] is Some);
            assert(two_pow((depth - 0) as nat) == leaves);
            assert(hs@ == ratchet_start(cs, leaf_view, SecretType::HandshakeSecret));
            assert(sender_view(gh) == initial_pair(before@, index as nat).0);
            assert(sender_view(ga) == initial_pair(before@, index as nat).1);
        }
        self.handshake_sender_ratchets.set(iu, Some(handshake));
        self.application_sender_ratchets.set(iu, Some(application));
        proof {
            self.lemma_leaf_started(before, index as nat, gh, ga);
        }
        Ok(())
    }

    /// Splitting the ancestor of leaf `index` at `level` into its children
    /// keeps the tree's invariants and moves the leaf's cover one level down.
    proof fn lemma_split_keeps_invariant(self, before: SecretTree, level: nat, pos: nat, index: nat)
        requires
            before.shape_ok(),
            before.nodes_ok(),
            before.covered(),
            before.ratchets_ok(),
            before.exclusive(),
            before.cleared(),
            1 <= level <= before.size.spec_depth(),
            index < before.size.spec_leaf_count(),
            pos == (index as int) / (two_pow(level) as int),
            before.present(level, pos),
            self.ciphersuite == before.ciphersuite,
            self.size == before.size,
            self.root == before.root,
            self.own_index == before.own_index,
            self.dual_use == before.dual_use,
            self.handshake_sender_ratchets == before.handshake_sender_ratchets,
            self.application_sender_ratchets == before.application_sender_ratchets,
            self.nodes@.len() == before.nodes@.len(),
            forall|l: int| 0 <= l < before.nodes@.len() && l != level && l != level - 1 ==> #[trigger] self.nodes@[l] == before.nodes@[l],
            self.nodes@[level as int]@ == before.nodes@[level as int]@.update(pos as int, None),
            self.nodes@[level - 1]@.len() == before.nodes@[level - 1]@.len(),
            forall|p: int| 0 <= p < self.nodes@[level - 1]@.len() && p != 2 * pos && p != 2 * pos + 1
                ==> #[trigger] self.nodes@[level - 1]@[p] == before.nodes@[level - 1]@[p],
            self.nodes@[level - 1]@[(2 * pos) as int] is Some,
            self.nodes@[level - 1]@[(2 * pos + 1) as int] is Some,
            self.nodes@[level - 1]@[(2 * pos) as int]->Some_0@ == child_secret(
                before.ciphersuite,
                before.nodes@[level as int]@[pos as int]->Some_0@,
                false,
            ),
            self.nodes@[level - 1]@[(2 * pos + 1) as int]->Some_0@ == child_secret(
                before.ciphersuite,
                before.nodes@[level as int]@[pos as int]->Some_0@,
                true,
            ),
            self.nodes@[level - 1]@[(2 * pos) as int]->Some_0@.len() == before.ciphersuite.spec_hash_length(),
            self.nodes@[level - 1]@[(2 * pos + 1) as int]->Some_0@.len() == before.ciphersuite.spec_hash_length(),
        ensures
            self.shape_ok(),
            self.nodes_ok(),
            self.covered(),
            self.ratchets_ok(),
            self.exclusive(),
            self.cleared(),
            self.covered_at(index as int, level - 1),
    {
        let depth = self.size.spec_depth();
        let cs = self.ciphersuite;
        let root = self.root.value@;
        let leaves = self.size.spec_leaf_count();
        lemma_ancestor_in_row(index as int, depth, level);
        assert(self.nodes@[level as int]@[pos as int] is None);
        assert forall|j: int, l: int|
            0 <= j < leaves && #[trigger] self.covered_at(j, l) implies before.covered_at(j, l) || (l == level - 1
                && before.covered_at(j, level as int) && j / (two_pow(level) as int) == pos) by {
            let a = j / (two_pow(l as nat) as int);
            lemma_ancestor_in_row(j, depth, l as nat);
            if l == level - 1 && (a == 2 * pos || a == 2 * pos + 1) {
                lemma_div_two_pow_step(j, (level - 1) as nat);
                assert(((level - 1) as nat) + 1 == level);
            } else if l == level {
                assert(a != pos);
                assert(self.nodes@[l]@[a] == before.nodes@[l]@[a]);
            } else if l == level - 1 {
                assert(self.nodes@[l]@[a] == before.nodes@[l]@[a]);
            } else {
                assert(self.nodes@[l] == before.nodes@[l]);
            }
        }
        assert forall|j: int, l1: int, l2: int|
            0 <= j < leaves && l1 < l2 && #[trigger] self.covered_at(j, l1) implies !#[trigger] self.covered_at(j, l2) by {
            if self.covered_at(j, l2) {
                if before.covered_at(j, l1) && before.covered_at(j, l2) {
                } else if !before.covered_at(j, l1) {
                    assert(before.covered_at(j, level as int) && j / (two_pow(level) as int) == pos);
                    if l2 == level {
                        assert(!self.present(level, pos));
                    } else {
                        assert(before.covered_at(j, l2));
                    }
                } else {
                    assert(before.covered_at(j, level as int));
                }
            }
        }
        assert forall|j: int, l: int|
            0 <= j < leaves && (#[trigger] self.handshake_sender_ratchets@[j]) is Some implies !#[trigger] self.covered_at(j, l) by {
            assert(before.handshake_sender_ratchets@[j] is Some);
            if self.covered_at(j, l) {
                assert(before.covered_at(j, l) || before.covered_at(j, level as int));
            }
        }
        lemma_ancestor_in_row(index as int, depth, level);
        assert(two_pow((depth - (level - 1)) as nat) == 2 * two_pow((depth - level) as nat));
        assert forall|l: int| 0 <= l <= depth implies (#[trigger] self.nodes@[l])@.len() == two_pow((depth - l) as nat) by {
            if l != level && l != level - 1 {
                assert(self.nodes@[l] == before.nodes@[l]);
            }
        }
        assert forall|l: int, p: int|
            0 <= l <= depth && 0 <= p < two_pow((depth - l) as nat) && (#[trigger] self.nodes@[l]@[p]) is Some implies {
            &&& self.nodes@[l]@[p]->Some_0@ == node_secret(cs, root, depth, l as nat, p as nat)
            &&& l < depth ==> self.nodes@[l]@[p]->Some_0@.len() == cs.spec_hash_length()
        } by {
            if l == level - 1 && (p == 2 * pos || p == 2 * pos + 1) {
                assert(before.nodes@[level as int]@[pos as int] is Some);
                assert(p / 2 == pos);
                assert(node_secret(cs, root, depth, l as nat, p as nat) == child_secret(
                    cs,
                    node_secret(cs, root, depth, level, pos),
                    p % 2 == 1,
                ));
            } else if l == level {
                assert(p != pos);
                assert(self.nodes@[l]@[p] == before.nodes@[l]@[p]);
            } else if l == level - 1 {
                assert(self.nodes@[l]@[p] == before.nodes@[l]@[p]);
            } else {
                assert(self.nodes@[l] == before.nodes@[l]);
            }
        }
        lemma_div_two_pow_step(index as int, (level - 1) as nat);
        assert(((level - 1) as nat) + 1 == level);
        let q = (index as int) / (two_pow((level - 1) as nat) as int);
        assert(q == 2 * pos || q == 2 * pos + 1);
        assert(self.covered_at(index as int, level - 1));
        assert forall|j: int|
            0 <= j < self.size.spec_leaf_count() && (#[trigger] self.handshake_sender_ratchets@[j]) is None implies exists|l: int|
            #[trigger] self.covered_at(j, l) by {
            assert(before.handshake_sender_ratchets@[j] is None);
            let l = choose|l: int| #[trigger] before.covered_at(j, l);
            let a = (j / two_pow(l as nat) as int) as nat;
            lemma_ancestor_in_row(j, depth, l as nat);
            assert(before.nodes@[l]@.len() == two_pow((depth - l) as nat));
            if l == level && a == pos {
                lemma_div_two_pow_step(j, (level - 1) as nat);
                assert(((level - 1) as nat) + 1 == level);
                let qj = j / (two_pow((level - 1) as nat) as int);
                assert(qj == 2 * pos || qj == 2 * pos + 1);
                assert(self.covered_at(j, level - 1));
            } else if l == level {
                assert(self.nodes@[l]@[a as int] == before.nodes@[l]@[a as int]);
                assert(self.covered_at(j, l));
            } else if l == level - 1 {
                if a == 2 * pos || a == 2 * pos + 1 {
                    assert(self.covered_at(j, l));
                } else {
                    assert(self.nodes@[l]@[a as int] == before.nodes@[l]@[a as int]);
                    assert(self.covered_at(j, l));
                }
            } else {
                assert(self.nodes@[l] == before.nodes@[l]);
                assert(self.covered_at(j, l));
            }
        }
    }

    /// Deleting a leaf's secret and starting its two ratchets keeps the
    /// tree's invariants.
    proof fn lemma_leaf_started(self, before: SecretTree, index: nat, h: SenderRatchet, a: SenderRatchet)
        requires
            before.shape_ok(),
            before.nodes_ok(),
            before.covered(),
            before.ratchets_ok(),
            before.exclusive(),
            before.cleared(),
            before.covered_at(index as int, 0),
            before.root.value@.len() >= before.ciphersuite.spec_hash_length(),
            index < before.size.spec_leaf_count(),
            before.handshake_sender_ratchets@[index as int] is None,
            self.ciphersuite == before.ciphersuite,
            self.size == before.size,
            self.root == before.root,
            self.own_index == before.own_index,
            self.dual_use == before.dual_use,
            self.nodes@.len() == before.nodes@.len(),
            forall|l: int| 0 < l < before.nodes@.len() ==> #[trigger] self.nodes@[l] == before.nodes@[l],
            self.nodes@[0]@ == before.nodes@[0]@.update(index as int, None),
            self.handshake_sender_ratchets@ == before.handshake_sender_ratchets@.update(index as int, Some(h)),
            self.application_sender_ratchets@ == before.application_sender_ratchets@.update(index as int, Some(a)),
            Self::ratchet_ok(h, index == before.own_index.index, before.dual_use, before.ciphersuite),
            Self::ratchet_ok(a, index == before.own_index.index, before.dual_use, before.ciphersuite),
            sender_view(h) == initial_pair(before@, index).0,
            sender_view(a) == initial_pair(before@, index).1,
        ensures
            self.wf(),
            self@ == with_leaf(before@, index, initial_pair(before@, index)),
    {
        let depth = self.size.spec_depth();
        assert(two_pow(0) == 1);
        assert forall|l: int| 0 <= l <= depth implies (#[trigger] self.nodes@[l])@.len() == two_pow((depth - l) as nat) by {
            if l > 0 {
                assert(self.nodes@[l] == before.nodes@[l]);
            }
        }
        assert forall|l: int, p: int|
            0 <= l <= depth && 0 <= p < two_pow((depth - l) as nat) && (#[trigger] self.nodes@[l]@[p]) is Some implies {
            &&& self.nodes@[l]@[p]->Some_0@ == node_secret(self.ciphersuite, self.root.value@, depth, l as nat, p as nat)
            &&& l < depth ==> self.nodes@[l]@[p]->Some_0@.len() == self.ciphersuite.spec_hash_length()
        } by {
            if l > 0 {
                assert(self.nodes@[l] == before.nodes@[l]);
            } else {
                assert(self.nodes@[l]@[p] == before.nodes@[l]@[p]);
            }
        }
        assert forall|j: int|
            0 <= j < self.size.spec_leaf_count() && (#[trigger] self.handshake_sender_ratchets@[j]) is None implies exists|l: int|
            #[trigger] self.covered_at(j, l) by {
            assert(j != index);
            assert(before.handshake_sender_ratchets@[j] is None);
            let l = choose|l: int| #[trigger] before.covered_at(j, l);
            let pa = (j / two_pow(l as nat) as int) as nat;
            if l == 0 {
                assert(j / 1 == j);
                assert(self.nodes@[0]@[pa as int] == before.nodes@[0]@[pa as int]);
            } else {
                assert(self.nodes@[l] == before.nodes@[l]);
            }
            assert(self.covered_at(j, l));
        }
        let leaves = self.size.spec_leaf_count();
        assert forall|j: int| 0 <= j < leaves implies (#[trigger] self.handshake_sender_ratchets@[j] is Some
            <==> self.application_sender_ratchets@[j] is Some) by {
            if j != index {
                assert(before.handshake_sender_ratchets@[j] is Some <==> before.application_sender_ratchets@[j] is Some);
            }
        }
        assert(self.ratchets_ok());
        assert forall|j: int, l: int| 0 <= j < leaves && #[trigger] self.covered_at(j, l) implies before.covered_at(j, l)
            && !(j == index && l == 0) by {
            let pa = j / (two_pow(l as nat) as int);
            lemma_ancestor_in_row(j, depth, l as nat);
            if l == 0 {
                assert(two_pow(0) == 1);
                assert((l as nat) == 0);
                assert(two_pow(l as nat) == 1);
                assert(j / 1 == j) by (nonlinear_arith);
                assert(pa == j);
                assert(before.nodes@[0]@.len() == two_pow((depth - 0) as nat));
                assert(self.nodes@[0]@[index as int] is None);
                assert(pa != index);
                assert(self.nodes@[0]@[pa] == before.nodes@[0]@[pa]);
            } else {
                assert(self.nodes@[l] == before.nodes@[l]);
            }
        }
        assert forall|j: int, l1: int, l2: int|
            0 <= j < leaves && l1 < l2 && #[trigger] self.covered_at(j, l1) implies !#[trigger] self.covered_at(j, l2) by {
            if self.covered_at(j, l2) {
                assert(before.covered_at(j, l1));
                assert(before.covered_at(j, l2));
            }
        }
        assert forall|j: int, l: int|
            0 <= j < leaves && (#[trigger] self.handshake_sender_ratchets@[j]) is Some implies !#[trigger] self.covered_at(j, l) by {
            if self.covered_at(j, l) {
                assert(before.covered_at(j, l));
                if j == index {
                    assert(l > 0);
                    assert(before.covered_at(index as int, 0));
                } else {
                    assert(before.handshake_sender_ratchets@[j] is Some);
                }
            }
        }
        assert(self@.leaves =~= with_leaf(before@, index, initial_pair(before@, index)).leaves);
    }

    /// The member's own leaf.
    pub fn own_index(&self) -> (r: LeafNodeIndex)
        ensures
            r.index == self@.own,
    {
        self.own_index
    }

    /// The cipher suite of the tree.
    pub fn ciphersuite(&self) -> (r: Ciphersuite)
        ensures
            r == self@.ciphersuite,
    {
        self.ciphersuite
    }

    /// The number of leaves.
    pub fn leaf_count(&self) -> (r: u32)
        requires
            self.wf(),
        ensures
            r == two_pow(self@.depth),
            r == self@.leaves.len(),
    {
        self.size.leaf_count()
    }

    /// The generation of a leaf's ratchet: zero before the ratchet exists or
    /// outside the tree.
    pub fn generation(&self, index: LeafNodeIndex, secret_type: SecretType) -> (r: u32)
        requires
            self.wf(),
        ensures
            r == if index.index < self@.leaves.len() && self@.leaves[index.index as int] is Some {
                sender_generation(select(self@.leaves[index.index as int]->Some_0, secret_type))
            } else {
                0
            },
    {
        let i = index.u32();
        if i >= self.size.leaf_count() {
            return 0;
        }
        let iu = i as usize;
        let entry = match secret_type {
            SecretType::HandshakeSecret => &self.handshake_sender_ratchets[iu],
            SecretType::ApplicationSecret => &self.application_sender_ratchets[iu],
        };
        assert(self.handshake_sender_ratchets@[i as int] is Some <==> self.application_sender_ratchets@[i as int] is Some);
        match entry {
            Some(SenderRatchet::EncryptionRatchet(e)) => e.generation(),
            Some(SenderRatchet::DecryptionRatchet(d)) => d.generation(),
            Some(SenderRatchet::DualUseRatchet(d)) => d.generation(),
            None => 0,
        }
    }

    /// Whether the ratchets of a leaf were started.
    pub fn ratchets_started(&self, index: LeafNodeIndex) -> (r: bool)
        requires
            self.wf(),
        ensures
            r == (index.index < self@.leaves.len() && self@.leaves[index.index as int] is Some),
    {
        let i = index.u32();
        if i >= self.size.leaf_count() {
            return false;
        }
        self.handshake_sender_ratchets[i as usize].is_some()
    }

    /// Starts leaf `i`'s ratchets if they do not exist yet; afterwards the
    /// leaf's ratchets are those of `leaf_pair` of the tree before.
    fn ensure_started(&mut self, crypto: &RustCrypto, i: u32) -> (r: Result<(), SecretTreeError>)
        requires
            old(self).wf(),
            i < old(self)@.leaves.len(),
        ensures
            final(self).wf(),
            setup_fails(old(self)@, i as nat) ==> (r matches Err(SecretTreeError::CryptoError(_))) && final(self)@ == old(self)@
                && final(self).nodes == old(self).nodes,
            old(self)@.leaves[i as int] is Some ==> final(self).nodes == old(self).nodes,
            !setup_fails(old(self)@, i as nat) ==> {
                &&& r is Ok
                &&& final(self)@ == with_leaf(old(self)@, i as nat, leaf_pair(old(self)@, i as nat))
                &&& final(self).handshake_sender_ratchets@[i as int] is Some
                &&& final(self).application_sender_ratchets@[i as int] is Some
            },
    {
        let ghost v = self@;
        let iu = i as usize;
        proof {
            assert(self.handshake_sender_ratchets@[i as int] is Some <==> self.application_sender_ratchets@[i as int] is Some);
        }
        if self.handshake_sender_ratchets[iu].is_none() {
            match self.initialize_sender_ratchets(crypto, i) {
                Ok(()) => {},
                Err(e) => {
                    return Err(e);
                },
            }
            proof {
                assert(self@.leaves[i as int] is Some);
                assert(self.handshake_sender_ratchets@[i as int] is Some <==> self.application_sender_ratchets@[i as int] is Some);
            }
        } else {
            proof {
                assert(self@.leaves =~= with_leaf(v, i as nat, leaf_pair(v, i as nat)).leaves);
            }
        }
        Ok(())
    }

    /// Hands out the key material of `generation` of a leaf's ratchet for
    /// decryption, starting the leaf's ratchets first if they do not exist
    /// yet: another member's leaf, or the own leaf when it is shared by
    /// several devices.
    pub fn secret_for_decryption(
        &mut self,
        crypto: &RustCrypto,
        index: LeafNodeIndex,
        secret_type: SecretType,
        generation: u32,
        configuration: &SenderRatchetConfiguration,
    ) -> (r: Result<RatchetKeyMaterial, SecretTreeError>)
        requires
            old(self).wf(),
        ensures
            final(self).wf(),
            ({
                let v = old(self)@;
                let i = index.index as nat;
                i >= v.leaves.len() || (i == v.own && !v.dual_use) || setup_fails(v, i) || v.leaves[i as int] is Some
                    ==> final(self).node_store() == old(self).node_store()
            }),
            final(self)@ == tree_decryption_after(
                old(self)@,
                index.index as nat,
                secret_type,
                generation,
                configuration.spec_tolerance(),
                configuration.spec_distance(),
            ),
            ({
                let v = old(self)@;
                let i = index.index as nat;
                let tolerance = configuration.spec_tolerance();
                let distance = configuration.spec_distance();
                let p = leaf_pair(v, i);
                let x = select(p, secret_type);
                if i >= v.leaves.len() {
                    r == Err::<RatchetKeyMaterial, SecretTreeError>(SecretTreeError::IndexOutOfBounds) && final(self)@ == v
                } else if i == v.own && !v.dual_use {
                    r == Err::<RatchetKeyMaterial, SecretTreeError>(SecretTreeError::RatchetTypeError) && final(self)@ == v
                } else if setup_fails(v, i) {
                    (r matches Err(SecretTreeError::CryptoError(_))) && final(self)@ == v
                } else if i == v.own {
                    let d = as_dual_use(x);
                    match dual_refusal(d, generation, tolerance, distance) {
                        Some(e) => r == Err::<RatchetKeyMaterial, SecretTreeError>(e) && final(self)@ == with_leaf(v, i, p),
                        None => {
                            &&& r is Ok
                            &&& material_view(r->Ok_0) == dual_material(d, v.ciphersuite, generation)
                            &&& final(self)@ == with_leaf(
                                v,
                                i,
                                replace(p, secret_type, SenderView::DualUse(dual_next(d, v.ciphersuite, generation, tolerance))),
                            )
                        },
                    }
                } else {
                    let d = as_decryption(x);
                    match decryption_refusal(d, generation, tolerance, distance) {
                        Some(e) => r == Err::<RatchetKeyMaterial, SecretTreeError>(e) && final(self)@ == with_leaf(v, i, p),
                        None => {
                            &&& r is Ok
                            &&& material_view(r->Ok_0) == decryption_material(d, v.ciphersuite, generation)
                            &&& final(self)@ == with_leaf(
                                v,
                                i,
                                replace(p, secret_type, SenderView::Decryption(decryption_next(d, v.ciphersuite, generation, tolerance))),
                            )
                        },
                    }
                }
            }),
    {
        let ghost v = self@;
        let i = index.u32();
        if i >= self.size.leaf_count() {
            return Err(SecretTreeError::IndexOutOfBounds);
        }
        if i == self.own_index.index && !self.dual_use {
            return Err(SecretTreeError::RatchetTypeError);
        }
        let iu = i as usize;
        match self.ensure_started(crypto, i) {
            Ok(()) => {},
            Err(e) => {
                return Err(e);
            },
        }
        let ghost started = *self;
        let ghost p = leaf_pair(v, i as nat);
        proof {
            assert(self@.leaves[i as int] == Some(p));
        }
        let cs = self.ciphersuite;
        let entry = match secret_type {
            SecretType::HandshakeSecret => self.handshake_sender_ratchets[iu].take(),
            SecretType::ApplicationSecret => self.application_sender_ratchets[iu].take(),
        };
        let (r, updated) = match entry {
            Some(SenderRatchet::DecryptionRatchet(mut ratchet)) => {
                proof {
                    assert(SenderView::Decryption(ratchet@) == select(p, secret_type));
                }
                let r = ratchet.secret_for_decryption(cs, crypto, generation, configuration);
                (r, SenderRatchet::DecryptionRatchet(ratchet))
            },
            Some(SenderRatchet::DualUseRatchet(mut ratchet)) => {
                proof {
                    assert(SenderView::DualUse(ratchet@) == select(p, secret_type));
                }
                let r = ratchet.secret_for_decryption(cs, crypto, generation, configuration);
                (r, SenderRatchet::DualUseRatchet(ratchet))
            },
            _ => {
                return Err(SecretTreeError::RatchetTypeError);
            },
        };
        let ghost updated_view = updated;
        self.put_back(iu, secret_type, updated);
        proof {
            match secret_type {
                SecretType::HandshakeSecret => {
                    assert(self.handshake_sender_ratchets@ =~= started.handshake_sender_ratchets@.update(
                        i as int,
                        Some(updated_view),
                    ));
                },
                SecretType::ApplicationSecret => {
                    assert(self.application_sender_ratchets@ =~= started.application_sender_ratchets@.update(
                        i as int,
                        Some(updated_view),
                    ));
                },
            }
            self.lemma_ratchet_replaced(started, i as nat, secret_type, updated_view);
            assert(self@.leaves =~= with_leaf(v, i as nat, replace(p, secret_type, sender_view(updated_view))).leaves);
            assert(with_leaf(v, i as nat, p).leaves =~= v.leaves.update(i as int, Some(p)));
        }
        r
    }

    /// Puts a ratchet back into a leaf's slot of the given kind.
    fn put_back(&mut self, iu: usize, secret_type: SecretType, ratchet: SenderRatchet)
        requires
            iu < old(self).handshake_sender_ratchets@.len(),
            iu < old(self).application_sender_ratchets@.len(),
        ensures
            final(self).ciphersuite == old(self).ciphersuite,
            final(self).size == old(self).size,
            final(self).root == old(self).root,
            final(self).own_index == old(self).own_index,
            final(self).dual_use == old(self).dual_use,
            final(self).nodes == old(self).nodes,
            secret_type == SecretType::HandshakeSecret ==> {
                &&& final(self).handshake_sender_ratchets@ == old(self).handshake_sender_ratchets@.update(iu as int, Some(ratchet))
                &&& final(self).application_sender_ratchets == old(self).application_sender_ratchets
            },
            secret_type == SecretType::ApplicationSecret ==> {
                &&& final(self).application_sender_ratchets@ == old(self).application_sender_ratchets@.update(iu as int, Some(ratchet))
                &&& final(self).handshake_sender_ratchets == old(self).handshake_sender_ratchets
            },
    {
        match secret_type {
            SecretType::HandshakeSecret => {
                self.handshake_sender_ratchets.set(iu, Some(ratchet));
            },
            SecretType::ApplicationSecret => {
                self.application_sender_ratchets.set(iu, Some(ratchet));
            },
        }
    }

    /// Hands out the key material of the own leaf's next generation for an
    /// own message, starting the leaf's ratchets first if they do not exist
    /// yet. A shared own leaf keeps the material until the message is
    /// confirmed.
    pub fn secret_for_encryption(
        &mut self,
        crypto: &RustCrypto,
        index: LeafNodeIndex,
        secret_type: SecretType,
    ) -> (r: Result<(u32, RatchetKeyMaterial), SecretTreeError>)
        requires
            old(self).wf(),
        ensures
            final(self).wf(),
            ({
                let v = old(self)@;
                let i = index.index as nat;
                i >= v.leaves.len() || i != v.own || setup_fails(v, i) || v.leaves[i as int] is Some
                    ==> final(self).node_store() == old(self).node_store()
            }),
            ({
                let v = old(self)@;
                let i = index.index as nat;
                if i >= v.leaves.len() {
                    r == Err::<(u32, RatchetKeyMaterial), SecretTreeError>(SecretTreeError::IndexOutOfBounds) && final(self)@ == v
                } else if i != v.own {
                    r == Err::<(u32, RatchetKeyMaterial), SecretTreeError>(SecretTreeError::RatchetTypeError) && final(self)@ == v
                } else if setup_fails(v, i) {
                    (r matches Err(SecretTreeError::CryptoError(_))) && final(self)@ == v
                } else {
                    let p = leaf_pair(v, i);
                    let x = select(p, secret_type);
                    let g = sender_generation(x);
                    if g == u32::MAX {
                        r == Err::<(u32, RatchetKeyMaterial), SecretTreeError>(SecretTreeError::RatchetTooLong)
                            && final(self)@ == with_leaf(v, i, p)
                    } else {
                        &&& r is Ok
                        &&& r->Ok_0.0 == g
                        &&& material_view(r->Ok_0.1) == key_material(v.ciphersuite, sender_secret(x), g as nat)
                        &&& final(self)@ == with_leaf(v, i, replace(p, secret_type, after_encryption(x, v.ciphersuite)))
                    }
                }
            }),
    {
        let ghost v = self@;
        let i = index.u32();
        if i >= self.size.leaf_count() {
            return Err(SecretTreeError::IndexOutOfBounds);
        }
        if i != self.own_index.index {
            return Err(SecretTreeError::RatchetTypeError);
        }
        let iu = i as usize;
        match self.ensure_started(crypto, i) {
            Ok(()) => {},
            Err(e) => {
                return Err(e);
            },
        }
        let ghost started = *self;
        let ghost p = leaf_pair(v, i as nat);
        proof {
            assert(self@.leaves[i as int] == Some(p));
        }
        let cs = self.ciphersuite;
        let entry = match secret_type {
            SecretType::HandshakeSecret => self.handshake_sender_ratchets[iu].take(),
            SecretType::ApplicationSecret => self.application_sender_ratchets[iu].take(),
        };
        let (r, updated) = match entry {
            Some(SenderRatchet::EncryptionRatchet(mut ratchet)) => {
                proof {
                    assert(SenderView::Encryption(ratchet.spec_secret(), ratchet.spec_generation()) == select(p, secret_type));
                }
                let r = ratchet.ratchet_forward(crypto, cs);
                (r, SenderRatchet::EncryptionRatchet(ratchet))
            },
            Some(SenderRatchet::DualUseRatchet(mut ratchet)) => {
                proof {
                    assert(SenderView::DualUse(ratchet@) == select(p, secret_type));
                }
                let r = ratchet.secret_for_encryption(cs, crypto);
                (r, SenderRatchet::DualUseRatchet(ratchet))
            },
            _ => {
                return Err(SecretTreeError::RatchetTypeError);
            },
        };
        let ghost updated_view = updated;
        self.put_back(iu, secret_type, updated);
        proof {
            match secret_type {
                SecretType::HandshakeSecret => {
                    assert(self.handshake_sender_ratchets@ =~= started.handshake_sender_ratchets@.update(
                        i as int,
                        Some(updated_view),
                    ));
                },
                SecretType::ApplicationSecret => {
                    assert(self.application_sender_ratchets@ =~= started.application_sender_ratchets@.update(
                        i as int,
                        Some(updated_view),
                    ));
                },
            }
            self.lemma_ratchet_replaced(started, i as nat, secret_type, updated_view);
            assert(self@.leaves =~= with_leaf(v, i as nat, replace(p, secret_type, sender_view(updated_view))).leaves);
            assert(with_leaf(v, i as nat, p).leaves =~= v.leaves.update(i as int, Some(p)));
        }
        r
    }

    /// Sends an application message of the shared own leaf in a generation
    /// lane. The lane is checked against the configuration before the leaf's
    /// ratchets are started.
    pub fn secret_for_application_encryption_in_generation_lane(
        &mut self,
        crypto: &RustCrypto,
        index: LeafNodeIndex,
        lane: GenerationLaneContext,
        configuration: &SenderRatchetConfiguration,
    ) -> (r: Result<(u32, RatchetKeyMaterial), SecretTreeError>)
        requires
            old(self).wf(),
        ensures
            final(self).wf(),
            ({
                let v = old(self)@;
                let i = index.index as nat;
                r is Err || (i < v.leaves.len() && v.leaves[i as int] is Some)
                    ==> final(self).node_store() == old(self).node_store()
            }),
            r is Err ==> final(self)@ == old(self)@,
            ({
                let v = old(self)@;
                let i = index.index as nat;
                let tolerance = configuration.spec_tolerance();
                let distance = configuration.spec_distance();
                if i >= v.leaves.len() {
                    r == Err::<(u32, RatchetKeyMaterial), SecretTreeError>(SecretTreeError::IndexOutOfBounds) && final(self)@ == v
                } else if i != v.own || !v.dual_use {
                    r == Err::<(u32, RatchetKeyMaterial), SecretTreeError>(SecretTreeError::RatchetTypeError) && final(self)@ == v
                } else if lane.residue >= lane.width {
                    r == Err::<(u32, RatchetKeyMaterial), SecretTreeError>(SecretTreeError::GenerationLaneInvalidResidue)
                        && final(self)@ == v
                } else if lane.width - 1 > tolerance || lane.width - 1 > distance {
                    r == Err::<(u32, RatchetKeyMaterial), SecretTreeError>(SecretTreeError::GenerationLaneTooWide)
                        && final(self)@ == v
                } else if setup_fails(v, i) {
                    (r matches Err(SecretTreeError::CryptoError(_))) && final(self)@ == v
                } else {
                    let p = leaf_pair(v, i);
                    let d = as_dual_use(p.1);
                    let k = lane_offset(d.generation, lane.width, lane.residue);
                    match lane_refusal(d, lane.width, lane.residue, tolerance, distance) {
                        Some(e) => r == Err::<(u32, RatchetKeyMaterial), SecretTreeError>(e) && final(self)@ == with_leaf(v, i, p),
                        None => {
                            &&& r is Ok
                            &&& r->Ok_0.0 == d.generation + k
                            &&& material_view(r->Ok_0.1) == material_at(v.ciphersuite, d.secret, d.generation as nat, k)
                            &&& final(self)@ == with_leaf(
                                v,
                                i,
                                replace(
                                    p,
                                    SecretType::ApplicationSecret,
                                    SenderView::DualUse(lane_next(d, v.ciphersuite, lane.width, lane.residue, tolerance)),
                                ),
                            )
                        },
                    }
                }
            }),
    {
        let ghost v = self@;
        let i = index.u32();
        if i >= self.size.leaf_count() {
            return Err(SecretTreeError::IndexOutOfBounds);
        }
        if i != self.own_index.index || !self.dual_use {
            return Err(SecretTreeError::RatchetTypeError);
        }
        if lane.residue >= lane.width {
            return Err(SecretTreeError::GenerationLaneInvalidResidue);
        }
        let tolerance = configuration.out_of_order_tolerance();
        let distance = configuration.maximum_forward_distance();
        if lane.width - 1 > tolerance || lane.width - 1 > distance {
            return Err(SecretTreeError::GenerationLaneTooWide);
        }
        let iu = i as usize;
        match self.ensure_started(crypto, i) {
            Ok(()) => {},
            Err(e) => {
                return Err(e);
            },
        }
        let ghost started = *self;
        let ghost p = leaf_pair(v, i as nat);
        proof {
            assert(self@.leaves[i as int] == Some(p));
        }
        let cs = self.ciphersuite;
        let entry = self.application_sender_ratchets[iu].take();
        let (r, updated) = match entry {
            Some(SenderRatchet::DualUseRatchet(mut ratchet)) => {
                proof {
                    assert(SenderView::DualUse(ratchet@) == p.1);
                }
                let r = ratchet.secret_for_encryption_in_generation_lane(cs, crypto, lane, configuration);
                (r, SenderRatchet::DualUseRatchet(ratchet))
            },
            _ => {
                return Err(SecretTreeError::RatchetTypeError);
            },
        };
        let ghost updated_view = updated;
        self.put_back(iu, SecretType::ApplicationSecret, updated);
        proof {
            assert(self.application_sender_ratchets@ =~= started.application_sender_ratchets@.update(
                i as int,
                Some(updated_view),
            ));
            self.lemma_ratchet_replaced(started, i as nat, SecretType::ApplicationSecret, updated_view);
            assert(self@.leaves =~= with_leaf(
                v,
                i as nat,
                replace(p, SecretType::ApplicationSecret, sender_view(updated_view)),
            ).leaves);
            assert(with_leaf(v, i as nat, p).leaves =~= v.leaves.update(i as int, Some(p)));
            if v.leaves[i as int] is None {
                lemma_lane_target(0, lane.width, lane.residue);
                assert(as_dual_use(p.1).generation == 0);
            } else {
                assert(v.leaves.update(i as int, Some(p)) =~= v.leaves);
            }
        }
        r
    }

    /// Putting back one of an existing leaf's ratchets, of the same kind and
    /// with a secret of a hash output's length, keeps the invariants.
    proof fn lemma_ratchet_replaced(self, before: SecretTree, index: nat, st: SecretType, x: SenderRatchet)
        requires
            before.wf(),
            index < before.size.spec_leaf_count(),
            before.handshake_sender_ratchets@[index as int] is Some,
            Self::ratchet_ok(x, index == before.own_index.index, before.dual_use, before.ciphersuite),
            self.ciphersuite == before.ciphersuite,
            self.size == before.size,
            self.root == before.root,
            self.own_index == before.own_index,
            self.dual_use == before.dual_use,
            self.nodes == before.nodes,
            st == SecretType::HandshakeSecret ==> {
                &&& self.handshake_sender_ratchets@ == before.handshake_sender_ratchets@.update(index as int, Some(x))
                &&& self.application_sender_ratchets == before.application_sender_ratchets
            },
            st == SecretType::ApplicationSecret ==> {
                &&& self.application_sender_ratchets@ == before.application_sender_ratchets@.update(index as int, Some(x))
                &&& self.handshake_sender_ratchets == before.handshake_sender_ratchets
            },
        ensures
            self.wf(),
            self@ == with_leaf(before@, index, replace(before@.leaves[index as int]->Some_0, st, sender_view(x))),
    {
        let leaves = self.size.spec_leaf_count();
        assert(before.handshake_sender_ratchets@[index as int] is Some <==> before.application_sender_ratchets@[index as int] is Some);
        assert forall|j: int|
            0 <= j < leaves && (#[trigger] self.handshake_sender_ratchets@[j]) is None implies exists|l: int|
            #[trigger] self.covered_at(j, l) by {
            assert(before.handshake_sender_ratchets@[j] is None);
            let l = choose|l: int| #[trigger] before.covered_at(j, l);
            assert(self.covered_at(j, l));
        }
        assert forall|j: int| 0 <= j < leaves implies (#[trigger] self.handshake_sender_ratchets@[j] is Some
            <==> self.application_sender_ratchets@[j] is Some) by {
            assert(before.handshake_sender_ratchets@[j] is Some <==> before.application_sender_ratchets@[j] is Some);
        }
        assert(self.ratchets_ok());
        assert forall|j: int, l: int|
            0 <= j < leaves && (#[trigger] self.handshake_sender_ratchets@[j]) is Some implies !#[trigger] self.covered_at(j, l) by {
            assert(before.handshake_sender_ratchets@[j] is Some);
            assert(!before.covered_at(j, l));
        }
        assert forall|j: int, l1: int, l2: int|
            0 <= j < leaves && l1 < l2 && #[trigger] self.covered_at(j, l1) implies !#[trigger] self.covered_at(j, l2) by {
            assert(before.covered_at(j, l1) == self.covered_at(j, l1));
            assert(before.covered_at(j, l2) == self.covered_at(j, l2));
        }
        assert(self@.leaves =~= with_leaf(before@, index, replace(before@.leaves[index as int]->Some_0, st, sender_view(x))).leaves);
    }

    closed spec fn ratchet_ok(r: SenderRatchet, own: bool, dual_use: bool, cs: Ciphersuite) -> bool {
        match r {
            SenderRatchet::EncryptionRatchet(e) => own && !dual_use && e.spec_secret().len() == cs.spec_hash_length(),
            SenderRatchet::DecryptionRatchet(d) => !own && d@.secret.len() == cs.spec_hash_length(),
            SenderRatchet::DualUseRatchet(d) => own && dual_use && d@.secret.len() == cs.spec_hash_length() && dual_wf(d@),
        }
    }
}

} // verus!
