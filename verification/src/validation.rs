//! What the validation of an object comes to.
//!
//! An object is judged with the objects it depends on, as far as they are at
//! hand, and those with theirs. What cannot be looked at here comes in as
//! plain values: what asking the store or the network for an object came to,
//! and what checking a signature came to. What is shown to be wrong is
//! invalid; what could not be checked leaves the object unresolved, which is
//! no verdict on its content.

use crate::hashed_object::{Lookup, ObjectView, SignatureCheck, Verdict};
use crate::hashing;
use crate::missing::{lemma_off_chain_decreases, off_chain, Graph};
use vstd::prelude::*;

verus! {

/// An object at hand, with what only its class can say of it.
pub struct Held {
    pub object: ObjectView,
    /// The digest of the object as it is.
    pub digest: hashing::Hash,
    /// Whether what the class asks of its objects holds of this one.
    pub sound: bool,
}

/// The worse of two verdicts: invalid before unresolved before valid.
pub open spec fn worse(one: Verdict, other: Verdict) -> Verdict {
    if one == Verdict::Invalid || other == Verdict::Invalid {
        Verdict::Invalid
    } else if one == Verdict::Unresolved || other == Verdict::Unresolved {
        Verdict::Unresolved
    } else {
        Verdict::Valid
    }
}

/// Whether the object by itself is shown to be wrong: its class says so; or
/// it remembers a digest that is not its own; or it is to be signed and has
/// an author but no signature; or its signature was rejected.
pub open spec fn own_fault(held: Held, signature: SignatureCheck) -> bool {
    ||| !held.sound
    ||| held.object.last_hash is Some && held.object.last_hash != Some(held.digest)
    ||| held.object.author is Some && held.object.last_signature is None
        && held.object.sign_on_save
    ||| held.object.author is Some && held.object.last_signature is Some && signature
        == SignatureCheck::Rejected
}

/// The verdict on the object by itself, its dependencies left aside. A
/// signature that could not be checked leaves it unresolved.
pub open spec fn own_verdict(held: Held, signature: SignatureCheck) -> Verdict {
    if own_fault(held, signature) {
        Verdict::Invalid
    } else if held.object.author is Some && held.object.last_signature is Some && signature
        == SignatureCheck::Unchecked {
        Verdict::Unresolved
    } else {
        Verdict::Valid
    }
}

/// What checking the signature of the object under `hash` came to; it was
/// not checked where nothing is said of it.
pub open spec fn signature_of(
    signatures: Map<hashing::Hash, SignatureCheck>,
    hash: hashing::Hash,
) -> SignatureCheck {
    if signatures.contains_key(hash) {
        signatures[hash]
    } else {
        SignatureCheck::Unchecked
    }
}

/// The verdict on an object that is not at hand: valid where it was found
/// outside, invalid where there is none, unresolved where that could not be
/// asked or was not.
pub open spec fn lookup_verdict(
    lookups: Map<hashing::Hash, Lookup>,
    hash: hashing::Hash,
) -> Verdict {
    if !lookups.contains_key(hash) {
        Verdict::Unresolved
    } else {
        match lookups[hash] {
            Lookup::Present => Verdict::Valid,
            Lookup::Absent => Verdict::Invalid,
            Lookup::Failed => Verdict::Unresolved,
        }
    }
}

/// The dependencies among the objects at hand.
pub open spec fn held_graph(at_hand: Map<hashing::Hash, Held>) -> Graph {
    at_hand.map_values(|held: Held| held.object.literal_dependencies())
}

/// The verdict on the object that is depended on under `hash`, reached along
/// `chain`. One at hand must have `hash` as its digest and be valid by
/// itself and in each of its dependencies; one that is met again on its own
/// chain closes a cycle and is invalid.
pub open spec fn verdict_of(
    at_hand: Map<hashing::Hash, Held>,
    lookups: Map<hashing::Hash, Lookup>,
    signatures: Map<hashing::Hash, SignatureCheck>,
    hash: hashing::Hash,
    chain: Seq<hashing::Hash>,
) -> Verdict
    decreases off_chain(held_graph(at_hand), chain), 0nat, 0nat,
    when at_hand.dom().finite()
{
    if !at_hand.contains_key(hash) {
        lookup_verdict(lookups, hash)
    } else if chain.contains(hash) || at_hand[hash].digest != hash {
        Verdict::Invalid
    } else {
        proof {
            assert(held_graph(at_hand).dom() =~= at_hand.dom());
            lemma_off_chain_decreases(held_graph(at_hand), hash, chain);
        }
        worse(
            own_verdict(at_hand[hash], signature_of(signatures, hash)),
            verdict_among(
                at_hand,
                lookups,
                signatures,
                at_hand[hash].object.literal_dependencies(),
                seq![hash] + chain,
            ),
        )
    }
}

/// The worst of the verdicts on `dependencies`.
pub open spec fn verdict_among(
    at_hand: Map<hashing::Hash, Held>,
    lookups: Map<hashing::Hash, Lookup>,
    signatures: Map<hashing::Hash, SignatureCheck>,
    dependencies: Seq<hashing::Hash>,
    chain: Seq<hashing::Hash>,
) -> Verdict
    decreases off_chain(held_graph(at_hand), chain), 1nat, dependencies.len(),
    when at_hand.dom().finite()
{
    if dependencies.len() == 0 {
        Verdict::Valid
    } else {
        worse(
            verdict_among(at_hand, lookups, signatures, dependencies.drop_last(), chain),
            verdict_of(at_hand, lookups, signatures, dependencies.last(), chain),
        )
    }
}

/// The verdict on `subject`: the worse of the verdict on it by itself and
/// the verdicts on what it depends on.
pub open spec fn verdict(
    subject: Held,
    at_hand: Map<hashing::Hash, Held>,
    lookups: Map<hashing::Hash, Lookup>,
    signatures: Map<hashing::Hash, SignatureCheck>,
    signature: SignatureCheck,
) -> Verdict {
    worse(
        own_verdict(subject, signature),
        verdict_among(
            at_hand,
            lookups,
            signatures,
            subject.object.literal_dependencies(),
            Seq::empty(),
        ),
    )
}

/// An object whose class finds it wrong is invalid, whatever else holds.
pub proof fn lemma_unsound_is_invalid(
    subject: Held,
    at_hand: Map<hashing::Hash, Held>,
    lookups: Map<hashing::Hash, Lookup>,
    signatures: Map<hashing::Hash, SignatureCheck>,
    signature: SignatureCheck,
)
    requires
        !subject.sound,
    ensures
        verdict(subject, at_hand, lookups, signatures, signature) == Verdict::Invalid,
{
}

/// A dependency that does not exist makes the object invalid, whatever
/// could not be checked.
pub proof fn lemma_absent_dependency_is_invalid(
    at_hand: Map<hashing::Hash, Held>,
    lookups: Map<hashing::Hash, Lookup>,
    signatures: Map<hashing::Hash, SignatureCheck>,
    dependencies: Seq<hashing::Hash>,
    chain: Seq<hashing::Hash>,
    index: int,
)
    requires
        at_hand.dom().finite(),
        0 <= index < dependencies.len(),
        !at_hand.contains_key(dependencies[index]),
        lookups.contains_key(dependencies[index]),
        lookups[dependencies[index]] == Lookup::Absent,
    ensures
        verdict_among(at_hand, lookups, signatures, dependencies, chain) == Verdict::Invalid,
    decreases dependencies.len(),
{
    let last = dependencies.last();
    if index == dependencies.len() - 1 {
        assert(verdict_of(at_hand, lookups, signatures, last, chain) == lookup_verdict(
            lookups,
            last,
        ));
    } else {
        assert(dependencies.drop_last()[index] == dependencies[index]);
        lemma_absent_dependency_is_invalid(
            at_hand,
            lookups,
            signatures,
            dependencies.drop_last(),
            chain,
            index,
        );
    }
}

} // verus!
