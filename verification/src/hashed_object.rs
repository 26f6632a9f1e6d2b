//! Hashed objects: the nodes of the graph, as they are held in memory.
//!
//! An object has a class, an identifier that is given once, an optional
//! author, a payload and references to other objects. Its digest is taken
//! over its literal form, which holds all of these. The digest that was
//! computed last is remembered, and forgotten when the content changes.

use crate::context::{Resources, ResourcesView};
use crate::hashing;
use crate::hashing::{digest, digest_of, framed, push_bytes, push_framed};
use crate::hex::{hex_digits, push_hex};
use crate::literal::{canonical_bytes, canonical_form, content_hash, Literal, LiteralView};
use crate::merge::contains_hash;
use crate::missing::{extended_chain, lemma_off_chain_decreases, off_chain};
use crate::validation::{
    held_graph, own_verdict, verdict, verdict_among, verdict_of, worse, Held,
};
use std::collections::HashMap;
use vstd::prelude::*;
use vstd::string::StringExecFns;
use vstd::utf8::encode_utf8;

verus! {

/// The number of random bits in an identifier that is drawn by chance.
pub const BITS_FOR_ID: u32 = 128;

/// Why an operation was refused. The object is left as it was.
#[derive(Clone, Copy, Debug, PartialEq, Eq, Structural)]
pub enum InvalidState {
    /// The object has an identifier already.
    IdAlreadySet,
    /// A signature was offered for an object without an author.
    NoAuthor,
    /// A signature was offered for an object whose digest is not known.
    NotHashed,
}

/// Where an object stands between its creation and its signature.
#[derive(Clone, Copy, Debug, PartialEq, Eq, Structural)]
pub enum Lifecycle {
    /// Without an identifier.
    Unbound,
    /// With an identifier; the digest is not known or no longer holds.
    Identified,
    /// With an identifier and the digest of the content as it is.
    Hashed,
    /// Hashed, with an author and a signature over the digest.
    Signed,
}

/// Who stands behind an object: the holder of a key pair.
pub struct Identity {
    pub public_key: Vec<u8>,
}

/// The digest under which the holder of `public_key` is referred to.
pub open spec fn identity_digest(public_key: Seq<u8>) -> hashing::Hash {
    content_hash("Identity"@, public_key, Seq::empty())
}

impl Identity {
    /// The digest under which this identity is referred to.
    pub fn hash(&self) -> (digest: hashing::Hash)
        ensures
            digest == identity_digest(self.public_key@),
    {
        let none: Vec<hashing::Hash> = Vec::new();
        let bytes = canonical_form("Identity", self.public_key.as_slice(), &none);
        digest(bytes.as_slice())
    }
}

impl Clone for Identity {
    fn clone(&self) -> (copy: Identity)
        ensures
            copy.public_key@ == self.public_key@,
    {
        Identity { public_key: self.public_key.clone() }
    }
}

/// The text of an optional string.
pub open spec fn optional_text(text: Option<String>) -> Option<Seq<char>> {
    match text {
        Some(text) => Some(text@),
        None => None,
    }
}

/// An object's state as plain values.
pub struct ObjectView {
    pub class_name: Seq<char>,
    pub id: Option<Seq<char>>,
    /// The public key of the author.
    pub author: Option<Seq<u8>>,
    pub payload: Seq<u8>,
    pub references: Seq<hashing::Hash>,
    pub last_hash: Option<hashing::Hash>,
    /// The literal form that was taken last, or that the object came as.
    pub last_literal: Option<LiteralView>,
    pub last_signature: Option<Seq<char>>,
    /// What the object is bound to.
    pub resources: Option<ResourcesView>,
    /// Whether objects of this class are signed when they are saved.
    pub sign_on_save: bool,
    /// The derived fields that were added, each with the digest of the
    /// object that was attached to it, if one was.
    pub derived: Seq<(Seq<char>, Option<hashing::Hash>)>,
}

impl ObjectView {
    /// The payload of the literal form: whether there is an identifier, and
    /// the identifier behind its length; whether there is an author; the
    /// object's own payload.
    pub open spec fn literal_payload(self) -> Seq<u8> {
        (match self.id {
            Some(id) => seq![1u8] + framed(encode_utf8(id)),
            None => seq![0u8],
        }) + (match self.author {
            Some(_) => seq![1u8],
            None => seq![0u8],
        }) + self.payload
    }

    /// The dependencies of the literal form: the author, if there is one,
    /// then the references.
    pub open spec fn literal_dependencies(self) -> Seq<hashing::Hash> {
        (match self.author {
            Some(public_key) => seq![identity_digest(public_key)],
            None => Seq::empty(),
        }) + self.references
    }

    /// The digest of the content as it is.
    pub open spec fn content_digest(self) -> hashing::Hash {
        content_hash(self.class_name, self.literal_payload(), self.literal_dependencies())
    }

    /// The literal form.
    pub open spec fn literal(self) -> LiteralView {
        LiteralView {
            hash: self.content_digest(),
            dependencies: self.literal_dependencies(),
            payload: self.literal_payload(),
            type_tag: self.class_name,
        }
    }

    /// The digest under `seed`: that of the seed, behind its length, and the
    /// bytes of the literal form; without a seed, that of the content.
    pub open spec fn digest(self, seed: Option<Seq<char>>) -> hashing::Hash {
        match seed {
            Some(seed) => digest_of(
                framed(encode_utf8(seed)) + canonical_bytes(
                    self.class_name,
                    self.literal_payload(),
                    self.literal_dependencies(),
                ),
            ),
            None => self.content_digest(),
        }
    }

    /// Where the object stands.
    pub open spec fn lifecycle(self) -> Lifecycle {
        if self.id is None {
            Lifecycle::Unbound
        } else if self.last_hash != Some(self.content_digest()) {
            Lifecycle::Identified
        } else if self.author is Some && self.last_signature is Some {
            Lifecycle::Signed
        } else {
            Lifecycle::Hashed
        }
    }

    /// The state after a change of content: the digest, the literal form and
    /// the signature are forgotten.
    pub open spec fn touched(self) -> ObjectView {
        ObjectView { last_hash: None, last_literal: None, last_signature: None, ..self }
    }

    /// The state after `digest` was computed without a seed: it is
    /// remembered with the literal form, and a signature over another digest
    /// is forgotten.
    pub open spec fn remembering(self, digest: hashing::Hash) -> ObjectView {
        ObjectView {
            last_hash: Some(digest),
            last_literal: Some(self.literal()),
            last_signature: if self.last_hash == Some(digest) {
                self.last_signature
            } else {
                None
            },
            ..self
        }
    }
}

/// The identifier that 128 random bits are written as: 32 hexadecimal
/// digits, the high half first.
pub open spec fn random_id(entropy: u128) -> Seq<char> {
    hex_digits((entropy / 0x1_0000_0000_0000_0000) as nat, 16) + hex_digits(
        (entropy % 0x1_0000_0000_0000_0000) as nat,
        16,
    )
}

/// The digest that names the field `field_name` of the object `parent_id`.
pub open spec fn derived_field_digest(
    parent_id: Seq<char>,
    field_name: Seq<char>,
) -> hashing::Hash {
    digest_of(framed(encode_utf8(parent_id)) + framed(encode_utf8(field_name)))
}

/// What every hashed object can do, whatever its class: say what it is,
/// take an identifier once, and give its digest.
pub trait HashedObject: View<V = ObjectView> + Sized {
    /// The digest that the class puts in place of the digest of the literal
    /// form, if it does.
    spec fn custom_digest(&self, seed: Option<Seq<char>>) -> Option<hashing::Hash>;

    /// The digest of the object: the one its class puts in place, or else
    /// that of its literal form.
    open spec fn effective_digest(&self, seed: Option<Seq<char>>) -> hashing::Hash {
        match self.custom_digest(seed) {
            Some(custom) => custom,
            None => self@.digest(seed),
        }
    }

    /// What the class asks of its objects beyond what every object must
    /// meet.
    spec fn class_invariant(&self) -> bool;

    /// The object as validation looks at it.
    open spec fn held(&self) -> Held {
        Held {
            object: self@,
            digest: self.effective_digest(None),
            sound: self.class_invariant(),
        }
    }

    /// Whether what the class asks of its objects holds of this one.
    fn check_class_invariant(&self) -> (holds: bool)
        ensures
            holds == self.class_invariant(),
    ;

    /// The class of the object.
    fn get_class_name(&self) -> (class_name: String)
        ensures
            class_name@ == self@.class_name,
    ;

    /// The identifier, if one was given.
    fn get_id(&self) -> (id: Option<String>)
        ensures
            optional_text(id) == self@.id,
    ;

    /// Whether an identifier was given.
    fn has_id(&self) -> (has: bool)
        ensures
            has == self@.id.is_some(),
    ;

    /// Gives the object its identifier. An object that has one keeps it.
    fn set_id(&mut self, id: String) -> (done: Result<(), InvalidState>)
        ensures
            match done {
                Ok(_) => old(self)@.id is None && final(self)@ == (ObjectView {
                    id: Some(id@),
                    ..old(self)@.touched()
                }),
                Err(reason) => old(self)@.id is Some && reason == InvalidState::IdAlreadySet
                    && final(self)@ == old(self)@,
            },
    ;

    /// Whether a digest is remembered.
    fn has_last_hash(&self) -> (has: bool)
        ensures
            has == self@.last_hash.is_some(),
    ;

    /// The digest that is remembered.
    fn get_last_hash(&self) -> (last: Option<hashing::Hash>)
        ensures
            last == self@.last_hash,
    ;

    /// The digest that the class puts in place of the digest of the literal
    /// form, if it does.
    fn custom_hash(&self, seed: &Option<String>) -> (custom: Option<hashing::Hash>)
        ensures
            custom == self.custom_digest(optional_text(*seed)),
    ;

    /// The digest of the object as it is. Without a seed it is remembered.
    /// The content stays as it is, so that asking again gives the same.
    fn hash(&mut self, seed: Option<String>) -> (digest: hashing::Hash)
        ensures
            digest == old(self).effective_digest(optional_text(seed)),
            digest == final(self).effective_digest(optional_text(seed)),
            final(self)@ == (if seed is None {
                old(self)@.remembering(digest)
            } else {
                old(self)@
            }),
    ;

    /// Whether `another` is an object with the same digest as this one.
    fn equals(&self, another: Option<&Self>) -> (equal: bool)
        ensures
            equal == match another {
                Some(other) => self.effective_digest(None) == other.effective_digest(None),
                None => false,
            },
    ;

    /// The objects of a map as validation looks at them.
    open spec fn held_among(objects: Map<hashing::Hash, Self>) -> Map<hashing::Hash, Held> {
        objects.map_values(|object: Self| object.held())
    }

    /// Makes the object ready for use: one without an identifier gets the one
    /// that `entropy` is written as.
    fn init(&mut self, entropy: u128)
        ensures
            final(self)@ == (if old(self)@.id is Some {
                old(self)@
            } else {
                ObjectView { id: Some(random_id(entropy)), ..old(self)@.touched() }
            }),
    ;

    /// Gives the object the identifier that `entropy`, 128 bits drawn by
    /// chance, is written as. An object that has an identifier keeps it.
    fn set_random_id(&mut self, entropy: u128) -> (done: Result<(), InvalidState>)
        ensures
            match done {
                Ok(_) => old(self)@.id is None && final(self)@ == (ObjectView {
                    id: Some(random_id(entropy)),
                    ..old(self)@.touched()
                }),
                Err(reason) => old(self)@.id is Some && reason == InvalidState::IdAlreadySet
                    && final(self)@ == old(self)@,
            },
    ;

    /// Names the author. The digest and the signature are forgotten.
    fn set_author(&mut self, author: Identity)
        ensures
            final(self)@ == (ObjectView {
                author: Some(author.public_key@),
                ..old(self)@.touched()
            }),
    ;

    /// The author, if one was named.
    fn get_author(&self) -> (author: Option<&Identity>)
        ensures
            match author {
                Some(author) => self@.author == Some(author.public_key@),
                None => self@.author is None,
            },
    ;

    /// Whether an author was named.
    fn has_author(&self) -> (has: bool)
        ensures
            has == self@.author.is_some(),
    ;

    /// Whether a signature is held.
    fn has_last_signature(&self) -> (has: bool)
        ensures
            has == self@.last_signature.is_some(),
    ;

    /// The signature that is held.
    fn get_last_signature(&self) -> (signature: Option<String>)
        ensures
            optional_text(signature) == self@.last_signature,
    ;

    /// Takes the signature that the author made over the remembered digest.
    /// An object without an author, or without a remembered digest, takes
    /// none.
    fn set_last_signature(&mut self, signature: String) -> (done: Result<(), InvalidState>)
        ensures
            match done {
                Ok(_) => old(self)@.author is Some && old(self)@.last_hash is Some
                    && final(self)@ == (ObjectView {
                    last_signature: Some(signature@),
                    ..old(self)@
                }),
                Err(reason) => final(self)@ == old(self)@ && reason == (if old(self)@.author
                    is None {
                    InvalidState::NoAuthor
                } else {
                    InvalidState::NotHashed
                }) && (old(self)@.author is None || old(self)@.last_hash is None),
            },
    ;

    /// Whether objects of this class are signed when they are saved.
    fn should_sign_on_save(&self) -> (should: bool)
        ensures
            should == self@.sign_on_save,
    ;

    /// Whether a literal form is held.
    fn has_last_literal(&self) -> (has: bool)
        ensures
            has == self@.last_literal.is_some(),
    ;

    /// The literal form that is held.
    fn get_last_literal(&self) -> (literal: Option<&Literal>)
        ensures
            match literal {
                Some(literal) => self@.last_literal == Some(literal@),
                None => self@.last_literal is None,
            },
    ;

    /// Takes the literal form that the object came as, unchecked, and its
    /// digest as the one to remember. A signature stays.
    fn set_last_literal(&mut self, literal: Literal)
        ensures
            final(self)@ == (ObjectView {
                last_hash: Some(literal@.hash),
                last_literal: Some(literal@),
                ..old(self)@
            }),
    ;

    /// A reference to the object as it is: its digest and its class.
    fn create_reference(&self) -> (reference: HashReference)
        ensures
            reference.hash == self.effective_digest(None),
            reference.class_name@ == self@.class_name,
    ;

    /// Binds the object to `resources`. The content stays as it is.
    fn set_resources(&mut self, resources: Resources)
        ensures
            final(self)@ == (ObjectView { resources: Some(resources@), ..old(self)@ }),
    ;

    /// The digest that names the field `field_name` of this object, whether
    /// or not the field was added. An object without an identifier names no
    /// fields.
    fn get_derived_field_id(&self, field_name: &str) -> (digest: Option<hashing::Hash>)
        ensures
            digest == match self@.id {
                Some(id) => Some(derived_field_digest(id, field_name@)),
                None => None,
            },
    ;

    /// Puts `target` under this object at `path`: it gets the identifier that
    /// the digest of this object's field `path` is written as, in place of
    /// any it had, and its digest and signature are forgotten. An object
    /// without an identifier has nothing to put under it, and `target` stays
    /// as it is.
    fn override_id_for_path(&self, path: &str, target: &mut Self) -> (done: bool)
        ensures
            done == self@.id.is_some(),
            final(target)@ == (match self@.id {
                Some(id) => put_under(id, path@, old(target)@),
                None => old(target)@,
            }),
    ;

    /// Puts each of `children` under this object at its path, as
    /// `override_id_for_path` does, and the children of each under it in the
    /// same way, all the way down. An object without an identifier leaves
    /// them as they are.
    fn override_children_id(&self, children: &mut Vec<Child<Self>>) -> (done: bool)
        ensures
            done == self@.id.is_some(),
            match self@.id {
                Some(id) => final(children).len() == old(children).len() && forall|i: int|
                    0 <= i < old(children).len() ==> placed(
                        id,
                        #[trigger] old(children)[i],
                        final(children)[i],
                    ),
                None => *final(children) == *old(children),
            },
    ;

    /// Adds the derived field `field_name`, with the digest of the object
    /// that is attached to it, if one is. The content stays as it is.
    fn add_derived_field(&mut self, field_name: String, object: Option<hashing::Hash>)
        ensures
            final(self)@ == (ObjectView {
                derived: old(self)@.derived.push((field_name@, object)),
                ..old(self)@
            }),
    ;

    /// Attaches the object with the digest `object` to the derived field
    /// `field_name`.
    fn set_derived_field(&mut self, field_name: String, object: hashing::Hash)
        ensures
            final(self)@ == (ObjectView {
                derived: old(self)@.derived.push((field_name@, Some(object))),
                ..old(self)@
            }),
    ;

    /// Whether an object is attached to the derived field `field_name`.
    fn check_derived_field(&self, field_name: &str) -> (attached: bool)
        ensures
            attached == (derived_entry(self@.derived, field_name@) matches Some(Some(_))),
    ;

    /// Judges the object from what is at hand and what was found out
    /// outside: `references` holds the objects at hand, each under its
    /// digest; `lookups` what asking the store or the network for others
    /// came to; `signatures` what checking the signatures of the objects at
    /// hand came to, and `signature` the same of this object. The objects at
    /// hand are judged like this one, and those they depend on.
    fn validate(
        &self,
        references: &HashMap<hashing::Hash, Self>,
        lookups: &HashMap<hashing::Hash, Lookup>,
        signatures: &HashMap<hashing::Hash, SignatureCheck>,
        signature: SignatureCheck,
    ) -> (result: Verdict)
        ensures
            result == verdict(
                self.held(),
                Self::held_among(references@),
                lookups@,
                signatures@,
                signature,
            ),
    ;
}

/// What was attached to the derived field `field_name` last, if the field
/// was added at all.
pub open spec fn derived_entry(
    derived: Seq<(Seq<char>, Option<hashing::Hash>)>,
    field_name: Seq<char>,
) -> Option<Option<hashing::Hash>>
    decreases derived.len(),
{
    if derived.len() == 0 {
        None
    } else if derived.last().0 == field_name {
        Some(derived.last().1)
    } else {
        derived_entry(derived.drop_last(), field_name)
    }
}

/// What checking a signature outside came to.
#[derive(Clone, Copy, Debug, PartialEq, Eq, Structural)]
pub enum SignatureCheck {
    /// The signature is the author's, over the digest that is remembered.
    Verified,
    /// It is not.
    Rejected,
    /// It could not be checked.
    Unchecked,
}

/// What looking for an object outside came to.
#[derive(Clone, Copy, Debug, PartialEq, Eq, Structural)]
pub enum Lookup {
    /// The object was found.
    Present,
    /// There is no such object.
    Absent,
    /// The store or the network could not be asked.
    Failed,
}

/// What the validation of an object came to.
#[derive(Clone, Copy, Debug, PartialEq, Eq, Structural)]
pub enum Verdict {
    /// Everything that was checked holds.
    Valid,
    /// The object is shown to be wrong.
    Invalid,
    /// Nothing wrong was found, but not everything could be checked: worth
    /// another try.
    Unresolved,
}

/// A reference to an object that need not be at hand: its digest and its
/// class.
pub struct HashReference {
    pub hash: hashing::Hash,
    pub class_name: String,
}

/// An object with the path at which it stands under another, and the
/// objects that stand under it.
pub struct Child<O> {
    pub path: String,
    pub object: O,
    pub children: Vec<Child<O>>,
}

/// The state of an object after it was put under the object `parent_id` at
/// `path`: it has the identifier that the digest of that field is written
/// as, and its digest, literal form and signature are forgotten.
pub open spec fn put_under(parent_id: Seq<char>, path: Seq<char>, object: ObjectView) -> ObjectView {
    ObjectView {
        id: Some(hex_digits(derived_field_digest(parent_id, path) as nat, 16)),
        ..object.touched()
    }
}

/// Whether `after` is `before` put under the object `parent_id`: the object
/// stands under `parent_id` at its path, and each of its children under it.
pub open spec fn placed<O: View<V = ObjectView>>(
    parent_id: Seq<char>,
    before: Child<O>,
    after: Child<O>,
) -> bool
    decreases before,
{
    &&& after.path@ == before.path@
    &&& after.object@ == put_under(parent_id, before.path@, before.object@)
    &&& after.children.len() == before.children.len()
    &&& forall|j: int|
        0 <= j < before.children.len() ==> placed(
            put_under(parent_id, before.path@, before.object@).id->Some_0,
            #[trigger] before.children[j],
            after.children[j],
        )
}

/// One derived field of an object.
pub struct DerivedField {
    pub name: String,
    /// The digest of the object that is attached, if one is.
    pub attached: Option<hashing::Hash>,
}

/// What every materialized object carries, whatever its class.
pub struct ObjectState {
    class_name: String,
    id: Option<String>,
    author: Option<Identity>,
    payload: Vec<u8>,
    references: Vec<hashing::Hash>,
    last_hash: Option<hashing::Hash>,
    last_literal: Option<Literal>,
    last_signature: Option<String>,
    resources: Option<Resources>,
    sign_on_save: bool,
    derived: Vec<DerivedField>,
}

impl View for ObjectState {
    type V = ObjectView;

    closed spec fn view(&self) -> ObjectView {
        ObjectView {
            class_name: self.class_name@,
            id: optional_text(self.id),
            author: match self.author {
                Some(author) => Some(author.public_key@),
                None => None,
            },
            payload: self.payload@,
            references: self.references@,
            last_hash: self.last_hash,
            last_literal: match self.last_literal {
                Some(literal) => Some(literal@),
                None => None,
            },
            last_signature: optional_text(self.last_signature),
            resources: match self.resources {
                Some(resources) => Some(resources@),
                None => None,
            },
            sign_on_save: self.sign_on_save,
            derived: self.derived@.map_values(|field: DerivedField| (field.name@, field.attached)),
        }
    }
}

impl Clone for ObjectState {
    fn clone(&self) -> (copy: ObjectState)
        ensures
            copy@ == self@,
    {
        let mut derived: Vec<DerivedField> = Vec::new();
        let mut i: usize = 0;
        while i < self.derived.len()
            invariant
                i <= self.derived@.len(),
                derived@.len() == i,
                forall|j: int|
                    0 <= j < i ==> (#[trigger] derived@[j]).name@ == self.derived@[j].name@
                        && derived@[j].attached == self.derived@[j].attached,
            decreases self.derived@.len() - i,
        {
            derived.push(
                DerivedField {
                    name: self.derived[i].name.clone(),
                    attached: self.derived[i].attached,
                },
            );
            i += 1;
        }
        let copy = ObjectState {
            class_name: self.class_name.clone(),
            id: match &self.id {
                Some(id) => Some(id.clone()),
                None => None,
            },
            author: match &self.author {
                Some(author) => Some(author.clone()),
                None => None,
            },
            payload: self.payload.clone(),
            references: self.references.clone(),
            last_hash: self.last_hash,
            last_literal: match &self.last_literal {
                Some(literal) => Some(literal.clone()),
                None => None,
            },
            last_signature: match &self.last_signature {
                Some(signature) => Some(signature.clone()),
                None => None,
            },
            resources: match &self.resources {
                Some(resources) => Some(resources.clone()),
                None => None,
            },
            sign_on_save: self.sign_on_save,
            derived,
        };
        assert(copy@.derived =~= self@.derived);
        copy
    }
}

impl ObjectState {
    /// An object of the given class and content, without identifier, author
    /// or digest.
    pub fn new(
        class_name: String,
        payload: Vec<u8>,
        references: Vec<hashing::Hash>,
        sign_on_save: bool,
    ) -> (object: ObjectState)
        ensures
            object@ == (ObjectView {
                class_name: class_name@,
                id: None,
                author: None,
                payload: payload@,
                references: references@,
                last_hash: None,
                last_literal: None,
                last_signature: None,
                resources: None,
                sign_on_save,
                derived: Seq::empty(),
            }),
    {
        let object = ObjectState {
            class_name,
            id: None,
            author: None,
            payload,
            references,
            last_hash: None,
            last_literal: None,
            last_signature: None,
            resources: None,
            sign_on_save,
            derived: Vec::new(),
        };
        assert(object@.derived =~= Seq::empty());
        object
    }

    /// Forgets the digest and the signature: the content is about to change.
    fn touch(&mut self)
        ensures
            final(self)@ == old(self)@.touched(),
    {
        self.last_hash = None;
        self.last_literal = None;
        self.last_signature = None;
    }

    /// Replaces the payload. The digest and the signature are forgotten.
    pub fn set_payload(&mut self, payload: Vec<u8>)
        ensures
            final(self)@ == (ObjectView { payload: payload@, ..old(self)@.touched() }),
    {
        self.touch();
        self.payload = payload;
    }

    /// Adds a reference to another object. The digest and the signature are
    /// forgotten.
    pub fn add_reference(&mut self, reference: hashing::Hash)
        ensures
            final(self)@ == (ObjectView {
                references: old(self)@.references.push(reference),
                ..old(self)@.touched()
            }),
    {
        self.touch();
        self.references.push(reference);
    }

    /// Records the digest under which the object arrived, unchecked, in
    /// place of one that was computed here. A signature stays, as it came
    /// with the digest.
    pub fn claim_hash(&mut self, claimed: hashing::Hash, signature: Option<String>)
        ensures
            final(self)@ == (ObjectView {
                last_hash: Some(claimed),
                last_signature: optional_text(signature),
                ..old(self)@
            }),
    {
        self.last_hash = Some(claimed);
        self.last_signature = signature;
    }

    /// Writes out the payload of the literal form.
    fn literal_payload(&self) -> (bytes: Vec<u8>)
        ensures
            bytes@ == self@.literal_payload(),
    {
        let mut bytes: Vec<u8> = Vec::new();
        match &self.id {
            Some(id) => {
                bytes.push(1u8);
                push_framed(&mut bytes, id.as_str().as_bytes());
            },
            None => {
                bytes.push(0u8);
            },
        }
        if self.author.is_some() {
            bytes.push(1u8);
        } else {
            bytes.push(0u8);
        }
        push_bytes(&mut bytes, self.payload.as_slice());
        assert(bytes@ =~= self@.literal_payload());
        bytes
    }

    /// Lists the dependencies of the literal form.
    fn literal_dependencies(&self) -> (dependencies: Vec<hashing::Hash>)
        ensures
            dependencies@ == self@.literal_dependencies(),
    {
        let mut dependencies: Vec<hashing::Hash> = Vec::new();
        match &self.author {
            Some(author) => {
                dependencies.push(author.hash());
            },
            None => {},
        }
        let mut i: usize = 0;
        let ghost front = dependencies@;
        while i < self.references.len()
            invariant
                i <= self.references@.len(),
                dependencies@ == front + self.references@.take(i as int),
            decreases self.references@.len() - i,
        {
            dependencies.push(self.references[i]);
            assert(self.references@.take(i + 1) == self.references@.take(i as int).push(
                self.references@[i as int],
            ));
            i += 1;
        }
        assert(self.references@.take(i as int) == self.references@);
        dependencies
    }

    /// The literal form of the object as it is.
    pub fn to_literal(&self) -> (literal: Literal)
        ensures
            literal@ == self@.literal(),
    {
        Literal::new(self.class_name.clone(), self.literal_payload(), self.literal_dependencies())
    }

    /// Where the object stands between its creation and its signature.
    pub fn lifecycle(&self) -> (stage: Lifecycle)
        ensures
            stage == self@.lifecycle(),
    {
        if self.id.is_none() {
            return Lifecycle::Unbound;
        }
        let current = self.to_literal().hash;
        match self.last_hash {
            Some(last) if last == current => {
                if self.author.is_some() && self.last_signature.is_some() {
                    Lifecycle::Signed
                } else {
                    Lifecycle::Hashed
                }
            },
            _ => Lifecycle::Identified,
        }
    }

    /// The verdict on the object by itself, its dependencies left aside.
    fn own_verdict(&self, signature: SignatureCheck) -> (result: Verdict)
        ensures
            result == own_verdict(self.held(), signature),
    {
        let stale = match self.last_hash {
            Some(last) => last != self.to_literal().hash,
            None => false,
        };
        let authored = self.author.is_some();
        let signed = self.last_signature.is_some();
        let unsigned = authored && !signed && self.sign_on_save;
        let rejected = authored && signed && matches!(signature, SignatureCheck::Rejected);
        let unchecked = authored && signed && matches!(signature, SignatureCheck::Unchecked);
        if stale || unsigned || rejected {
            Verdict::Invalid
        } else if unchecked {
            Verdict::Unresolved
        } else {
            Verdict::Valid
        }
    }
}

/// The objects of a map as validation looks at them.
pub open spec fn held_objects(objects: Map<hashing::Hash, ObjectState>) -> Map<
    hashing::Hash,
    Held,
> {
    objects.map_values(|object: ObjectState| object.held())
}

/// The worse of two verdicts.
pub fn worse_of(one: Verdict, other: Verdict) -> (result: Verdict)
    ensures
        result == worse(one, other),
{
    if matches!(one, Verdict::Invalid) || matches!(other, Verdict::Invalid) {
        Verdict::Invalid
    } else if matches!(one, Verdict::Unresolved) || matches!(other, Verdict::Unresolved) {
        Verdict::Unresolved
    } else {
        Verdict::Valid
    }
}

/// Judges the object that is depended on under `hash`, reached along
/// `chain`.
pub fn judge(
    references: &HashMap<hashing::Hash, ObjectState>,
    lookups: &HashMap<hashing::Hash, Lookup>,
    signatures: &HashMap<hashing::Hash, SignatureCheck>,
    hash: hashing::Hash,
    chain: &Vec<hashing::Hash>,
) -> (result: Verdict)
    ensures
        result == verdict_of(held_objects(references@), lookups@, signatures@, hash, chain@),
    decreases off_chain(held_graph(held_objects(references@)), chain@), 0nat, 0nat,
{
    broadcast use vstd::std_specs::hash::group_hash_axioms;

    let ghost at_hand = held_objects(references@);
    assert(at_hand.dom() =~= references@.dom());
    assert(held_graph(at_hand).dom() =~= references@.dom());
    match references.get(&hash) {
        None => match lookups.get(&hash) {
            Some(Lookup::Present) => Verdict::Valid,
            Some(Lookup::Absent) => Verdict::Invalid,
            Some(Lookup::Failed) => Verdict::Unresolved,
            None => Verdict::Unresolved,
        },
        Some(object) => {
            assert(at_hand[hash] == object.held());
            if contains_hash(chain, hash) || object.to_literal().hash != hash {
                return Verdict::Invalid;
            }
            let signature = match signatures.get(&hash) {
                Some(checked) => *checked,
                None => SignatureCheck::Unchecked,
            };
            let own = object.own_verdict(signature);
            let dependencies = object.literal_dependencies();
            let longer = extended_chain(hash, chain);
            proof {
                lemma_off_chain_decreases(held_graph(at_hand), hash, chain@);
            }
            let below = judge_among(references, lookups, signatures, &dependencies, &longer);
            worse_of(own, below)
        },
    }
}

/// Judges each of `dependencies` and gives the worst verdict.
pub fn judge_among(
    references: &HashMap<hashing::Hash, ObjectState>,
    lookups: &HashMap<hashing::Hash, Lookup>,
    signatures: &HashMap<hashing::Hash, SignatureCheck>,
    dependencies: &Vec<hashing::Hash>,
    chain: &Vec<hashing::Hash>,
) -> (result: Verdict)
    ensures
        result == verdict_among(
            held_objects(references@),
            lookups@,
            signatures@,
            dependencies@,
            chain@,
        ),
    decreases off_chain(held_graph(held_objects(references@)), chain@), 1nat, dependencies@.len(),
{
    broadcast use vstd::std_specs::hash::group_hash_axioms;

    let ghost at_hand = held_objects(references@);
    assert(at_hand.dom() =~= references@.dom());
    let mut result = Verdict::Valid;
    let mut i: usize = 0;
    assert(dependencies@.take(0).len() == 0);
    while i < dependencies.len()
        invariant
            i <= dependencies@.len(),
            at_hand == held_objects(references@),
            at_hand.dom().finite(),
            result == verdict_among(
                at_hand,
                lookups@,
                signatures@,
                dependencies@.take(i as int),
                chain@,
            ),
        decreases dependencies@.len() - i,
    {
        assert(dependencies@.take(i + 1).drop_last() == dependencies@.take(i as int));
        let next = judge(references, lookups, signatures, dependencies[i], chain);
        result = worse_of(result, next);
        i += 1;
    }
    assert(dependencies@.take(i as int) == dependencies@);
    result
}

impl HashedObject for ObjectState {
    /// An object of no class of its own puts nothing in place of the digest
    /// of its literal form.
    open spec fn custom_digest(&self, seed: Option<Seq<char>>) -> Option<hashing::Hash> {
        None
    }

    /// An object of no class of its own has nothing more to meet.
    open spec fn class_invariant(&self) -> bool {
        true
    }

    fn check_class_invariant(&self) -> (holds: bool) {
        true
    }

    fn get_class_name(&self) -> (class_name: String) {
        self.class_name.clone()
    }

    fn get_id(&self) -> (id: Option<String>) {
        match &self.id {
            Some(id) => Some(id.clone()),
            None => None,
        }
    }

    fn has_id(&self) -> (has: bool) {
        self.id.is_some()
    }

    fn set_id(&mut self, id: String) -> (done: Result<(), InvalidState>) {
        if self.id.is_some() {
            return Err(InvalidState::IdAlreadySet);
        }
        self.touch();
        self.id = Some(id);
        Ok(())
    }

    fn has_last_hash(&self) -> (has: bool) {
        self.last_hash.is_some()
    }

    fn get_last_hash(&self) -> (last: Option<hashing::Hash>) {
        self.last_hash
    }

    fn custom_hash(&self, seed: &Option<String>) -> (custom: Option<hashing::Hash>) {
        None
    }

    fn hash(&mut self, seed: Option<String>) -> (digest: hashing::Hash) {
        let payload = self.literal_payload();
        let dependencies = self.literal_dependencies();
        let bytes = canonical_form(self.class_name.as_str(), payload.as_slice(), &dependencies);
        match seed {
            Some(seed) => {
                let mut seeded: Vec<u8> = Vec::new();
                push_framed(&mut seeded, seed.as_str().as_bytes());
                push_bytes(&mut seeded, bytes.as_slice());
                digest(seeded.as_slice())
            },
            None => {
                let current = digest(bytes.as_slice());
                let same = match self.last_hash {
                    Some(last) => last == current,
                    None => false,
                };
                if !same {
                    self.last_signature = None;
                }
                self.last_literal = Some(
                    Literal {
                        hash: current,
                        dependencies,
                        payload,
                        type_tag: self.class_name.clone(),
                    },
                );
                self.last_hash = Some(current);
                current
            },
        }
    }

    fn equals(&self, another: Option<&Self>) -> (equal: bool) {
        match another {
            Some(other) => self.to_literal().hash == other.to_literal().hash,
            None => false,
        }
    }

    fn init(&mut self, entropy: u128)
    {
        if self.id.is_none() {
            let _ = self.set_random_id(entropy);
        }
    }

    fn set_random_id(&mut self, entropy: u128) -> (done: Result<(), InvalidState>)
    {
        if self.id.is_some() {
            return Err(InvalidState::IdAlreadySet);
        }
        let high = (entropy >> 64) as u64;
        let low = (entropy & 0xffff_ffff_ffff_ffff) as u64;
        assert(entropy >> 64 == entropy / 0x1_0000_0000_0000_0000) by (bit_vector);
        assert(entropy & 0xffff_ffff_ffff_ffff == entropy % 0x1_0000_0000_0000_0000)
            by (bit_vector);
        let mut id = String::new();
        push_hex(&mut id, high, 16);
        push_hex(&mut id, low, 16);
        self.touch();
        self.id = Some(id);
        Ok(())
    }

    fn set_author(&mut self, author: Identity)
    {
        self.touch();
        self.author = Some(author);
    }

    fn get_author(&self) -> (author: Option<&Identity>)
    {
        self.author.as_ref()
    }

    fn has_author(&self) -> (has: bool)
    {
        self.author.is_some()
    }

    fn has_last_signature(&self) -> (has: bool)
    {
        self.last_signature.is_some()
    }

    fn get_last_signature(&self) -> (signature: Option<String>)
    {
        match &self.last_signature {
            Some(signature) => Some(signature.clone()),
            None => None,
        }
    }

    fn set_last_signature(&mut self, signature: String) -> (done: Result<(), InvalidState>)
    {
        if self.author.is_none() {
            return Err(InvalidState::NoAuthor);
        }
        if self.last_hash.is_none() {
            return Err(InvalidState::NotHashed);
        }
        self.last_signature = Some(signature);
        Ok(())
    }

    fn should_sign_on_save(&self) -> (should: bool)
    {
        self.sign_on_save
    }

    fn has_last_literal(&self) -> (has: bool)
    {
        self.last_literal.is_some()
    }

    fn get_last_literal(&self) -> (literal: Option<&Literal>)
    {
        self.last_literal.as_ref()
    }

    fn set_last_literal(&mut self, literal: Literal)
    {
        self.last_hash = Some(literal.hash);
        self.last_literal = Some(literal);
    }

    fn create_reference(&self) -> (reference: HashReference)
    {
        HashReference { hash: self.to_literal().hash, class_name: self.class_name.clone() }
    }

    fn set_resources(&mut self, resources: Resources)
    {
        self.resources = Some(resources);
    }

    fn get_derived_field_id(&self, field_name: &str) -> (digest: Option<hashing::Hash>)
    {
        match &self.id {
            Some(id) => {
                let mut bytes: Vec<u8> = Vec::new();
                push_framed(&mut bytes, id.as_str().as_bytes());
                push_framed(&mut bytes, field_name.as_bytes());
                Some(digest(bytes.as_slice()))
            },
            None => None,
        }
    }

    fn override_id_for_path(&self, path: &str, target: &mut ObjectState) -> (done: bool)
    {
        match self.get_derived_field_id(path) {
            Some(digest) => {
                let mut id = String::new();
                push_hex(&mut id, digest, 16);
                target.touch();
                target.id = Some(id);
                true
            },
            None => false,
        }
    }

    fn override_children_id(&self, children: &mut Vec<Child<ObjectState>>) -> (done: bool)
        decreases *old(children),
    {
        let id = match &self.id {
            Some(id) => id,
            None => {
                return false;
            },
        };
        let mut i: usize = 0;
        while i < children.len()
            invariant
                i <= children.len(),
                self@.id == Some(id@),
                children.len() == old(children).len(),
                forall|j: int|
                    0 <= j < i ==> placed(id@, #[trigger] old(children)[j], children[j]),
                forall|j: int| i <= j < children.len() ==> children[j] == old(children)[j],
            decreases children.len() - i,
        {
            let child = &mut children[i];
            self.override_id_for_path(child.path.as_str(), &mut child.object);
            child.object.override_children_id(&mut child.children);
            i += 1;
        }
        true
    }

    fn add_derived_field(&mut self, field_name: String, object: Option<hashing::Hash>)
    {
        self.derived.push(DerivedField { name: field_name, attached: object });
        assert(self@.derived =~= old(self)@.derived.push((field_name@, object)));
    }

    fn set_derived_field(&mut self, field_name: String, object: hashing::Hash)
    {
        self.add_derived_field(field_name, Some(object));
    }

    fn check_derived_field(&self, field_name: &str) -> (attached: bool)
    {
        let wanted = String::from_str(field_name);
        let mut i: usize = self.derived.len();
        assert(self@.derived.take(i as int) == self@.derived);
        while i > 0
            invariant
                i <= self.derived@.len(),
                wanted@ == field_name@,
                derived_entry(self@.derived, field_name@) == derived_entry(
                    self@.derived.take(i as int),
                    field_name@,
                ),
            decreases i,
        {
            i -= 1;
            assert(self@.derived.take(i + 1).drop_last() == self@.derived.take(i as int));
            assert(self@.derived.take(i + 1).last() == (
                self.derived@[i as int].name@,
                self.derived@[i as int].attached,
            ));
            if self.derived[i].name == wanted {
                return self.derived[i].attached.is_some();
            }
        }
        false
    }

    fn validate(
        &self,
        references: &HashMap<hashing::Hash, ObjectState>,
        lookups: &HashMap<hashing::Hash, Lookup>,
        signatures: &HashMap<hashing::Hash, SignatureCheck>,
        signature: SignatureCheck,
    ) -> (result: Verdict)
    {
        assert(held_objects(references@) =~= Self::held_among(references@));
        let own = self.own_verdict(signature);
        let dependencies = self.literal_dependencies();
        let chain: Vec<hashing::Hash> = Vec::new();
        let below = judge_among(references, lookups, signatures, &dependencies, &chain);
        worse_of(own, below)
    }
}

/// The digest is a function of the literal form and the seed: two objects
/// with the same literal form have the same digest under the same seed,
/// whatever else they remember.
pub proof fn lemma_digest_of_literal_form(
    one: ObjectView,
    other: ObjectView,
    seed: Option<Seq<char>>,
)
    requires
        one.literal() == other.literal(),
    ensures
        one.digest(seed) == other.digest(seed),
{
}

/// Computing the digest changes nothing that the digest is taken over:
/// asking again gives the same digest.
pub proof fn lemma_digest_stable(object: ObjectView, seed: Option<Seq<char>>)
    ensures
        object.remembering(object.digest(None)).digest(seed) == object.digest(seed),
        object.remembering(object.digest(None)).literal() == object.literal(),
{
}

/// After its digest was computed and remembered, an object with an
/// identifier is hashed; any change of content brings it back.
pub proof fn lemma_lifecycle(object: ObjectView)
    requires
        object.id is Some,
    ensures
        object.remembering(object.content_digest()).lifecycle() == Lifecycle::Hashed
            || object.remembering(object.content_digest()).lifecycle() == Lifecycle::Signed,
        object.remembering(object.content_digest()).lifecycle() == Lifecycle::Signed ==> object.lifecycle()
            == Lifecycle::Signed,
        object.touched().lifecycle() == Lifecycle::Identified,
{
}

} // verus!
