//! Literals: the canonical, portable form of an object.

use crate::hashing;
use crate::hashing::{
    digest, digest_of, framed, hashes_bytes, push_bytes, push_framed, push_hashes,
};
use vstd::bytes::{spec_u64_to_le_bytes, u64_to_le_bytes};
use vstd::prelude::*;

verus! {

/// The canonical form of one object: what it is, what it holds, and which
/// other objects it refers to, under the digest of all three.
pub struct Literal {
    pub hash: hashing::Hash,
    pub dependencies: Vec<hashing::Hash>,
    pub payload: Vec<u8>,
    pub type_tag: String,
}

/// A literal as plain values.
pub struct LiteralView {
    pub hash: hashing::Hash,
    pub dependencies: Seq<hashing::Hash>,
    pub payload: Seq<u8>,
    pub type_tag: Seq<char>,
}

impl View for Literal {
    type V = LiteralView;

    open spec fn view(&self) -> LiteralView {
        LiteralView {
            hash: self.hash,
            dependencies: self.dependencies@,
            payload: self.payload@,
            type_tag: self.type_tag@,
        }
    }
}

/// The bytes a literal's digest is taken over: the type tag and the payload,
/// each behind its length, then the number of dependencies and their digests.
pub open spec fn canonical_bytes(
    type_tag: Seq<char>,
    payload: Seq<u8>,
    dependencies: Seq<hashing::Hash>,
) -> Seq<u8> {
    framed(vstd::utf8::encode_utf8(type_tag)) + framed(payload) + spec_u64_to_le_bytes(
        dependencies.len() as u64,
    ) + hashes_bytes(dependencies)
}

/// The digest that content of this kind is addressed by.
pub open spec fn content_hash(
    type_tag: Seq<char>,
    payload: Seq<u8>,
    dependencies: Seq<hashing::Hash>,
) -> hashing::Hash {
    digest_of(canonical_bytes(type_tag, payload, dependencies))
}

impl LiteralView {
    /// The digest recomputed from the content.
    pub open spec fn recomputed(self) -> hashing::Hash {
        content_hash(self.type_tag, self.payload, self.dependencies)
    }

    /// Whether the stored digest is the recomputed one. A literal for which
    /// this fails is corrupt.
    pub open spec fn intact(self) -> bool {
        self.hash == self.recomputed()
    }
}

/// Writes out the canonical bytes of the given content.
pub fn canonical_form(type_tag: &str, payload: &[u8], dependencies: &Vec<hashing::Hash>) -> (out: Vec<
    u8,
>)
    ensures
        out@ == canonical_bytes(type_tag@, payload@, dependencies@),
{
    let mut out: Vec<u8> = Vec::new();
    push_framed(&mut out, type_tag.as_bytes());
    push_framed(&mut out, payload);
    let count = u64_to_le_bytes(dependencies.len() as u64);
    push_bytes(&mut out, count.as_slice());
    push_hashes(&mut out, dependencies);
    assert(out@ == canonical_bytes(type_tag@, payload@, dependencies@));
    out
}

impl Literal {
    /// Builds the literal of the given content, under its digest.
    pub fn new(type_tag: String, payload: Vec<u8>, dependencies: Vec<hashing::Hash>) -> (literal:
        Literal)
        ensures
            literal@.type_tag == type_tag@,
            literal@.payload == payload@,
            literal@.dependencies == dependencies@,
            literal@.intact(),
    {
        let bytes = canonical_form(type_tag.as_str(), payload.as_slice(), &dependencies);
        let hash = digest(bytes.as_slice());
        Literal { hash, dependencies, payload, type_tag }
    }

    /// Recomputes the digest from the content, whatever digest is stored.
    pub fn recompute_hash(&self) -> (hash: hashing::Hash)
        ensures
            hash == self@.recomputed(),
    {
        let bytes = canonical_form(
            self.type_tag.as_str(),
            self.payload.as_slice(),
            &self.dependencies,
        );
        digest(bytes.as_slice())
    }

    /// Whether the stored digest is the digest of the content.
    pub fn validate_hash(&self) -> (valid: bool)
        ensures
            valid == self@.intact(),
    {
        self.hash == self.recompute_hash()
    }
}

impl Clone for Literal {
    fn clone(&self) -> (copy: Literal)
        ensures
            copy@ == self@,
    {
        Literal {
            hash: self.hash,
            dependencies: self.dependencies.clone(),
            payload: self.payload.clone(),
            type_tag: self.type_tag.clone(),
        }
    }
}

} // verus!
