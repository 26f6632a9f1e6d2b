//! The reverse index of a dictionary: from a form to the position under
//! which it is found.
//!
//! Strings make no key of a hash map that anything can be proved of here, so
//! the positions are gathered under the digest of their form. A lookup asks
//! for the positions under the digest of the form it looks for, and compares
//! the forms at those positions only.

use crate::hashing;
use crate::hashing::{digest, digest_of};
use crate::wordcode::{lemma_position_found, position_of, texts};
use std::collections::HashMap;
use vstd::prelude::*;
use vstd::utf8::encode_utf8;

verus! {

broadcast use vstd::std_specs::hash::group_hash_axioms;

/// The digest under which the positions of a form are gathered.
pub open spec fn form_key(form: Seq<char>) -> hashing::Hash {
    digest_of(encode_utf8(form))
}

/// Whether `buckets` gathers the positions of `forms`: each position stands
/// under the digest of its form, nothing else stands there, and the
/// positions under one digest ascend.
#[verifier::opaque]
pub open spec fn gathers(
    buckets: Map<hashing::Hash, Vec<usize>>,
    forms: Seq<Seq<char>>,
) -> bool {
    &&& forall|key: hashing::Hash, j: int|
        #![trigger buckets[key]@[j]]
        buckets.contains_key(key) && 0 <= j < buckets[key]@.len() ==> buckets[key]@[j]
            < forms.len() && form_key(forms[buckets[key]@[j] as int]) == key
    &&& forall|key: hashing::Hash, a: int, b: int|
        #![trigger buckets[key]@[a], buckets[key]@[b]]
        buckets.contains_key(key) && 0 <= a < b < buckets[key]@.len() ==> buckets[key]@[a]
            < buckets[key]@[b]
    &&& forall|p: int|
        0 <= p < forms.len() ==> buckets.contains_key(form_key(#[trigger] forms[p]))
            && buckets[form_key(forms[p])]@.contains(p as usize)
}

/// What stands under a digest is a position whose form has that digest.
pub proof fn lemma_gathered_entry(
    buckets: Map<hashing::Hash, Vec<usize>>,
    forms: Seq<Seq<char>>,
    key: hashing::Hash,
    j: int,
)
    requires
        gathers(buckets, forms),
        buckets.contains_key(key),
        0 <= j < buckets[key]@.len(),
    ensures
        buckets[key]@[j] < forms.len(),
        form_key(forms[buckets[key]@[j] as int]) == key,
{
    reveal(gathers);
}

/// The positions under one digest ascend.
pub proof fn lemma_gathered_ascends(
    buckets: Map<hashing::Hash, Vec<usize>>,
    forms: Seq<Seq<char>>,
    key: hashing::Hash,
    a: int,
    b: int,
)
    requires
        gathers(buckets, forms),
        buckets.contains_key(key),
        0 <= a < b < buckets[key]@.len(),
    ensures
        buckets[key]@[a] < buckets[key]@[b],
{
    reveal(gathers);
}

/// Each position stands under the digest of its form.
pub proof fn lemma_gathered_position(
    buckets: Map<hashing::Hash, Vec<usize>>,
    forms: Seq<Seq<char>>,
    position: int,
)
    requires
        gathers(buckets, forms),
        0 <= position < forms.len(),
    ensures
        buckets.contains_key(form_key(forms[position])),
        buckets[form_key(forms[position])]@.contains(position as usize),
{
    reveal(gathers);
}

/// A form that stands at a position with no equal form behind it is found
/// at that position.
pub proof fn lemma_position_is_last(forms: Seq<Seq<char>>, form: Seq<char>, position: int)
    requires
        0 <= position < forms.len(),
        forms[position] == form,
        forall|later: int| position < later < forms.len() ==> forms[later] != form,
    ensures
        position_of(forms, form) == Some(position as nat),
    decreases forms.len(),
{
    if forms.last() != form {
        let earlier = forms.drop_last();
        assert(earlier[position] == form);
        assert forall|later: int| position < later < earlier.len() implies earlier[later]
            != form by {
            assert(earlier[later] == forms[later]);
        }
        lemma_position_is_last(earlier, form, position);
    }
}

/// The forms of a dictionary with the positions gathered under their
/// digests.
pub struct WordIndex {
    forms: Vec<String>,
    buckets: HashMap<hashing::Hash, Vec<usize>>,
}

impl WordIndex {
    #[verifier::type_invariant]
    spec fn consistent(self) -> bool {
        gathers(self.buckets@, texts(self.forms@))
    }

    /// The forms, in the order of the words.
    pub closed spec fn forms(&self) -> Seq<Seq<char>> {
        texts(self.forms@)
    }

    /// The forms, in the order of the words.
    pub fn all_forms(&self) -> (forms: &Vec<String>)
        ensures
            texts(forms@) == self.forms(),
    {
        &self.forms
    }

    /// The index of `forms`.
    pub fn build(forms: Vec<String>) -> (index: WordIndex)
        ensures
            index.forms() == texts(forms@),
    {
        let mut buckets: HashMap<hashing::Hash, Vec<usize>> = HashMap::new();
        let mut p: usize = 0;
        let ghost all = texts(forms@);
        proof {
            reveal(gathers);
        }
        while p < forms.len()
            invariant
                p <= forms@.len(),
                all == texts(forms@),
                gathers(buckets@, all.take(p as int)),
            decreases forms@.len() - p,
        {
            let ghost before = buckets@;
            let ghost known = all.take(p as int);
            let ghost longer = all.take(p + 1);
            let key = digest(forms[p].as_str().as_bytes());
            assert(key == form_key(all[p as int]));
            let mut bucket = match buckets.remove(&key) {
                Some(bucket) => bucket,
                None => Vec::new(),
            };
            let ghost old_bucket = bucket@;
            assert(before.contains_key(key) ==> before[key]@ == old_bucket);
            assert(!before.contains_key(key) ==> old_bucket.len() == 0);
            bucket.push(p);
            let ghost new_bucket = bucket@;
            buckets.insert(key, bucket);
            proof {
                reveal(gathers);
                let after = buckets@;
                assert(after.contains_key(key) && after[key]@ == new_bucket);
                assert forall|other: hashing::Hash| other != key implies (after.contains_key(other)
                    <==> before.contains_key(other)) && (after.contains_key(other) ==> after[other]
                    == before[other]) by {}
                assert forall|k: hashing::Hash, j: int|
                    #![trigger after[k]@[j]]
                    after.contains_key(k) && 0 <= j < after[k]@.len() implies after[k]@[j]
                    < longer.len() && form_key(longer[after[k]@[j] as int]) == k by {
                    if k == key {
                        if j < old_bucket.len() {
                            assert(before[key]@[j] < known.len());
                            assert(known[before[key]@[j] as int] == longer[before[key]@[j] as int]);
                        }
                    } else {
                        assert(before[k]@[j] < known.len());
                        assert(known[before[k]@[j] as int] == longer[before[k]@[j] as int]);
                    }
                }
                assert forall|k: hashing::Hash, a: int, b: int|
                    #![trigger after[k]@[a], after[k]@[b]]
                    after.contains_key(k) && 0 <= a < b < after[k]@.len() implies after[k]@[a]
                    < after[k]@[b] by {
                    if k == key {
                        if b < old_bucket.len() {
                            assert(before[key]@[a] < before[key]@[b]);
                        } else {
                            assert(before[key]@[a] < known.len());
                        }
                    } else {
                        assert(before[k]@[a] < before[k]@[b]);
                    }
                }
                assert forall|q: int| 0 <= q < longer.len() implies after.contains_key(
                    form_key(#[trigger] longer[q]),
                ) && after[form_key(longer[q])]@.contains(q as usize) by {
                    if q < p {
                        assert(known[q] == longer[q]);
                        let k = form_key(known[q]);
                        assert(before.contains_key(k) && before[k]@.contains(q as usize));
                        let j = choose|j: int|
                            0 <= j < before[k]@.len() && before[k]@[j] == q as usize;
                        if k == key {
                            assert(new_bucket[j] == q as usize);
                        } else {
                            assert(after[k]@[j] == q as usize);
                        }
                    } else {
                        assert(new_bucket[old_bucket.len() as int] == p);
                    }
                }
            }
            p += 1;
        }
        assert(all.take(p as int) == all);
        WordIndex { forms, buckets }
    }

    /// The position under which `form` is found: the last that holds it.
    pub fn position(&self, form: &String) -> (found: Option<usize>)
        ensures
            match found {
                Some(position) => position_of(self.forms(), form@) == Some(position as nat),
                None => position_of(self.forms(), form@) is None,
            },
    {
        proof {
            use_type_invariant(self);
        }
        let ghost all = texts(self.forms@);
        let total = self.forms.len();
        let key = digest(form.as_str().as_bytes());
        let bucket = match self.buckets.get(&key) {
            Some(bucket) => bucket,
            None => {
                proof {
                    lemma_position_found(all, form@);
                    if all.contains(form@) {
                        let p = choose|p: int| 0 <= p < all.len() && all[p] == form@;
                        lemma_gathered_position(self.buckets@, all, p);
                    }
                }
                return None;
            },
        };
        let mut j: usize = bucket.len();
        while j > 0
            invariant
                j <= bucket@.len(),
                all == texts(self.forms@),
                all.len() == total,
                gathers(self.buckets@, all),
                key == form_key(form@),
                self.buckets@.contains_key(key),
                self.buckets@[key] == *bucket,
                forall|i: int|
                    j <= i < bucket@.len() ==> (#[trigger] bucket@[i]) < all.len()
                        && all[bucket@[i] as int] != form@,
            decreases j,
        {
            j -= 1;
            let at = bucket[j];
            proof {
                lemma_gathered_entry(self.buckets@, all, key, j as int);
            }
            assert(all[at as int] == self.forms@[at as int]@);
            if self.forms[at] == *form {
                proof {
                    assert forall|later: int| at < later < all.len() implies all[later]
                        != form@ by {
                        if all[later] == form@ {
                            lemma_gathered_position(self.buckets@, all, later);
                            assert(bucket@.contains(later as usize));
                            let i = choose|i: int|
                                0 <= i < bucket@.len() && bucket@[i] == later as usize;
                            if i < j {
                                lemma_gathered_ascends(self.buckets@, all, key, i, j as int);
                            } else if i > j {
                                assert(all[bucket@[i] as int] != form@);
                            }
                        }
                    }
                    lemma_position_is_last(all, form@, at as int);
                }
                return Some(at);
            }
        }
        proof {
            lemma_position_found(all, form@);
            if all.contains(form@) {
                let p = choose|p: int| 0 <= p < all.len() && all[p] == form@;
                lemma_gathered_position(self.buckets@, all, p);
                assert(bucket@.contains(p as usize));
                let i = choose|i: int| 0 <= i < bucket@.len() && bucket@[i] == p as usize;
                assert(all[bucket@[i] as int] != form@);
            }
        }
        None
    }
}

} // verus!
