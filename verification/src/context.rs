//! Contexts: partial object graphs, keyed by digest.

use crate::hashed_object::{ObjectState, ObjectView};
use crate::hashing;
use crate::literal::{Literal, LiteralView};
use crate::merge::{
    distinct_roots, lemma_merged_roots_distinct, lemma_merged_roots_union, merge_aliases,
    merge_literals, merge_objects, merge_roots, merged,
};
use crate::missing::{chain_views, collect_missing, dependency_graph, missing_from};
use std::collections::HashMap;
use vstd::prelude::*;
use vstd::std_specs::iter::IteratorSpec;

verus! {

broadcast use vstd::std_specs::hash::group_hash_axioms;

/// The portable part of a context: its roots and its literals.
pub type LiteralContext = (Vec<hashing::Hash>, HashMap<hashing::Hash, Literal>);

/// What a context is bound to besides its content.
pub struct Resources {
    /// Digests that stand for other digests, one step only.
    pub aliasing: Option<HashMap<hashing::Hash, hashing::Hash>>,
}

/// Resources as plain values.
pub struct ResourcesView {
    pub aliasing: Option<Map<hashing::Hash, hashing::Hash>>,
}

impl View for Resources {
    type V = ResourcesView;

    open spec fn view(&self) -> ResourcesView {
        ResourcesView {
            aliasing: match self.aliasing {
                Some(table) => Some(table@),
                None => None,
            },
        }
    }
}

impl Clone for Resources {
    fn clone(&self) -> (copy: Resources)
        ensures
            copy@ == self@,
    {
        Resources {
            aliasing: match &self.aliasing {
                Some(table) => Some(table.clone()),
                None => None,
            },
        }
    }
}

/// A working set of roots, literals and materialized objects.
pub struct Context {
    /// The entry points, in the order in which they were added.
    pub root_hashes: Vec<hashing::Hash>,
    /// The objects that are held in memory.
    pub objects: HashMap<hashing::Hash, ObjectState>,
    /// The literals that are at hand, whether or not their object is held.
    pub literals: HashMap<hashing::Hash, Literal>,
    pub resources: Option<Resources>,
}

/// A context as plain values.
pub struct ContextView {
    pub root_hashes: Seq<hashing::Hash>,
    pub objects: Map<hashing::Hash, ObjectView>,
    pub literals: Map<hashing::Hash, LiteralView>,
    pub resources: Option<ResourcesView>,
}

/// The literals of a map as plain values.
pub open spec fn literal_views(literals: Map<hashing::Hash, Literal>) -> Map<
    hashing::Hash,
    LiteralView,
> {
    literals.map_values(|literal: Literal| literal@)
}

/// The objects of a map as plain values.
pub open spec fn object_views(objects: Map<hashing::Hash, ObjectState>) -> Map<
    hashing::Hash,
    ObjectView,
> {
    objects.map_values(|object: ObjectState| object@)
}

impl View for Context {
    type V = ContextView;

    open spec fn view(&self) -> ContextView {
        ContextView {
            root_hashes: self.root_hashes@,
            objects: object_views(self.objects@),
            literals: literal_views(self.literals@),
            resources: match self.resources {
                Some(resources) => Some(resources@),
                None => None,
            },
        }
    }
}

/// A portable part as plain values.
pub open spec fn portable_view(portable: LiteralContext) -> (
    Seq<hashing::Hash>,
    Map<hashing::Hash, LiteralView>,
) {
    (portable.0@, literal_views(portable.1@))
}

impl ContextView {
    /// The portable part: the roots and the literals.
    pub open spec fn portable(self) -> (Seq<hashing::Hash>, Map<hashing::Hash, LiteralView>) {
        (self.root_hashes, self.literals)
    }

    /// This context after it took over a portable part: the roots and the
    /// literals are those that came, the objects are dropped, the resources
    /// stay.
    pub open spec fn adopting(
        self,
        portable: (Seq<hashing::Hash>, Map<hashing::Hash, LiteralView>),
    ) -> ContextView {
        ContextView {
            root_hashes: portable.0,
            objects: Map::empty(),
            literals: portable.1,
            resources: self.resources,
        }
    }

    /// The alias table, empty where there is none.
    pub open spec fn aliases(self) -> Map<hashing::Hash, hashing::Hash> {
        match self.resources {
            Some(ResourcesView { aliasing: Some(table) }) => table,
            _ => Map::empty(),
        }
    }

    /// Whether `hash` is known here: as a literal, as an object, or as an
    /// alias. An alias is not followed.
    pub open spec fn has(self, hash: hashing::Hash) -> bool {
        self.literals.contains_key(hash) || self.objects.contains_key(hash)
            || self.aliases().contains_key(hash)
    }

    /// Whether every literal stands under its own digest, and that digest is
    /// the digest of its content.
    pub open spec fn content_addressed(self) -> bool {
        forall|hash: hashing::Hash| #[trigger]
            self.literals.contains_key(hash) ==> self.literals[hash].hash == hash
                && self.literals[hash].intact()
    }

    /// Whether every root has its literal.
    pub open spec fn roots_present(self) -> bool {
        forall|i: int|
            0 <= i < self.root_hashes.len() ==> self.literals.contains_key(
                #[trigger] self.root_hashes[i],
            )
    }
}

impl Context {
    /// The context that holds nothing.
    pub open spec fn empty_view() -> ContextView {
        ContextView {
            root_hashes: Seq::empty(),
            objects: Map::empty(),
            literals: Map::empty(),
            resources: None,
        }
    }

    /// An empty context.
    pub fn new() -> (context: Context)
        ensures
            context@ == Context::empty_view(),
    {
        let context = Context {
            root_hashes: Vec::new(),
            objects: HashMap::new(),
            literals: HashMap::new(),
            resources: None,
        };
        assert(context@.objects =~= Map::empty());
        assert(context@.literals =~= Map::empty());
        context
    }

    /// Whether `hash` is known here: as a literal, as an object, or as an
    /// alias. An alias is not followed.
    pub fn has(&self, hash: &hashing::Hash) -> (known: bool)
        ensures
            known == self@.has(*hash),
    {
        if self.literals.contains_key(hash) || self.objects.contains_key(hash) {
            return true;
        }
        match &self.resources {
            Some(resources) => match &resources.aliasing {
                Some(table) => table.contains_key(hash),
                None => false,
            },
            None => false,
        }
    }

    /// The portable part: the roots and copies of the literals.
    pub fn to_literal_context(&self) -> (portable: LiteralContext)
        ensures
            portable_view(portable) == self@.portable(),
    {
        (self.root_hashes.clone(), self.literals.clone())
    }

    /// Takes over roots and literals from `literal_context`. The objects that
    /// were held are dropped; the resources stay.
    pub fn from_literal_context(&mut self, literal_context: LiteralContext)
        ensures
            final(self)@ == old(self)@.adopting(portable_view(literal_context)),
    {
        self.root_hashes = literal_context.0;
        self.literals = literal_context.1;
        self.objects = HashMap::new();
        assert(self@.objects =~= Map::empty());
    }

    /// Merges `other` into this context. Our roots come first, each where it
    /// stood first, and the roots of `other` that we lack follow them, each
    /// once and in their order: no root stands twice afterwards. Of
    /// literals, objects and aliases under one digest, ours stays. Without
    /// resources of our own we take over those of `other`.
    pub fn merge(&mut self, other: &Context)
        ensures
            final(self)@ == merged(old(self)@, other@),
            final(self)@.root_hashes.no_duplicates(),
            final(self)@.root_hashes.to_set() == old(self)@.root_hashes.to_set().union(
                other@.root_hashes.to_set(),
            ),
    {
        proof {
            lemma_merged_roots_distinct(self@.root_hashes, other@.root_hashes);
            lemma_merged_roots_union(self@.root_hashes, other@.root_hashes);
        }
        merge_roots(&mut self.root_hashes, &other.root_hashes);
        merge_literals(&mut self.literals, &other.literals);
        merge_objects(&mut self.objects, &other.objects);
        match &mut self.resources {
            Some(resources) => {
                match &other.resources {
                    Some(Resources { aliasing: Some(table) }) => {
                        match &mut resources.aliasing {
                            Some(own_table) => {
                                merge_aliases(own_table, table);
                            },
                            None => {
                                let mut own_table: HashMap<hashing::Hash, hashing::Hash> =
                                    HashMap::new();
                                merge_aliases(&mut own_table, table);
                                resources.aliasing = Some(own_table);
                            },
                        }
                    },
                    _ => {},
                }
            },
            None => {
                self.resources =
                match &other.resources {
                    Some(resources) => Some(resources.clone()),
                    None => None,
                };
            },
        }
    }

    /// A context of its own with what this one holds: the roots without
    /// repetitions, and copies of the literals, objects and resources.
    pub fn copy(&self) -> (another: Context)
        ensures
            another@ == merged(Context::empty_view(), self@),
            another@.root_hashes == distinct_roots(self@.root_hashes),
            another@.root_hashes.no_duplicates(),
            another@.literals == self@.literals,
            another@.objects == self@.objects,
            another@.resources == self@.resources,
    {
        let mut another = Context::new();
        another.merge(self);
        assert(another@.literals =~= self@.literals);
        assert(another@.objects =~= self@.objects);
        another
    }

    /// What is missing below `hash`: each digest without a literal that the
    /// dependencies lead to, with the chain of digests that led to it, the
    /// nearest first. Of several chains to one digest a shortest is kept, and
    /// of several shortest the one found first. `chain` is the way that led
    /// to `hash`, and `missing` what was found before; both start out empty.
    /// A digest that is met again on its own chain is recorded too, and not
    /// followed again.
    pub fn find_missing_deps(
        &self,
        hash: &hashing::Hash,
        chain: Option<Vec<hashing::Hash>>,
        missing: Option<HashMap<hashing::Hash, Vec<hashing::Hash>>>,
    ) -> (found: HashMap<hashing::Hash, Vec<hashing::Hash>>)
        ensures
            chain_views(found@) == missing_from(
                dependency_graph(self@.literals),
                *hash,
                match chain {
                    Some(way) => way@,
                    None => Seq::empty(),
                },
                match missing {
                    Some(before) => chain_views(before@),
                    None => Map::empty(),
                },
            ),
    {
        let chain = match chain {
            Some(way) => way,
            None => Vec::new(),
        };
        let mut found = match missing {
            Some(before) => before,
            None => {
                let fresh: HashMap<hashing::Hash, Vec<hashing::Hash>> = HashMap::new();
                assert(chain_views(fresh@) =~= Map::empty());
                fresh
            },
        };
        collect_missing(&self.literals, *hash, &chain, &mut found);
        found
    }

    /// Whether `missing` records a digest that has a literal here. Among the
    /// records of `find_missing_deps` such a one closes a cycle of
    /// dependencies: the literals at hand are then not to be trusted.
    pub fn records_cycle(&self, missing: &HashMap<hashing::Hash, Vec<hashing::Hash>>) -> (cyclic:
        bool)
        ensures
            cyclic == exists|hash: hashing::Hash|
                missing@.contains_key(hash) && self@.literals.contains_key(hash),
    {
        let mut cyclic: bool = false;
        for entry in it: missing.iter()
            invariant
                it.seq() == missing.iter().remaining(),
                cyclic == exists|i: int|
                    0 <= i < it.index() && self.literals@.contains_key(*(#[trigger] it.seq()[i]).0),
        {
            let (hash, _) = entry;
            if self.literals.contains_key(hash) {
                cyclic = true;
            }
        }
        proof {
            let entries = missing.iter().remaining();
            if cyclic {
                let i = choose|i: int|
                    0 <= i < entries.len() && self.literals@.contains_key(
                        *(#[trigger] entries[i]).0,
                    );
                assert(missing@.contains_key(*entries[i].0));
                assert(self@.literals.contains_key(*entries[i].0));
            } else {
                assert forall|hash: hashing::Hash|
                    !(missing@.contains_key(hash) && self@.literals.contains_key(hash)) by {
                    if missing@.contains_key(hash) && self@.literals.contains_key(hash) {
                        assert(entries.contains((&hash, &missing@[hash])));
                        let i = choose|i: int|
                            0 <= i < entries.len() && entries[i] == (&hash, &missing@[hash]);
                        assert(self.literals@.contains_key(*entries[i].0));
                    }
                }
            }
        }
        cyclic
    }

    /// Whether every literal stands under its own digest, and that digest is
    /// the digest of its content.
    pub fn check_literal_hashes(&self) -> (sound: bool)
        ensures
            sound == self@.content_addressed(),
    {
        let mut sound: bool = true;
        for entry in it: self.literals.iter()
            invariant
                it.seq() == self.literals.iter().remaining(),
                sound <==> (forall|i: int|
                    0 <= i < it.index() ==> *(#[trigger] it.seq()[i]).0 == it.seq()[i].1.hash
                        && it.seq()[i].1@.intact()),
        {
            let (hash, literal) = entry;
            sound = sound && *hash == literal.hash && literal.validate_hash();
        }
        proof {
            let entries = self.literals.iter().remaining();
            let view = self@;
            if sound {
                assert forall|hash: hashing::Hash| #[trigger]
                    view.literals.contains_key(hash) implies view.literals[hash].hash == hash
                    && view.literals[hash].intact() by {
                    assert(entries.contains((&hash, &self.literals@[hash])));
                    let i = choose|i: int|
                        0 <= i < entries.len() && entries[i] == (&hash, &self.literals@[hash]);
                    assert(*entries[i].0 == entries[i].1.hash);
                }
            } else {
                let i = choose|i: int|
                    0 <= i < entries.len() && !(*(#[trigger] entries[i]).0 == entries[i].1.hash
                        && entries[i].1@.intact());
                assert(view.literals.contains_key(*entries[i].0));
            }
        }
        sound
    }

    /// Whether every root has its literal.
    pub fn check_root_hashes(&self) -> (complete: bool)
        ensures
            complete == self@.roots_present(),
    {
        let mut i: usize = 0;
        while i < self.root_hashes.len()
            invariant
                i <= self.root_hashes@.len(),
                forall|j: int|
                    0 <= j < i ==> self.literals@.contains_key(#[trigger] self.root_hashes@[j]),
            decreases self.root_hashes@.len() - i,
        {
            if !self.literals.contains_key(&self.root_hashes[i]) {
                assert(!self@.literals.contains_key(self@.root_hashes[i as int]));
                return false;
            }
            i += 1;
        }
        true
    }
}

/// A context that takes over the portable part of another has the roots
/// and the literals of that other, exactly, and no objects, whatever it held
/// before and whatever objects the other holds.
pub proof fn lemma_portable_round_trip(receiver: ContextView, source: ContextView)
    ensures
        receiver.adopting(source.portable()).portable() == source.portable(),
        receiver.adopting(source.portable()).root_hashes == source.root_hashes,
        receiver.adopting(source.portable()).literals == source.literals,
        receiver.adopting(source.portable()).objects == Map::<
            hashing::Hash,
            ObjectView,
        >::empty(),
{
}

} // verus!
