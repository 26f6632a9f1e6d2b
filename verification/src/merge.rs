//! How two contexts become one.
//!
//! Roots: those of the receiving context come first, each where it stands
//! first; behind them come the roots of the other context that are not yet
//! there, each once, in the order in which the other context holds them. No
//! root stands twice after a merge, whatever either side held. Literals,
//! objects and
//! aliases: an entry of the other context is taken only where the receiving
//! context has none under that digest.

use crate::context::{literal_views, object_views, ContextView, ResourcesView};
use crate::hashed_object::ObjectState;
use crate::hashing;
use crate::literal::Literal;
use std::collections::{HashMap, HashSet};
use vstd::prelude::*;
use vstd::std_specs::iter::IteratorSpec;

verus! {

broadcast use vstd::std_specs::hash::group_hash_axioms;

/// `ours`, and behind it the digests of `theirs` that are not yet there, each
/// once and in their order.
pub open spec fn joined(ours: Seq<hashing::Hash>, theirs: Seq<hashing::Hash>) -> Seq<
    hashing::Hash,
>
    decreases theirs.len(),
{
    if theirs.len() == 0 {
        ours
    } else {
        let before = joined(ours, theirs.drop_last());
        if before.contains(theirs.last()) {
            before
        } else {
            before.push(theirs.last())
        }
    }
}

/// The union of two maps in which `ours` keeps every entry it has.
pub open spec fn first_wins<V>(ours: Map<hashing::Hash, V>, theirs: Map<hashing::Hash, V>) -> Map<
    hashing::Hash,
    V,
> {
    Map::new(
        |hash: hashing::Hash| ours.contains_key(hash) || theirs.contains_key(hash),
        |hash: hashing::Hash|
            if ours.contains_key(hash) {
                ours[hash]
            } else {
                theirs[hash]
            },
    )
}

/// The resources after a merge. Where we have none, theirs are taken over.
/// Where they bring an alias table, ours is extended by it, and made first
/// if there was none.
pub open spec fn merged_resources(
    ours: Option<ResourcesView>,
    theirs: Option<ResourcesView>,
) -> Option<ResourcesView> {
    match ours {
        None => theirs,
        Some(own) => match theirs {
            Some(ResourcesView { aliasing: Some(table) }) => Some(
                ResourcesView {
                    aliasing: Some(
                        first_wins(
                            match own.aliasing {
                                Some(own_table) => own_table,
                                None => Map::empty(),
                            },
                            table,
                        ),
                    ),
                },
            ),
            _ => ours,
        },
    }
}

/// `roots` without repetitions: each digest where it stands first.
pub open spec fn distinct_roots(roots: Seq<hashing::Hash>) -> Seq<hashing::Hash> {
    joined(Seq::empty(), roots)
}

/// The roots after a merge: ours, each once, then what `theirs` adds.
pub open spec fn merged_roots(ours: Seq<hashing::Hash>, theirs: Seq<hashing::Hash>) -> Seq<
    hashing::Hash,
> {
    joined(distinct_roots(ours), theirs)
}

/// The context that `ours` becomes when `theirs` is merged into it.
pub open spec fn merged(ours: ContextView, theirs: ContextView) -> ContextView {
    ContextView {
        root_hashes: merged_roots(ours.root_hashes, theirs.root_hashes),
        objects: first_wins(ours.objects, theirs.objects),
        literals: first_wins(ours.literals, theirs.literals),
        resources: merged_resources(ours.resources, theirs.resources),
    }
}

/// Whether one of the first `n` entries stands under `hash`.
spec fn key_seen<V>(entries: Seq<(&hashing::Hash, &V)>, n: int, hash: hashing::Hash) -> bool {
    exists|i: int| 0 <= i < n && *(#[trigger] entries[i]).0 == hash
}

/// Whether `hash` occurs in `hashes`.
pub fn contains_hash(hashes: &Vec<hashing::Hash>, hash: hashing::Hash) -> (found: bool)
    ensures
        found == hashes@.contains(hash),
{
    let mut i: usize = 0;
    while i < hashes.len()
        invariant
            i <= hashes@.len(),
            forall|j: int| 0 <= j < i ==> hashes@[j] != hash,
        decreases hashes@.len() - i,
    {
        if hashes[i] == hash {
            return true;
        }
        i += 1;
    }
    false
}

/// Appends to `out` the digests of `more` that it does not hold yet. `seen`
/// holds the digests of `out`, before and after.
fn join_unseen(
    out: &mut Vec<hashing::Hash>,
    seen: &mut HashSet<hashing::Hash>,
    more: &Vec<hashing::Hash>,
)
    requires
        old(seen)@ == old(out)@.to_set(),
    ensures
        final(out)@ == joined(old(out)@, more@),
        final(seen)@ == final(out)@.to_set(),
{
    let mut i: usize = 0;
    while i < more.len()
        invariant
            i <= more@.len(),
            out@ == joined(old(out)@, more@.take(i as int)),
            seen@ == out@.to_set(),
        decreases more@.len() - i,
    {
        assert(more@.take(i + 1).drop_last() == more@.take(i as int));
        let root = more[i];
        assert(seen@.contains(root) == out@.contains(root));
        if !seen.contains(&root) {
            let ghost before = out@;
            seen.insert(root);
            out.push(root);
            assert(out@.to_set() =~= before.to_set().insert(root)) by {
                assert forall|hash: hashing::Hash|
                    out@.contains(hash) <==> before.contains(hash) || hash == root by {
                    vstd::seq_lib::lemma_seq_contains_after_push(before, root, hash);
                }
            }
        }
        i += 1;
    }
    assert(more@.take(i as int) == more@);
}

/// Makes `ours` the roots of a merge: its own, each once, then those of
/// `theirs` that it lacks.
pub fn merge_roots(ours: &mut Vec<hashing::Hash>, theirs: &Vec<hashing::Hash>)
    ensures
        final(ours)@ == merged_roots(old(ours)@, theirs@),
{
    let mut kept: Vec<hashing::Hash> = Vec::new();
    let mut seen: HashSet<hashing::Hash> = HashSet::new();
    assert(seen@ =~= kept@.to_set());
    join_unseen(&mut kept, &mut seen, ours);
    join_unseen(&mut kept, &mut seen, theirs);
    *ours = kept;
}

/// One more entry is seen either before or as the entry that was added.
proof fn lemma_key_seen_next<V>(entries: Seq<(&hashing::Hash, &V)>, n: int, hash: hashing::Hash)
    requires
        0 <= n < entries.len(),
    ensures
        key_seen(entries, n + 1, hash) <==> key_seen(entries, n, hash) || *entries[n].0 == hash,
{
    if key_seen(entries, n, hash) {
        let i = choose|i: int| 0 <= i < n && *(#[trigger] entries[i]).0 == hash;
        assert(0 <= i < n + 1 && *entries[i].0 == hash);
    }
    if *entries[n].0 == hash {
        assert(0 <= n < n + 1 && *entries[n].0 == hash);
    }
    if key_seen(entries, n + 1, hash) {
        let i = choose|i: int| 0 <= i < n + 1 && *(#[trigger] entries[i]).0 == hash;
        if i < n {
            assert(key_seen(entries, n, hash));
        }
    }
}

/// Walking a whole map sees exactly its keys.
proof fn lemma_key_seen_all<V>(map: &HashMap<hashing::Hash, V>, hash: hashing::Hash)
    ensures
        key_seen(map.iter().remaining(), map.iter().remaining().len() as int, hash)
            <==> map@.contains_key(hash),
{
    let entries = map.iter().remaining();
    if map@.contains_key(hash) {
        assert(entries.contains((&hash, &map@[hash])));
        let i = choose|i: int| 0 <= i < entries.len() && entries[i] == (&hash, &map@[hash]);
        assert(*entries[i].0 == hash);
    }
    if key_seen(entries, entries.len() as int, hash) {
        let i = choose|i: int| 0 <= i < entries.len() && *(#[trigger] entries[i]).0 == hash;
        assert(map@.contains_key(*entries[i].0));
    }
}

/// Copies into `ours` the literals of `theirs` whose digest `ours` lacks.
pub fn merge_literals(
    ours: &mut HashMap<hashing::Hash, Literal>,
    theirs: &HashMap<hashing::Hash, Literal>,
)
    ensures
        literal_views(final(ours)@) == first_wins(
            literal_views(old(ours)@),
            literal_views(theirs@),
        ),
{
    let ghost before = ours@;
    for entry in it: theirs.iter()
        invariant
            it.seq() == theirs.iter().remaining(),
            forall|hash: hashing::Hash|
                ours@.contains_key(hash) <==> before.contains_key(hash) || key_seen(
                    it.seq(),
                    it.index(),
                    hash,
                ),
            forall|hash: hashing::Hash| #[trigger]
                ours@.contains_key(hash) ==> ours@[hash]@ == (if before.contains_key(hash) {
                    before[hash]@
                } else {
                    theirs@[hash]@
                }),
    {
        let (hash, literal) = entry;
        let ghost n = it.index();
        let ghost held = ours@;
        if !ours.contains_key(hash) {
            ours.insert(*hash, literal.clone());
        }
        assert forall|other: hashing::Hash|
            ours@.contains_key(other) <==> before.contains_key(other) || key_seen(
                it.seq(),
                n + 1,
                other,
            ) by {
            lemma_key_seen_next(it.seq(), n, other);
            assert(held.contains_key(other) <==> before.contains_key(other) || key_seen(
                it.seq(),
                n,
                other,
            ));
        }
    }
    proof {
        assert forall|hash: hashing::Hash|
            #![trigger ours@.contains_key(hash)]
            ours@.contains_key(hash) <==> before.contains_key(hash) || theirs@.contains_key(
                hash,
            ) by {
            lemma_key_seen_all(theirs, hash);
        }
        assert(literal_views(ours@) =~= first_wins(literal_views(before), literal_views(theirs@)));
    }
}

/// Copies into `ours` the objects of `theirs` whose digest `ours` lacks.
pub fn merge_objects(
    ours: &mut HashMap<hashing::Hash, ObjectState>,
    theirs: &HashMap<hashing::Hash, ObjectState>,
)
    ensures
        object_views(final(ours)@) == first_wins(object_views(old(ours)@), object_views(theirs@)),
{
    let ghost before = ours@;
    for entry in it: theirs.iter()
        invariant
            it.seq() == theirs.iter().remaining(),
            forall|hash: hashing::Hash|
                ours@.contains_key(hash) <==> before.contains_key(hash) || key_seen(
                    it.seq(),
                    it.index(),
                    hash,
                ),
            forall|hash: hashing::Hash| #[trigger]
                ours@.contains_key(hash) ==> ours@[hash]@ == (if before.contains_key(hash) {
                    before[hash]@
                } else {
                    theirs@[hash]@
                }),
    {
        let (hash, object) = entry;
        let ghost n = it.index();
        let ghost held = ours@;
        if !ours.contains_key(hash) {
            ours.insert(*hash, object.clone());
        }
        assert forall|other: hashing::Hash|
            ours@.contains_key(other) <==> before.contains_key(other) || key_seen(
                it.seq(),
                n + 1,
                other,
            ) by {
            lemma_key_seen_next(it.seq(), n, other);
            assert(held.contains_key(other) <==> before.contains_key(other) || key_seen(
                it.seq(),
                n,
                other,
            ));
        }
    }
    proof {
        assert forall|hash: hashing::Hash|
            #![trigger ours@.contains_key(hash)]
            ours@.contains_key(hash) <==> before.contains_key(hash) || theirs@.contains_key(
                hash,
            ) by {
            lemma_key_seen_all(theirs, hash);
        }
        assert(object_views(ours@) =~= first_wins(object_views(before), object_views(theirs@)));
    }
}

/// Copies into `ours` the aliases of `theirs` for digests that `ours` has
/// no alias for.
pub fn merge_aliases(
    ours: &mut HashMap<hashing::Hash, hashing::Hash>,
    theirs: &HashMap<hashing::Hash, hashing::Hash>,
)
    ensures
        final(ours)@ == first_wins(old(ours)@, theirs@),
{
    let ghost before = ours@;
    for entry in it: theirs.iter()
        invariant
            it.seq() == theirs.iter().remaining(),
            forall|hash: hashing::Hash|
                ours@.contains_key(hash) <==> before.contains_key(hash) || key_seen(
                    it.seq(),
                    it.index(),
                    hash,
                ),
            forall|hash: hashing::Hash| #[trigger]
                ours@.contains_key(hash) ==> ours@[hash] == (if before.contains_key(hash) {
                    before[hash]
                } else {
                    theirs@[hash]
                }),
    {
        let (hash, aliased) = entry;
        let ghost n = it.index();
        let ghost held = ours@;
        if !ours.contains_key(hash) {
            ours.insert(*hash, *aliased);
        }
        assert forall|other: hashing::Hash|
            ours@.contains_key(other) <==> before.contains_key(other) || key_seen(
                it.seq(),
                n + 1,
                other,
            ) by {
            lemma_key_seen_next(it.seq(), n, other);
            assert(held.contains_key(other) <==> before.contains_key(other) || key_seen(
                it.seq(),
                n,
                other,
            ));
        }
    }
    proof {
        assert forall|hash: hashing::Hash|
            #![trigger ours@.contains_key(hash)]
            ours@.contains_key(hash) <==> before.contains_key(hash) || theirs@.contains_key(
                hash,
            ) by {
            lemma_key_seen_all(theirs, hash);
        }
        let united = first_wins(before, theirs@);
        assert(ours@ =~= united);
    }
}

/// What is joined holds the digests of both sides, and no other.
pub proof fn lemma_joined_contains(
    ours: Seq<hashing::Hash>,
    theirs: Seq<hashing::Hash>,
    hash: hashing::Hash,
)
    ensures
        joined(ours, theirs).contains(hash) <==> ours.contains(hash) || theirs.contains(
            hash,
        ),
    decreases theirs.len(),
{
    if theirs.len() > 0 {
        let earlier = theirs.drop_last();
        let before = joined(ours, earlier);
        lemma_joined_contains(ours, earlier, hash);
        assert(theirs == earlier.push(theirs.last()));
        vstd::seq_lib::lemma_seq_contains_after_push(earlier, theirs.last(), hash);
        vstd::seq_lib::lemma_seq_contains_after_push(before, theirs.last(), hash);
    }
}

/// What is joined is, as a set, the union of both sides.
pub proof fn lemma_joined_union(ours: Seq<hashing::Hash>, theirs: Seq<hashing::Hash>)
    ensures
        joined(ours, theirs).to_set() == ours.to_set().union(theirs.to_set()),
{
    assert forall|hash: hashing::Hash|
        joined(ours, theirs).to_set().contains(hash) <==> ours.to_set().union(
            theirs.to_set(),
        ).contains(hash) by {
        lemma_joined_contains(ours, theirs, hash);
    }
    assert(joined(ours, theirs).to_set() =~= ours.to_set().union(theirs.to_set()));
}

/// What is joined begins with the first side, as it is.
pub proof fn lemma_joined_keep_ours(ours: Seq<hashing::Hash>, theirs: Seq<hashing::Hash>)
    ensures
        ours.len() <= joined(ours, theirs).len(),
        joined(ours, theirs).take(ours.len() as int) == ours,
    decreases theirs.len(),
{
    if theirs.len() > 0 {
        lemma_joined_keep_ours(ours, theirs.drop_last());
        let before = joined(ours, theirs.drop_last());
        assert(before.push(theirs.last()).take(ours.len() as int) =~= before.take(
            ours.len() as int,
        ));
    } else {
        assert(ours.take(ours.len() as int) =~= ours);
    }
}

/// Joining adds no digest twice: a side without repetition stays so.
pub proof fn lemma_joined_distinct(ours: Seq<hashing::Hash>, theirs: Seq<hashing::Hash>)
    requires
        ours.no_duplicates(),
    ensures
        joined(ours, theirs).no_duplicates(),
    decreases theirs.len(),
{
    if theirs.len() > 0 {
        lemma_joined_distinct(ours, theirs.drop_last());
    }
}

/// Digests that the first side holds already change nothing.
pub proof fn lemma_joined_absorbed(ours: Seq<hashing::Hash>, theirs: Seq<hashing::Hash>)
    requires
        forall|i: int| 0 <= i < theirs.len() ==> ours.contains(#[trigger] theirs[i]),
    ensures
        joined(ours, theirs) == ours,
    decreases theirs.len(),
{
    if theirs.len() > 0 {
        let earlier = theirs.drop_last();
        assert forall|i: int| 0 <= i < earlier.len() implies ours.contains(
            #[trigger] earlier[i],
        ) by {
            assert(earlier[i] == theirs[i]);
        }
        lemma_joined_absorbed(ours, earlier);
        assert(ours.contains(theirs[theirs.len() - 1]));
    }
}

/// Joining in two steps or in one gives the same sequence.
pub proof fn lemma_joined_associative(
    first: Seq<hashing::Hash>,
    second: Seq<hashing::Hash>,
    third: Seq<hashing::Hash>,
)
    ensures
        joined(joined(first, second), third) == joined(
            first,
            joined(second, third),
        ),
    decreases third.len(),
{
    if third.len() > 0 {
        let earlier = third.drop_last();
        let last = third.last();
        lemma_joined_associative(first, second, earlier);
        let inner = joined(second, earlier);
        let outer = joined(joined(first, second), earlier);
        lemma_joined_contains(first, inner, last);
        if !inner.contains(last) {
            assert(inner.push(last).drop_last() == inner);
        }
    }
}

/// Roots without repetition are their own distinct roots.
pub proof fn lemma_distinct_roots_fixed(roots: Seq<hashing::Hash>)
    requires
        roots.no_duplicates(),
    ensures
        distinct_roots(roots) == roots,
    decreases roots.len(),
{
    if roots.len() > 0 {
        let earlier = roots.drop_last();
        lemma_distinct_roots_fixed(earlier);
        if earlier.contains(roots.last()) {
            let i = choose|i: int| 0 <= i < earlier.len() && earlier[i] == roots.last();
            assert(roots[i] == roots[roots.len() - 1]);
        }
        assert(earlier.push(roots.last()) == roots);
    }
}

/// A digest is a root after a merge where it was a root of either side.
pub proof fn lemma_merged_roots_contains(
    ours: Seq<hashing::Hash>,
    theirs: Seq<hashing::Hash>,
    hash: hashing::Hash,
)
    ensures
        merged_roots(ours, theirs).contains(hash) <==> ours.contains(hash) || theirs.contains(
            hash,
        ),
{
    lemma_joined_contains(Seq::empty(), ours, hash);
    lemma_joined_contains(distinct_roots(ours), theirs, hash);
}

/// The roots after a merge are, as a set, the roots of both sides.
pub proof fn lemma_merged_roots_union(ours: Seq<hashing::Hash>, theirs: Seq<hashing::Hash>)
    ensures
        merged_roots(ours, theirs).to_set() == ours.to_set().union(theirs.to_set()),
{
    assert forall|hash: hashing::Hash|
        merged_roots(ours, theirs).to_set().contains(hash) <==> ours.to_set().union(
            theirs.to_set(),
        ).contains(hash) by {
        lemma_merged_roots_contains(ours, theirs, hash);
    }
    assert(merged_roots(ours, theirs).to_set() =~= ours.to_set().union(theirs.to_set()));
}

/// No root stands twice after a merge, whatever either side held.
pub proof fn lemma_merged_roots_distinct(ours: Seq<hashing::Hash>, theirs: Seq<hashing::Hash>)
    ensures
        merged_roots(ours, theirs).no_duplicates(),
{
    lemma_joined_distinct(Seq::empty(), ours);
    lemma_joined_distinct(distinct_roots(ours), theirs);
}

/// Our roots come first in a merge, each where it stood first: the merged
/// roots begin with them, and with our roots as they are where none stood
/// twice.
pub proof fn lemma_merged_roots_keep_ours(ours: Seq<hashing::Hash>, theirs: Seq<hashing::Hash>)
    ensures
        distinct_roots(ours).len() <= merged_roots(ours, theirs).len(),
        merged_roots(ours, theirs).take(distinct_roots(ours).len() as int) == distinct_roots(
            ours,
        ),
        ours.no_duplicates() ==> distinct_roots(ours) == ours,
{
    lemma_joined_keep_ours(distinct_roots(ours), theirs);
    if ours.no_duplicates() {
        lemma_distinct_roots_fixed(ours);
    }
}

/// Roots that we hold already change nothing, where we hold none twice.
pub proof fn lemma_merged_roots_absorbed(ours: Seq<hashing::Hash>, theirs: Seq<hashing::Hash>)
    requires
        ours.no_duplicates(),
        forall|i: int| 0 <= i < theirs.len() ==> ours.contains(#[trigger] theirs[i]),
    ensures
        merged_roots(ours, theirs) == ours,
{
    lemma_distinct_roots_fixed(ours);
    lemma_joined_absorbed(ours, theirs);
}

/// Merging roots in two steps or in one gives the same sequence.
pub proof fn lemma_merged_roots_associative(
    first: Seq<hashing::Hash>,
    second: Seq<hashing::Hash>,
    third: Seq<hashing::Hash>,
)
    ensures
        merged_roots(merged_roots(first, second), third) == merged_roots(
            first,
            merged_roots(second, third),
        ),
{
    let none = Seq::<hashing::Hash>::empty();
    let ours = distinct_roots(first);
    lemma_merged_roots_distinct(first, second);
    lemma_distinct_roots_fixed(merged_roots(first, second));
    lemma_joined_associative(ours, distinct_roots(second), third);
    lemma_joined_associative(ours, none, second);
    assert(joined(ours, none) == ours);
}

/// Taking first what one has is associative.
pub proof fn lemma_first_wins_associative<V>(
    first: Map<hashing::Hash, V>,
    second: Map<hashing::Hash, V>,
    third: Map<hashing::Hash, V>,
)
    ensures
        first_wins(first_wins(first, second), third) == first_wins(
            first,
            first_wins(second, third),
        ),
{
    assert(first_wins(first_wins(first, second), third) =~= first_wins(
        first,
        first_wins(second, third),
    ));
}

/// Whether two maps hold the same value wherever both hold one.
pub open spec fn agree<V>(left: Map<hashing::Hash, V>, right: Map<hashing::Hash, V>) -> bool {
    forall|hash: hashing::Hash|
        left.contains_key(hash) && right.contains_key(hash) ==> left[hash] == right[hash]
}

/// Whether two contexts hold the same literal and the same alias wherever
/// both hold one.
pub open spec fn compatible(left: ContextView, right: ContextView) -> bool {
    agree(left.literals, right.literals) && agree(left.aliases(), right.aliases())
}

/// Merging a context into itself changes nothing but the roots that stood
/// twice: each then stands once, where it stood first. A context without
/// such roots stays as it is.
pub proof fn lemma_merge_idempotent(context: ContextView)
    ensures
        merged(context, context) == (ContextView {
            root_hashes: distinct_roots(context.root_hashes),
            ..context
        }),
        context.root_hashes.no_duplicates() ==> merged(context, context) == context,
{
    let again = merged(context, context);
    let once = distinct_roots(context.root_hashes);
    assert forall|i: int| 0 <= i < context.root_hashes.len() implies once.contains(
        #[trigger] context.root_hashes[i],
    ) by {
        lemma_joined_contains(Seq::empty(), context.root_hashes, context.root_hashes[i]);
    }
    lemma_joined_absorbed(once, context.root_hashes);
    assert(again.literals =~= context.literals);
    assert(again.objects =~= context.objects);
    match context.resources {
        Some(ResourcesView { aliasing: Some(table) }) => {
            assert(first_wins(table, table) =~= table);
        },
        _ => {},
    }
    if context.root_hashes.no_duplicates() {
        lemma_distinct_roots_fixed(context.root_hashes);
    }
}

/// Merging a second time changes nothing either.
pub proof fn lemma_merge_repeated(ours: ContextView, theirs: ContextView)
    ensures
        merged(merged(ours, theirs), theirs) == merged(ours, theirs),
{
    let once = merged(ours, theirs);
    let twice = merged(once, theirs);
    assert forall|i: int| 0 <= i < theirs.root_hashes.len() implies once.root_hashes.contains(
        #[trigger] theirs.root_hashes[i],
    ) by {
        lemma_merged_roots_contains(ours.root_hashes, theirs.root_hashes, theirs.root_hashes[i]);
    }
    lemma_merged_roots_distinct(ours.root_hashes, theirs.root_hashes);
    lemma_merged_roots_absorbed(once.root_hashes, theirs.root_hashes);
    assert(twice.literals =~= once.literals);
    assert(twice.objects =~= once.objects);
    match (once.resources, theirs.resources) {
        (
            Some(ResourcesView { aliasing: Some(table) }),
            Some(ResourcesView { aliasing: Some(other) }),
        ) => {
            assert(first_wins(table, other) =~= table);
        },
        _ => {},
    }
}

/// Two contexts that agree wherever both hold a literal or an alias merge to
/// the same literals, the same resources and the same set of roots, whichever
/// is merged into the other; and to the same objects, if they agree on those.
pub proof fn lemma_merge_commutative(left: ContextView, right: ContextView)
    requires
        compatible(left, right),
    ensures
        merged(left, right).literals == merged(right, left).literals,
        merged(left, right).resources == merged(right, left).resources,
        merged(left, right).aliases() == merged(right, left).aliases(),
        merged(left, right).root_hashes.to_set() == merged(right, left).root_hashes.to_set(),
        agree(left.objects, right.objects) ==> merged(left, right).objects == merged(
            right,
            left,
        ).objects,
{
    let one = merged(left, right);
    let other = merged(right, left);
    assert(one.literals =~= other.literals);
    lemma_merged_roots_union(left.root_hashes, right.root_hashes);
    lemma_merged_roots_union(right.root_hashes, left.root_hashes);
    assert(one.root_hashes.to_set() =~= other.root_hashes.to_set());
    if agree(left.objects, right.objects) {
        assert(one.objects =~= other.objects);
    }
    match (left.resources, right.resources) {
        (Some(own), Some(their)) => {
            match (own.aliasing, their.aliasing) {
                (Some(table), Some(their_table)) => {
                    assert(first_wins(table, their_table) =~= first_wins(their_table, table));
                },
                (Some(table), None) => {
                    assert(first_wins(Map::empty(), table) =~= table);
                },
                (None, Some(their_table)) => {
                    assert(first_wins(Map::empty(), their_table) =~= their_table);
                },
                (None, None) => {},
            }
        },
        _ => {},
    }
}

/// Whichever way two contexts are merged, the same digests are roots, have
/// a literal and have an object.
pub proof fn lemma_merge_same_digests(left: ContextView, right: ContextView)
    ensures
        merged(left, right).root_hashes.to_set() == merged(right, left).root_hashes.to_set(),
        merged(left, right).literals.dom() == merged(right, left).literals.dom(),
        merged(left, right).objects.dom() == merged(right, left).objects.dom(),
{
    lemma_merged_roots_union(left.root_hashes, right.root_hashes);
    lemma_merged_roots_union(right.root_hashes, left.root_hashes);
    assert(merged(left, right).root_hashes.to_set() =~= merged(right, left).root_hashes.to_set());
    assert(merged(left, right).literals.dom() =~= merged(right, left).literals.dom());
    assert(merged(left, right).objects.dom() =~= merged(right, left).objects.dom());
}

/// Merging three contexts gives the same context however they are grouped.
pub proof fn lemma_merge_associative(first: ContextView, second: ContextView, third: ContextView)
    ensures
        merged(merged(first, second), third) == merged(first, merged(second, third)),
{
    let left = merged(merged(first, second), third);
    let right = merged(first, merged(second, third));
    lemma_merged_roots_associative(first.root_hashes, second.root_hashes, third.root_hashes);
    lemma_first_wins_associative(first.literals, second.literals, third.literals);
    lemma_first_wins_associative(first.objects, second.objects, third.objects);
    let none = Map::<hashing::Hash, hashing::Hash>::empty();
    match (first.resources, second.resources, third.resources) {
        (Some(a), Some(b), Some(ResourcesView { aliasing: Some(tc) })) => {
            let ta = match a.aliasing {
                Some(table) => table,
                None => none,
            };
            match b.aliasing {
                Some(tb) => {
                    lemma_first_wins_associative(ta, tb, tc);
                },
                None => {
                    assert(first_wins(none, tc) =~= tc);
                },
            }
        },
        _ => {},
    }
    assert(left.resources == right.resources);
}

/// Merging keeps what the integrity checks ask for: of two contexts whose
/// literals stand under their own digests the merged one is such a context,
/// and where every root of both has its literal, every root of the merged
/// one has.
pub proof fn lemma_merge_keeps_integrity(ours: ContextView, theirs: ContextView)
    ensures
        ours.content_addressed() && theirs.content_addressed() ==> merged(
            ours,
            theirs,
        ).content_addressed(),
        ours.roots_present() && theirs.roots_present() ==> merged(ours, theirs).roots_present(),
{
    let both = merged(ours, theirs);
    if ours.roots_present() && theirs.roots_present() {
        assert forall|i: int| 0 <= i < both.root_hashes.len() implies both.literals.contains_key(
            #[trigger] both.root_hashes[i],
        ) by {
            let root = both.root_hashes[i];
            lemma_merged_roots_contains(ours.root_hashes, theirs.root_hashes, root);
            if ours.root_hashes.contains(root) {
                let j = choose|j: int|
                    0 <= j < ours.root_hashes.len() && ours.root_hashes[j] == root;
                assert(ours.literals.contains_key(ours.root_hashes[j]));
            } else {
                let j = choose|j: int|
                    0 <= j < theirs.root_hashes.len() && theirs.root_hashes[j] == root;
                assert(theirs.literals.contains_key(theirs.root_hashes[j]));
            }
        }
    }
}

} // verus!
