//! The missing-dependency frontier of a context.
//!
//! Starting from one digest, the dependencies recorded in the literals at
//! hand are followed. A digest without a literal is missing; it is recorded
//! with the chain of digests that led to it, the nearest first. A digest
//! that is met again on the way that led to it closes a cycle: it is not
//! followed a second time but recorded like a missing one, so that a cycle
//! shows as a recorded digest that has a literal.

use crate::context::literal_views;
use crate::hashing;
use crate::literal::{Literal, LiteralView};
use crate::merge::contains_hash;
use std::collections::HashMap;
use vstd::prelude::*;

verus! {

broadcast use vstd::std_specs::hash::group_hash_axioms;

/// The dependencies at hand: for each digest that has a literal, the digests
/// that the literal names.
pub type Graph = Map<hashing::Hash, Seq<hashing::Hash>>;

/// What was found missing: for each such digest the chain that led to it.
pub type Chains = Map<hashing::Hash, Seq<hashing::Hash>>;

/// For each digest that has a literal, the digests it depends on.
pub open spec fn dependency_graph(literals: Map<hashing::Hash, LiteralView>) -> Graph {
    literals.map_values(|literal: LiteralView| literal.dependencies)
}

/// The recorded chains as plain values.
pub open spec fn chain_views(missing: Map<hashing::Hash, Vec<hashing::Hash>>) -> Chains {
    missing.map_values(|chain: Vec<hashing::Hash>| chain@)
}

/// How many digests with a literal are not on `chain`.
pub open spec fn off_chain(graph: Graph, chain: Seq<hashing::Hash>) -> nat {
    graph.dom().difference(chain.to_set()).len()
}

/// `missing` with `chain` recorded for `hash`, unless a chain that is no
/// longer is recorded for it already.
pub open spec fn recorded(
    missing: Chains,
    hash: hashing::Hash,
    chain: Seq<hashing::Hash>,
) -> Chains {
    if missing.contains_key(hash) && missing[hash].len() <= chain.len() {
        missing
    } else {
        missing.insert(hash, chain)
    }
}

/// Stepping onto a digest that has a literal and is not on the chain leaves
/// fewer digests off the chain.
pub proof fn lemma_off_chain_decreases(
    graph: Graph,
    hash: hashing::Hash,
    chain: Seq<hashing::Hash>,
)
    requires
        graph.dom().finite(),
        graph.contains_key(hash),
        !chain.contains(hash),
    ensures
        off_chain(graph, seq![hash] + chain) < off_chain(graph, chain),
{
    let before = graph.dom().difference(chain.to_set());
    let after = graph.dom().difference((seq![hash] + chain).to_set());
    assert(before.contains(hash));
    assert forall|other: hashing::Hash| after.contains(other) <==> before.remove(hash).contains(
        other,
    ) by {
        if other == hash {
            assert((seq![hash] + chain)[0] == hash);
        } else if chain.contains(other) {
            let i = choose|i: int| 0 <= i < chain.len() && chain[i] == other;
            assert((seq![hash] + chain)[i + 1] == other);
        } else if (seq![hash] + chain).contains(other) {
            let i = choose|i: int|
                0 <= i < (seq![hash] + chain).len() && (seq![hash] + chain)[i] == other;
            assert(chain[i - 1] == other);
        }
    }
    assert(after =~= before.remove(hash));
}

/// What is missing below `hash`, added to `missing`. `chain` holds the
/// digests that led here, the nearest first.
pub open spec fn missing_from(
    graph: Graph,
    hash: hashing::Hash,
    chain: Seq<hashing::Hash>,
    missing: Chains,
) -> Chains
    decreases off_chain(graph, chain), 0nat, 0nat,
    when graph.dom().finite()
{
    if graph.contains_key(hash) && !chain.contains(hash) {
        proof {
            lemma_off_chain_decreases(graph, hash, chain);
        }
        missing_among(graph, graph[hash], seq![hash] + chain, missing)
    } else {
        recorded(missing, hash, chain)
    }
}

/// What is missing below each of `dependencies` in turn, added to `missing`.
pub open spec fn missing_among(
    graph: Graph,
    dependencies: Seq<hashing::Hash>,
    chain: Seq<hashing::Hash>,
    missing: Chains,
) -> Chains
    decreases off_chain(graph, chain), 1nat, dependencies.len(),
    when graph.dom().finite()
{
    if dependencies.len() == 0 {
        missing
    } else {
        missing_from(
            graph,
            dependencies.last(),
            chain,
            missing_among(graph, dependencies.drop_last(), chain, missing),
        )
    }
}

/// Records `chain` for `hash`, unless a chain that is no longer is recorded
/// for it already.
pub fn record_missing(
    missing: &mut HashMap<hashing::Hash, Vec<hashing::Hash>>,
    hash: hashing::Hash,
    chain: &Vec<hashing::Hash>,
)
    ensures
        chain_views(final(missing)@) == recorded(chain_views(old(missing)@), hash, chain@),
{
    let keep = match missing.get(&hash) {
        Some(previous) => previous.len() <= chain.len(),
        None => false,
    };
    if !keep {
        missing.insert(hash, chain.clone());
    }
    assert(chain_views(missing@) =~= recorded(chain_views(old(missing)@), hash, chain@));
}

/// `chain` with `hash` put in front of it.
pub fn extended_chain(hash: hashing::Hash, chain: &Vec<hashing::Hash>) -> (longer: Vec<
    hashing::Hash,
>)
    ensures
        longer@ == seq![hash] + chain@,
{
    let mut longer: Vec<hashing::Hash> = Vec::new();
    longer.push(hash);
    let mut i: usize = 0;
    while i < chain.len()
        invariant
            i <= chain@.len(),
            longer@ == seq![hash] + chain@.take(i as int),
        decreases chain@.len() - i,
    {
        longer.push(chain[i]);
        assert(chain@.take(i + 1) == chain@.take(i as int).push(chain@[i as int]));
        i += 1;
    }
    assert(chain@.take(i as int) == chain@);
    longer
}

/// Adds to `missing` what is missing below `hash`, which was reached along
/// `chain`.
pub fn collect_missing(
    literals: &HashMap<hashing::Hash, Literal>,
    hash: hashing::Hash,
    chain: &Vec<hashing::Hash>,
    missing: &mut HashMap<hashing::Hash, Vec<hashing::Hash>>,
)
    ensures
        chain_views(final(missing)@) == missing_from(
            dependency_graph(literal_views(literals@)),
            hash,
            chain@,
            chain_views(old(missing)@),
        ),
    decreases off_chain(dependency_graph(literal_views(literals@)), chain@),
{
    let ghost graph = dependency_graph(literal_views(literals@));
    let ghost start = chain_views(missing@);
    assert(graph.dom() =~= literals@.dom());
    let on_chain = contains_hash(chain, hash);
    match literals.get(&hash) {
        Some(literal) if !on_chain => {
            let longer = extended_chain(hash, chain);
            proof {
                lemma_off_chain_decreases(graph, hash, chain@);
            }
            let dependencies = &literal.dependencies;
            assert(dependencies@ == graph[hash]);
            let mut i: usize = 0;
            assert(dependencies@.take(0).len() == 0);
            while i < dependencies.len()
                invariant
                    i <= dependencies@.len(),
                    graph == dependency_graph(literal_views(literals@)),
                    graph.dom().finite(),
                    off_chain(graph, longer@) < off_chain(graph, chain@),
                    chain_views(missing@) == missing_among(
                        graph,
                        dependencies@.take(i as int),
                        longer@,
                        start,
                    ),
                decreases dependencies@.len() - i,
            {
                assert(dependencies@.take(i + 1).drop_last() == dependencies@.take(i as int));
                collect_missing(literals, dependencies[i], &longer, missing);
                i += 1;
            }
            assert(dependencies@.take(i as int) == dependencies@);
        },
        _ => {
            record_missing(missing, hash, chain);
        },
    }
}

/// Whether `later` still records every digest of `earlier`, with a chain
/// that is no longer.
pub open spec fn refines(
    later: Chains,
    earlier: Chains,
) -> bool {
    forall|hash: hashing::Hash| #[trigger]
        earlier.contains_key(hash) ==> later.contains_key(hash) && later[hash].len()
            <= earlier[hash].len()
}

/// Whether every record of `later` either stood in `earlier` already, or is
/// of a digest without a literal, or of one that lies on its own chain.
pub open spec fn justified(
    graph: Graph,
    later: Chains,
    earlier: Chains,
) -> bool {
    forall|hash: hashing::Hash| #[trigger]
        later.contains_key(hash) ==> (earlier.contains_key(hash) && later[hash] == earlier[hash])
            || !graph.contains_key(hash) || later[hash].contains(hash)
}

/// Whether each digest of `path` but the last has a literal that names the
/// next digest as a dependency.
pub open spec fn is_path(graph: Graph, path: Seq<hashing::Hash>) -> bool {
    &&& path.len() > 0
    &&& forall|i: int|
        0 <= i < path.len() - 1 ==> graph.contains_key(#[trigger] path[i]) && graph[path[i]].contains(
            path[i + 1],
        )
}

/// The dependency graph of literals held in a hash map is finite.
pub proof fn lemma_graph_finite(literals: &HashMap<hashing::Hash, Literal>)
    ensures
        dependency_graph(literal_views(literals@)).dom().finite(),
{
    assert(dependency_graph(literal_views(literals@)).dom() =~= literals@.dom());
}

/// Looking below a digest loses no record and lengthens no chain, and what
/// it records is without a literal or closes a cycle.
pub proof fn lemma_missing_from_grows(
    graph: Graph,
    hash: hashing::Hash,
    chain: Seq<hashing::Hash>,
    missing: Chains,
)
    requires
        graph.dom().finite(),
    ensures
        refines(missing_from(graph, hash, chain, missing), missing),
        justified(graph, missing_from(graph, hash, chain, missing), missing),
    decreases off_chain(graph, chain), 0nat, 0nat,
{
    if graph.contains_key(hash) && !chain.contains(hash) {
        lemma_off_chain_decreases(graph, hash, chain);
        lemma_missing_among_grows(graph, graph[hash], seq![hash] + chain, missing);
    }
}

/// Looking below several digests in turn loses no record and lengthens no
/// chain, and what it records is without a literal or closes a cycle.
pub proof fn lemma_missing_among_grows(
    graph: Graph,
    dependencies: Seq<hashing::Hash>,
    chain: Seq<hashing::Hash>,
    missing: Chains,
)
    requires
        graph.dom().finite(),
    ensures
        refines(missing_among(graph, dependencies, chain, missing), missing),
        justified(graph, missing_among(graph, dependencies, chain, missing), missing),
    decreases off_chain(graph, chain), 1nat, dependencies.len(),
{
    if dependencies.len() > 0 {
        let so_far = missing_among(graph, dependencies.drop_last(), chain, missing);
        lemma_missing_among_grows(graph, dependencies.drop_last(), chain, missing);
        lemma_missing_from_grows(graph, dependencies.last(), chain, so_far);
        let found = missing_from(graph, dependencies.last(), chain, so_far);
        assert forall|hash: hashing::Hash| #[trigger] missing.contains_key(hash) implies found.contains_key(
            hash,
        ) && found[hash].len() <= missing[hash].len() by {
            assert(so_far.contains_key(hash));
        }
        assert forall|hash: hashing::Hash| #[trigger] found.contains_key(hash) implies (
        missing.contains_key(hash) && found[hash] == missing[hash]) || !graph.contains_key(hash)
            || found[hash].contains(hash) by {
            if so_far.contains_key(hash) && found[hash] == so_far[hash] {
                assert(so_far.contains_key(hash));
            }
        }
    }
}

/// A digest without a literal that a path of dependencies leads to is
/// recorded, and with a chain no longer than that path and the chain that
/// led to its start. The path is one that the search can walk: it passes no
/// digest twice and none of those that led to its start.
pub proof fn lemma_shortest_chain(
    graph: Graph,
    path: Seq<hashing::Hash>,
    chain: Seq<hashing::Hash>,
    missing: Chains,
)
    requires
        graph.dom().finite(),
        is_path(graph, path),
        path.no_duplicates(),
        forall|i: int| 0 <= i < path.len() ==> !chain.contains(#[trigger] path[i]),
        !graph.contains_key(path.last()),
    ensures
        missing_from(graph, path[0], chain, missing).contains_key(path.last()),
        missing_from(graph, path[0], chain, missing)[path.last()].len() <= chain.len() + path.len()
            - 1,
    decreases path.len(), 0nat, 0nat,
{
    if path.len() > 1 {
        let start = path[0];
        let rest = path.drop_first();
        let longer = seq![start] + chain;
        assert(graph.contains_key(start) && graph[start].contains(path[1]));
        assert(rest[0] == path[1]);
        assert(rest.last() == path.last());
        assert forall|i: int| 0 <= i < rest.len() - 1 implies graph.contains_key(
            #[trigger] rest[i],
        ) && graph[rest[i]].contains(rest[i + 1]) by {
            assert(rest[i] == path[i + 1]);
            assert(rest[i + 1] == path[i + 2]);
        }
        assert forall|i: int| 0 <= i < rest.len() implies !longer.contains(#[trigger] rest[i]) by {
            assert(rest[i] == path[i + 1]);
            if longer.contains(rest[i]) {
                let j = choose|j: int| 0 <= j < longer.len() && longer[j] == rest[i];
                if j > 0 {
                    assert(chain[j - 1] == rest[i]);
                }
            }
        }
        assert(!chain.contains(path[0]));
        let index = choose|index: int|
            0 <= index < graph[start].len() && graph[start][index] == path[1];
        lemma_reached_among(graph, rest, graph[start], index, longer, missing);
    }
}

/// What holds below one dependency holds below all of them: the records
/// made after it was looked at can only shorten its chains.
proof fn lemma_reached_among(
    graph: Graph,
    path: Seq<hashing::Hash>,
    dependencies: Seq<hashing::Hash>,
    index: int,
    chain: Seq<hashing::Hash>,
    missing: Chains,
)
    requires
        graph.dom().finite(),
        is_path(graph, path),
        path.no_duplicates(),
        forall|i: int| 0 <= i < path.len() ==> !chain.contains(#[trigger] path[i]),
        !graph.contains_key(path.last()),
        0 <= index < dependencies.len(),
        dependencies[index] == path[0],
    ensures
        missing_among(graph, dependencies, chain, missing).contains_key(path.last()),
        missing_among(graph, dependencies, chain, missing)[path.last()].len() <= chain.len()
            + path.len() - 1,
    decreases path.len(), 1nat, dependencies.len(),
{
    let so_far = missing_among(graph, dependencies.drop_last(), chain, missing);
    if index == dependencies.len() - 1 {
        lemma_shortest_chain(graph, path, chain, so_far);
    } else {
        lemma_reached_among(graph, path, dependencies.drop_last(), index, chain, missing);
        lemma_missing_from_grows(graph, dependencies.last(), chain, so_far);
        assert(so_far.contains_key(path.last()));
    }
}

/// Whether `path` shows how `recorded` came about: it leads from `start` to
/// `target`, and `recorded` holds its digests but the last, the nearest to
/// `target` first, in front of `chain`.
pub open spec fn shows(
    graph: Graph,
    path: Seq<hashing::Hash>,
    start: hashing::Hash,
    target: hashing::Hash,
    chain: Seq<hashing::Hash>,
    recorded: Seq<hashing::Hash>,
) -> bool {
    &&& is_path(graph, path)
    &&& path[0] == start
    &&& path.last() == target
    &&& recorded == path.drop_last().reverse() + chain
}

/// Whether every record of `later` either stood in `earlier` already or is
/// shown by a path of dependencies that begins at `start`.
pub open spec fn reached_from(
    graph: Graph,
    start: hashing::Hash,
    chain: Seq<hashing::Hash>,
    later: Chains,
    earlier: Chains,
) -> bool {
    forall|hash: hashing::Hash| #[trigger]
        later.contains_key(hash) ==> (earlier.contains_key(hash) && later[hash] == earlier[hash])
            || exists|path: Seq<hashing::Hash>|
            shows(graph, path, start, hash, chain, later[hash])
}

/// Whether every record of `later` either stood in `earlier` already or is
/// shown by a path of dependencies that begins at one of `starts`.
pub open spec fn reached_from_any(
    graph: Graph,
    starts: Seq<hashing::Hash>,
    chain: Seq<hashing::Hash>,
    later: Chains,
    earlier: Chains,
) -> bool {
    forall|hash: hashing::Hash| #[trigger]
        later.contains_key(hash) ==> (earlier.contains_key(hash) && later[hash] == earlier[hash])
            || exists|i: int, path: Seq<hashing::Hash>|
            0 <= i < starts.len() && #[trigger] shows(
                graph,
                path,
                starts[i],
                hash,
                chain,
                later[hash],
            )
}

/// What is recorded below a digest is reached from it: each new chain is a
/// path of dependencies from that digest to the recorded one, read
/// backwards, in front of the chain that led to the start.
pub proof fn lemma_missing_from_reached(
    graph: Graph,
    hash: hashing::Hash,
    chain: Seq<hashing::Hash>,
    missing: Chains,
)
    requires
        graph.dom().finite(),
    ensures
        reached_from(graph, hash, chain, missing_from(graph, hash, chain, missing), missing),
    decreases off_chain(graph, chain), 0nat, 0nat,
{
    let found = missing_from(graph, hash, chain, missing);
    if graph.contains_key(hash) && !chain.contains(hash) {
        let longer = seq![hash] + chain;
        lemma_off_chain_decreases(graph, hash, chain);
        lemma_missing_among_reached(graph, graph[hash], longer, missing);
        assert forall|target: hashing::Hash| #[trigger] found.contains_key(target) implies (
        missing.contains_key(target) && found[target] == missing[target]) || exists|
            path: Seq<hashing::Hash>,
        |
            shows(graph, path, hash, target, chain, found[target]) by {
            if !(missing.contains_key(target) && found[target] == missing[target]) {
                let (i, below) = choose|i: int, below: Seq<hashing::Hash>|
                    0 <= i < graph[hash].len() && #[trigger] shows(
                        graph,
                        below,
                        graph[hash][i],
                        target,
                        longer,
                        found[target],
                    );
                let path = seq![hash] + below;
                assert forall|k: int| 0 <= k < path.len() - 1 implies graph.contains_key(
                    #[trigger] path[k],
                ) && graph[path[k]].contains(path[k + 1]) by {
                    if k > 0 {
                        assert(path[k] == below[k - 1]);
                        assert(path[k + 1] == below[k]);
                    } else {
                        assert(path[1] == below[0]);
                    }
                }
                assert(path.drop_last() =~= seq![hash] + below.drop_last());
                assert(path.drop_last().reverse() =~= below.drop_last().reverse() + seq![hash]);
                assert(path.drop_last().reverse() + chain =~= below.drop_last().reverse()
                    + longer);
                assert(shows(graph, path, hash, target, chain, found[target]));
            }
        }
    } else {
        assert forall|target: hashing::Hash| #[trigger] found.contains_key(target) implies (
        missing.contains_key(target) && found[target] == missing[target]) || exists|
            path: Seq<hashing::Hash>,
        |
            shows(graph, path, hash, target, chain, found[target]) by {
            if !(missing.contains_key(target) && found[target] == missing[target]) {
                let path = seq![hash];
                assert(path.drop_last().reverse() + chain =~= chain);
                assert(shows(graph, path, hash, target, chain, found[target]));
            }
        }
    }
}

/// What is recorded below several digests is reached from one of them.
pub proof fn lemma_missing_among_reached(
    graph: Graph,
    dependencies: Seq<hashing::Hash>,
    chain: Seq<hashing::Hash>,
    missing: Chains,
)
    requires
        graph.dom().finite(),
    ensures
        reached_from_any(
            graph,
            dependencies,
            chain,
            missing_among(graph, dependencies, chain, missing),
            missing,
        ),
    decreases off_chain(graph, chain), 1nat, dependencies.len(),
{
    let found = missing_among(graph, dependencies, chain, missing);
    if dependencies.len() > 0 {
        let earlier = dependencies.drop_last();
        let so_far = missing_among(graph, earlier, chain, missing);
        lemma_missing_among_reached(graph, earlier, chain, missing);
        lemma_missing_from_reached(graph, dependencies.last(), chain, so_far);
        assert forall|target: hashing::Hash| #[trigger] found.contains_key(target) implies (
        missing.contains_key(target) && found[target] == missing[target]) || exists|
            i: int,
            path: Seq<hashing::Hash>,
        |
            0 <= i < dependencies.len() && #[trigger] shows(
                graph,
                path,
                dependencies[i],
                target,
                chain,
                found[target],
            ) by {
            if so_far.contains_key(target) && found[target] == so_far[target] {
                if !(missing.contains_key(target) && so_far[target] == missing[target]) {
                    let (i, path) = choose|i: int, path: Seq<hashing::Hash>|
                        0 <= i < earlier.len() && #[trigger] shows(
                            graph,
                            path,
                            earlier[i],
                            target,
                            chain,
                            so_far[target],
                        );
                    assert(dependencies[i] == earlier[i]);
                    assert(shows(graph, path, dependencies[i], target, chain, found[target]));
                }
            } else {
                let path = choose|path: Seq<hashing::Hash>|
                    shows(graph, path, dependencies.last(), target, chain, found[target]);
                let last = dependencies.len() - 1;
                assert(shows(graph, path, dependencies[last], target, chain, found[target]));
            }
        }
    }
}

/// Of a path that passes a digest twice, the way round can be left out:
/// there is a path from the same start to the same end that is no longer
/// and passes no digest twice.
pub proof fn lemma_simple_path(
    graph: Graph,
    path: Seq<hashing::Hash>,
) -> (simple: Seq<hashing::Hash>)
    requires
        is_path(graph, path),
    ensures
        is_path(graph, simple),
        simple.no_duplicates(),
        simple.len() <= path.len(),
        simple[0] == path[0],
        simple.last() == path.last(),
    decreases path.len(),
{
    if path.no_duplicates() {
        path
    } else {
        let (i, j) = choose|i: int, j: int|
            0 <= i < path.len() && 0 <= j < path.len() && i != j && path[i] == path[j];
        let (first, second) = if i < j {
            (i, j)
        } else {
            (j, i)
        };
        let shorter = path.take(first) + path.skip(second);
        assert(shorter.len() == path.len() - (second - first));
        assert forall|k: int| 0 <= k < shorter.len() - 1 implies graph.contains_key(
            #[trigger] shorter[k],
        ) && graph[shorter[k]].contains(shorter[k + 1]) by {
            if k < first - 1 {
                assert(shorter[k] == path[k] && shorter[k + 1] == path[k + 1]);
            } else if k == first - 1 {
                assert(shorter[k] == path[k]);
                assert(shorter[k + 1] == path[second]);
                assert(path[k + 1] == path[first]);
            } else {
                assert(shorter[k] == path[k - first + second]);
                assert(shorter[k + 1] == path[k - first + second + 1]);
            }
        }
        assert(shorter[0] == path[0]) by {
            if first == 0 {
                assert(shorter[0] == path[second]);
            }
        }
        assert(shorter.last() == path.last());
        lemma_simple_path(graph, shorter)
    }
}

/// Starting without a chain, a digest without a literal is recorded with a
/// chain that is no longer than any path of dependencies that leads to it
/// from the start.
pub proof fn lemma_chain_within_any_path(
    graph: Graph,
    path: Seq<hashing::Hash>,
    missing: Chains,
)
    requires
        graph.dom().finite(),
        is_path(graph, path),
        !graph.contains_key(path.last()),
    ensures
        missing_from(graph, path[0], Seq::empty(), missing).contains_key(path.last()),
        missing_from(graph, path[0], Seq::empty(), missing)[path.last()].len() <= path.len() - 1,
{
    let simple = lemma_simple_path(graph, path);
    lemma_shortest_chain(graph, simple, Seq::empty(), missing);
}

} // verus!
