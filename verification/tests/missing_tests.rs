use hashed_objects::context::Context;
use hashed_objects::literal::Literal;
use hashed_objects::missing::{collect_missing, extended_chain, record_missing};
use std::collections::HashMap;

fn claimed(hash: u64, dependencies: Vec<u64>) -> Literal {
    Literal { hash, dependencies, payload: Vec::new(), type_tag: "node".to_string() }
}

fn graph(edges: &[(u64, &[u64])]) -> Context {
    let mut context = Context::new();
    for (hash, dependencies) in edges {
        context.literals.insert(*hash, claimed(*hash, dependencies.to_vec()));
    }
    context
}

fn entries(found: &HashMap<u64, Vec<u64>>) -> Vec<(u64, Vec<u64>)> {
    let mut entries: Vec<(u64, Vec<u64>)> =
        found.iter().map(|(hash, chain)| (*hash, chain.clone())).collect();
    entries.sort();
    entries
}

#[test]
fn missing_leaf_is_recorded_with_its_ancestors_nearest_first() {
    let l3 = Literal::new("node".to_string(), vec![3], Vec::new());
    let l2 = Literal::new("node".to_string(), vec![2], vec![l3.hash]);
    let l1 = Literal::new("node".to_string(), vec![1], vec![l2.hash]);
    let (h1, h2, h3) = (l1.hash, l2.hash, l3.hash);
    let mut context = Context::new();
    context.literals.insert(h1, l1);
    context.literals.insert(h2, l2);
    let found = context.find_missing_deps(&h1, None, None);
    assert_eq!(entries(&found), vec![(h3, vec![h2, h1])]);
}

#[test]
fn root_with_one_dependency_missing() {
    let x = Literal::new("node".to_string(), vec![1], Vec::new());
    let y = Literal::new("node".to_string(), vec![2], Vec::new());
    let r = Literal::new("root".to_string(), Vec::new(), vec![x.hash, y.hash]);
    let (rh, xh, yh) = (r.hash, x.hash, y.hash);
    let mut context = Context::new();
    context.root_hashes.push(rh);
    context.literals.insert(rh, r);
    context.literals.insert(xh, x);
    assert!(context.check_root_hashes());
    let found = context.find_missing_deps(&rh, None, None);
    assert_eq!(entries(&found), vec![(yh, vec![rh])]);
}

#[test]
fn missing_start_is_recorded_with_an_empty_chain() {
    let context = Context::new();
    let found = context.find_missing_deps(&7, None, None);
    assert_eq!(entries(&found), vec![(7, Vec::new())]);
}

#[test]
fn complete_graph_has_nothing_missing() {
    let context = graph(&[(1, &[2, 3]), (2, &[3]), (3, &[])]);
    let found = context.find_missing_deps(&1, None, None);
    assert!(found.is_empty());
}

#[test]
fn shortest_chain_wins_when_the_longer_is_found_first() {
    let context = graph(&[(1, &[2, 9]), (2, &[3]), (3, &[9])]);
    let found = context.find_missing_deps(&1, None, None);
    assert_eq!(entries(&found), vec![(9, vec![1])]);
}

#[test]
fn shortest_chain_stays_when_the_longer_is_found_later() {
    let context = graph(&[(1, &[9, 2]), (2, &[3]), (3, &[9])]);
    let found = context.find_missing_deps(&1, None, None);
    assert_eq!(entries(&found), vec![(9, vec![1])]);
}

#[test]
fn of_two_chains_of_one_length_the_first_stays() {
    let context = graph(&[(1, &[2, 3]), (2, &[9]), (3, &[9])]);
    let found = context.find_missing_deps(&1, None, None);
    assert_eq!(entries(&found), vec![(9, vec![2, 1])]);
}

#[test]
fn several_missing_digests_are_all_recorded() {
    let context = graph(&[(1, &[2, 8]), (2, &[9, 7])]);
    let found = context.find_missing_deps(&1, None, None);
    assert_eq!(entries(&found), vec![(7, vec![2, 1]), (8, vec![1]), (9, vec![2, 1])]);
}

#[test]
fn cycle_ends_and_is_recorded() {
    let context = graph(&[(1, &[2]), (2, &[3]), (3, &[1, 9])]);
    let found = context.find_missing_deps(&1, None, None);
    assert_eq!(entries(&found), vec![(1, vec![3, 2, 1]), (9, vec![3, 2, 1])]);
    assert!(context.literals.contains_key(&1));
}

#[test]
fn self_reference_ends_and_is_recorded() {
    let context = graph(&[(1, &[1])]);
    let found = context.find_missing_deps(&1, None, None);
    assert_eq!(entries(&found), vec![(1, vec![1])]);
}

#[test]
fn given_chain_is_kept_behind_the_new_ancestors() {
    let context = graph(&[(1, &[9])]);
    let found = context.find_missing_deps(&1, Some(vec![50, 60]), None);
    assert_eq!(entries(&found), vec![(9, vec![1, 50, 60])]);
}

#[test]
fn start_on_the_given_chain_is_not_followed() {
    let context = graph(&[(1, &[9])]);
    let found = context.find_missing_deps(&1, Some(vec![1]), None);
    assert_eq!(entries(&found), vec![(1, vec![1])]);
}

#[test]
fn given_records_stay_unless_a_shorter_chain_is_found() {
    let context = graph(&[(1, &[8, 9])]);
    let mut before = HashMap::new();
    before.insert(8u64, Vec::new());
    before.insert(9u64, vec![4u64, 5, 6]);
    before.insert(7u64, vec![3u64]);
    let found = context.find_missing_deps(&1, None, Some(before));
    assert_eq!(entries(&found), vec![(7, vec![3]), (8, Vec::new()), (9, vec![1])]);
}

#[test]
fn record_of_equal_length_is_not_replaced() {
    let mut missing = HashMap::new();
    record_missing(&mut missing, 9, &vec![1, 2]);
    record_missing(&mut missing, 9, &vec![3, 4]);
    assert_eq!(missing[&9], vec![1u64, 2]);
    record_missing(&mut missing, 9, &vec![5]);
    assert_eq!(missing[&9], vec![5u64]);
    record_missing(&mut missing, 9, &vec![6, 7, 8]);
    assert_eq!(missing[&9], vec![5u64]);
}

#[test]
fn extended_chain_puts_the_digest_in_front() {
    assert_eq!(extended_chain(3, &vec![2, 1]), vec![3u64, 2, 1]);
    assert_eq!(extended_chain(3, &Vec::new()), vec![3u64]);
}

#[test]
fn collect_missing_adds_to_what_is_there() {
    let context = graph(&[(1, &[2]), (2, &[9])]);
    let mut missing = HashMap::new();
    collect_missing(&context.literals, 1, &Vec::new(), &mut missing);
    collect_missing(&context.literals, 5, &Vec::new(), &mut missing);
    assert_eq!(entries(&missing), vec![(5, Vec::new()), (9, vec![2, 1])]);
}

#[test]
fn records_cycle_tells_a_cycle_from_a_gap() {
    let cyclic = graph(&[(1, &[2]), (2, &[1, 9])]);
    let found = cyclic.find_missing_deps(&1, None, None);
    assert_eq!(entries(&found), vec![(1, vec![2, 1]), (9, vec![2, 1])]);
    assert!(cyclic.records_cycle(&found));
    let open = graph(&[(1, &[2]), (2, &[9])]);
    let found = open.find_missing_deps(&1, None, None);
    assert!(!open.records_cycle(&found));
    assert!(!open.records_cycle(&HashMap::new()));
}
