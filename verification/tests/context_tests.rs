use hashed_objects::context::{Context, LiteralContext, Resources};
use hashed_objects::hashed_object::{HashedObject, ObjectState};
use hashed_objects::literal::Literal;
use hashed_objects::merge::merge_roots;
use std::collections::HashMap;

fn leaf(payload: u8) -> Literal {
    Literal::new("node".to_string(), vec![payload], Vec::new())
}

fn node(payload: u8, dependencies: Vec<u64>) -> Literal {
    Literal::new("node".to_string(), vec![payload], dependencies)
}

fn claimed(hash: u64, dependencies: Vec<u64>) -> Literal {
    Literal { hash, dependencies, payload: Vec::new(), type_tag: "node".to_string() }
}

fn with_literals(roots: Vec<u64>, literals: Vec<Literal>) -> Context {
    let mut context = Context::new();
    context.root_hashes = roots;
    for literal in literals {
        context.literals.insert(literal.hash, literal);
    }
    context
}

fn aliases(pairs: &[(u64, u64)]) -> Option<Resources> {
    let mut table = HashMap::new();
    for (from, to) in pairs {
        table.insert(*from, *to);
    }
    Some(Resources { aliasing: Some(table) })
}

fn sorted(mut hashes: Vec<u64>) -> Vec<u64> {
    hashes.sort();
    hashes
}

fn literal_keys(context: &Context) -> Vec<u64> {
    sorted(context.literals.keys().copied().collect())
}

fn alias_pairs(context: &Context) -> Vec<(u64, u64)> {
    let mut pairs: Vec<(u64, u64)> = match &context.resources {
        Some(Resources { aliasing: Some(table) }) => table.iter().map(|(k, v)| (*k, *v)).collect(),
        _ => Vec::new(),
    };
    pairs.sort();
    pairs
}

#[test]
fn new_context_is_empty() {
    let context = Context::new();
    assert!(context.root_hashes.is_empty());
    assert!(context.literals.is_empty());
    assert!(context.objects.is_empty());
    assert!(context.resources.is_none());
    assert!(!context.has(&1));
    assert!(context.check_literal_hashes());
    assert!(context.check_root_hashes());
}

#[test]
fn has_finds_literals_objects_and_aliases() {
    let literal = leaf(1);
    let literal_hash = literal.hash;
    let mut context = with_literals(Vec::new(), vec![literal]);
    let mut object = ObjectState::new("node".to_string(), vec![2], Vec::new(), false);
    let object_hash = object.hash(None);
    context.objects.insert(object_hash, object);
    context.resources = aliases(&[(77, 78)]);
    assert!(context.has(&literal_hash));
    assert!(context.has(&object_hash));
    assert!(context.has(&77));
    assert!(!context.has(&78));
    assert!(!context.has(&5));
}

#[test]
fn has_does_not_follow_aliases() {
    let mut context = Context::new();
    context.resources = aliases(&[(1, 2), (2, 3)]);
    assert!(context.has(&1));
    assert!(context.has(&2));
    assert!(!context.has(&3));
}

#[test]
fn has_without_alias_table() {
    let mut context = Context::new();
    context.resources = Some(Resources { aliasing: None });
    assert!(!context.has(&1));
}

#[test]
fn literal_context_round_trip_keeps_roots_and_literals() {
    let a = leaf(1);
    let b = node(2, vec![a.hash]);
    let (a_hash, b_hash) = (a.hash, b.hash);
    let mut source = with_literals(vec![b_hash, a_hash, b_hash], vec![a, b]);
    let mut object = ObjectState::new("node".to_string(), vec![1], Vec::new(), false);
    let object_hash = object.hash(None);
    source.objects.insert(object_hash, object);

    let portable: LiteralContext = source.to_literal_context();
    let mut target = Context::new();
    target.objects.insert(9, ObjectState::new("old".to_string(), Vec::new(), Vec::new(), false));
    target.resources = aliases(&[(1, 2)]);
    target.from_literal_context(portable);

    assert_eq!(target.root_hashes, vec![b_hash, a_hash, b_hash]);
    assert_eq!(literal_keys(&target), literal_keys(&source));
    for (hash, literal) in &source.literals {
        let copy = &target.literals[hash];
        assert_eq!(copy.hash, literal.hash);
        assert_eq!(copy.payload, literal.payload);
        assert_eq!(copy.dependencies, literal.dependencies);
        assert_eq!(copy.type_tag, literal.type_tag);
    }
    assert!(target.objects.is_empty());
    assert_eq!(alias_pairs(&target), vec![(1, 2)]);
    assert_eq!(source.objects.len(), 1);
}

#[test]
fn merge_keeps_own_roots_first_and_adds_new_ones_once() {
    let mut ours = Context::new();
    ours.root_hashes = vec![5, 1, 5];
    let mut theirs = Context::new();
    theirs.root_hashes = vec![9, 1, 9, 2];
    ours.merge(&theirs);
    assert_eq!(ours.root_hashes, vec![5, 1, 9, 2]);
}

#[test]
fn merge_with_an_empty_context_drops_repeated_roots() {
    let mut ours = Context::new();
    ours.root_hashes = vec![7, 7];
    ours.merge(&Context::new());
    assert_eq!(ours.root_hashes, vec![7]);
    let mut other = Context::new();
    other.merge(&ours);
    assert_eq!(other.root_hashes, vec![7]);
}

#[test]
fn merge_leaves_no_root_twice_either_way() {
    let build_left = || {
        let mut left = Context::new();
        left.root_hashes = vec![3, 3, 1, 3];
        left
    };
    let build_right = || {
        let mut right = Context::new();
        right.root_hashes = vec![2, 1, 2, 2];
        right
    };
    let mut left_first = build_left();
    left_first.merge(&build_right());
    let mut right_first = build_right();
    right_first.merge(&build_left());
    assert_eq!(left_first.root_hashes, vec![3, 1, 2]);
    assert_eq!(right_first.root_hashes, vec![2, 1, 3]);
    assert_eq!(sorted(left_first.root_hashes.clone()), vec![1, 2, 3]);
    assert_eq!(sorted(right_first.root_hashes.clone()), vec![1, 2, 3]);
}

#[test]
fn merge_roots_follows_the_same_rule() {
    let mut ours = vec![3u64, 4, 3];
    merge_roots(&mut ours, &vec![4u64, 7, 3, 7, 8]);
    assert_eq!(ours, vec![3u64, 4, 7, 8]);
}

#[test]
fn merge_takes_missing_literals_and_keeps_own() {
    let mut ours = with_literals(Vec::new(), vec![claimed(1, vec![10]), claimed(2, vec![20])]);
    let theirs = with_literals(Vec::new(), vec![claimed(2, vec![99]), claimed(3, vec![30])]);
    ours.merge(&theirs);
    assert_eq!(literal_keys(&ours), vec![1, 2, 3]);
    assert_eq!(ours.literals[&1].dependencies, vec![10u64]);
    assert_eq!(ours.literals[&2].dependencies, vec![20u64]);
    assert_eq!(ours.literals[&3].dependencies, vec![30u64]);
    assert_eq!(theirs.literals[&2].dependencies, vec![99u64]);
}

#[test]
fn merge_takes_missing_objects_and_keeps_own() {
    let mut ours = Context::new();
    ours.objects.insert(1, ObjectState::new("mine".to_string(), Vec::new(), Vec::new(), false));
    let mut theirs = Context::new();
    theirs.objects.insert(1, ObjectState::new("theirs".to_string(), Vec::new(), Vec::new(), false));
    theirs.objects.insert(2, ObjectState::new("new".to_string(), vec![4], vec![6], false));
    ours.merge(&theirs);
    assert_eq!(ours.objects.len(), 2);
    assert_eq!(ours.objects[&1].get_class_name(), "mine");
    assert_eq!(ours.objects[&2].get_class_name(), "new");
}

#[test]
fn merge_takes_over_resources_when_it_has_none() {
    let mut ours = Context::new();
    let mut theirs = Context::new();
    theirs.resources = aliases(&[(1, 2)]);
    ours.merge(&theirs);
    assert_eq!(alias_pairs(&ours), vec![(1, 2)]);
}

#[test]
fn merge_extends_alias_table_first_wins() {
    let mut ours = Context::new();
    ours.resources = aliases(&[(1, 2), (3, 4)]);
    let mut theirs = Context::new();
    theirs.resources = aliases(&[(3, 9), (5, 6)]);
    ours.merge(&theirs);
    assert_eq!(alias_pairs(&ours), vec![(1, 2), (3, 4), (5, 6)]);
}

#[test]
fn merge_creates_alias_table_where_own_resources_have_none() {
    let mut ours = Context::new();
    ours.resources = Some(Resources { aliasing: None });
    let mut theirs = Context::new();
    theirs.resources = aliases(&[(5, 6)]);
    ours.merge(&theirs);
    assert_eq!(alias_pairs(&ours), vec![(5, 6)]);
}

#[test]
fn merge_keeps_own_resources_when_other_has_no_table() {
    let mut ours = Context::new();
    ours.resources = Some(Resources { aliasing: None });
    let mut theirs = Context::new();
    theirs.resources = None;
    ours.merge(&theirs);
    assert!(matches!(ours.resources, Some(Resources { aliasing: None })));
    let mut third = Context::new();
    third.resources = Some(Resources { aliasing: None });
    ours.merge(&third);
    assert!(matches!(ours.resources, Some(Resources { aliasing: None })));
}

#[test]
fn merge_with_itself_changes_nothing() {
    let a = leaf(1);
    let b = node(2, vec![a.hash]);
    let mut context = with_literals(vec![b.hash, a.hash], vec![a, b]);
    context.resources = aliases(&[(1, 2)]);
    let same = context.copy();
    let roots = context.root_hashes.clone();
    let keys = literal_keys(&context);
    context.merge(&same);
    context.merge(&same);
    assert_eq!(context.root_hashes, roots);
    assert_eq!(literal_keys(&context), keys);
    assert_eq!(alias_pairs(&context), vec![(1, 2)]);
}

#[test]
fn merge_commutes_on_compatible_contexts() {
    let a = leaf(1);
    let b = leaf(2);
    let c = node(3, vec![a.hash, b.hash]);
    let build_left = || {
        let mut left = with_literals(vec![c.hash, a.hash], vec![a.clone(), c.clone()]);
        left.resources = aliases(&[(1, 2)]);
        left
    };
    let build_right = || {
        let mut right = with_literals(vec![b.hash, c.hash], vec![b.clone(), c.clone()]);
        right.resources = aliases(&[(1, 2), (3, 4)]);
        right
    };
    let mut left_first = build_left();
    left_first.merge(&build_right());
    let mut right_first = build_right();
    right_first.merge(&build_left());
    assert_eq!(literal_keys(&left_first), literal_keys(&right_first));
    assert_eq!(sorted(left_first.root_hashes.clone()), sorted(right_first.root_hashes.clone()));
    assert_eq!(alias_pairs(&left_first), alias_pairs(&right_first));
    assert_eq!(left_first.root_hashes, vec![c.hash, a.hash, b.hash]);
    assert_eq!(right_first.root_hashes, vec![b.hash, c.hash, a.hash]);
}

#[test]
fn merge_is_associative() {
    let build = |roots: Vec<u64>, keys: Vec<u64>, pairs: &[(u64, u64)]| {
        let literals = keys.iter().map(|key| claimed(*key, vec![roots[0]])).collect();
        let mut context = with_literals(roots, literals);
        context.resources = aliases(pairs);
        context
    };
    let first = || build(vec![1, 2], vec![10, 11], &[(1, 1)]);
    let second = || build(vec![2, 3, 3], vec![11, 12], &[(1, 2), (2, 2)]);
    let third = || build(vec![4, 1, 3], vec![12, 13], &[(2, 3), (3, 3)]);

    let mut left = first();
    left.merge(&second());
    left.merge(&third());

    let mut inner = second();
    inner.merge(&third());
    let mut right = first();
    right.merge(&inner);

    assert_eq!(left.root_hashes, vec![1, 2, 3, 4]);
    assert_eq!(left.root_hashes, right.root_hashes);
    assert_eq!(literal_keys(&left), literal_keys(&right));
    for key in literal_keys(&left) {
        assert_eq!(left.literals[&key].dependencies, right.literals[&key].dependencies);
    }
    assert_eq!(left.literals[&11].dependencies, vec![1u64]);
    assert_eq!(left.literals[&12].dependencies, vec![2u64]);
    assert_eq!(alias_pairs(&left), vec![(1, 1), (2, 2), (3, 3)]);
    assert_eq!(alias_pairs(&left), alias_pairs(&right));
}

#[test]
fn copy_is_independent_of_its_source() {
    let a = leaf(1);
    let a_hash = a.hash;
    let mut source = with_literals(vec![a_hash], vec![a]);
    source.resources = aliases(&[(1, 2)]);
    source.objects.insert(4, ObjectState::new("o".to_string(), Vec::new(), Vec::new(), false));
    let mut copy = source.copy();
    assert_eq!(copy.root_hashes, vec![a_hash]);
    assert_eq!(literal_keys(&copy), vec![a_hash]);
    assert_eq!(copy.objects.len(), 1);
    assert_eq!(alias_pairs(&copy), vec![(1, 2)]);

    copy.root_hashes.push(99);
    copy.literals.clear();
    copy.objects.clear();
    copy.resources = None;
    assert_eq!(source.root_hashes, vec![a_hash]);
    assert_eq!(literal_keys(&source), vec![a_hash]);
    assert_eq!(source.objects.len(), 1);
    assert_eq!(alias_pairs(&source), vec![(1, 2)]);
}

#[test]
fn copy_lists_each_root_once() {
    let mut source = Context::new();
    source.root_hashes = vec![3, 1, 3, 1, 2];
    assert_eq!(source.copy().root_hashes, vec![3, 1, 2]);
}

#[test]
fn check_literal_hashes_accepts_content_addressed_literals() {
    let a = leaf(1);
    let b = node(2, vec![a.hash]);
    let context = with_literals(Vec::new(), vec![a, b]);
    assert!(context.check_literal_hashes());
}

#[test]
fn check_literal_hashes_rejects_a_wrong_key() {
    let a = leaf(1);
    let mut context = Context::new();
    context.literals.insert(a.hash.wrapping_add(1), a);
    assert!(!context.check_literal_hashes());
}

#[test]
fn check_literal_hashes_rejects_tampered_content() {
    let mut a = leaf(1);
    a.payload = vec![2];
    let context = with_literals(Vec::new(), vec![leaf(5), a]);
    assert!(!context.check_literal_hashes());
}

#[test]
fn check_root_hashes_wants_every_root_present() {
    let a = leaf(1);
    let a_hash = a.hash;
    let mut context = with_literals(vec![a_hash], vec![a]);
    assert!(context.check_root_hashes());
    context.root_hashes.push(12345);
    assert!(!context.check_root_hashes());
}

#[test]
fn check_root_hashes_ignores_objects_and_aliases() {
    let mut context = Context::new();
    context.root_hashes = vec![4];
    context.objects.insert(4, ObjectState::new("o".to_string(), Vec::new(), Vec::new(), false));
    context.resources = aliases(&[(4, 5)]);
    assert!(!context.check_root_hashes());
}
