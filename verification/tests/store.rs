use deptree::dependency_tree::{DependencyIterator, DependencyTree};

fn sample() -> DependencyTree {
    DependencyTree::parse("0 a v1\n1 b v1\n2 d v1\n1 c v1\n1 d v1")
}

#[test]
fn lookup_finds_nodes_by_identity() {
    let tree = sample();
    assert_eq!(tree.get("a 1").unwrap().name(), "a 1");
    assert_eq!(tree.get("d 1").unwrap().children_count(), 0);
    assert!(tree.get("a").is_none());
    assert!(tree.get("a v1").is_none());
    assert!(tree.get("").is_none());
}

#[test]
fn root_is_the_first_line() {
    let tree = sample();
    let root = tree.root();
    assert_eq!(root.name(), "a 1");
    assert_eq!(root.children_count(), 3);
    assert_eq!(root.child(0).name(), "b 1");
    assert_eq!(root.child(2).name(), "d 1");
}

#[test]
fn iterator_reports_position_and_count() {
    let tree = sample();
    let mut it = tree.root().into_iter();
    assert_eq!(it.name(), "a 1");
    assert_eq!(it.len(), 3);
    assert_eq!(it.index(), None);
    assert_eq!(it.next().unwrap().name(), "b 1");
    assert_eq!(it.index(), Some(1));
    assert_eq!(it.index(), Some(1));
    assert_eq!(it.next().unwrap().name(), "c 1");
    assert_eq!(it.index(), Some(2));
    assert_eq!(it.next().unwrap().name(), "d 1");
    assert_eq!(it.index(), Some(3));
    assert_eq!(it.index(), Some(it.len()));
    assert!(it.next().is_none());
    assert_eq!(it.index(), Some(3));
    assert!(it.next().is_none());
    assert_eq!(it.len(), 3);
}

#[test]
fn iteration_starts_afresh() {
    let tree = sample();
    let root = tree.root();
    let mut first = root.into_iter();
    first.next();
    first.next();
    let mut second = DependencyIterator::new(root);
    assert_eq!(second.next().unwrap().name(), "b 1");
    assert_eq!(first.next().unwrap().name(), "d 1");
    assert_eq!(second.index(), Some(1));
    assert_eq!(first.index(), Some(3));
}

#[test]
fn iterator_over_a_leaf_is_empty() {
    let tree = sample();
    let mut it = tree.get("c 1").unwrap().into_iter();
    assert_eq!(it.len(), 0);
    assert!(it.next().is_none());
    assert_eq!(it.index(), None);
}
