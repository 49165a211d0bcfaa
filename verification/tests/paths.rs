use treblo::path::{PathWalkState, TreePath, WalkState};

fn path(parts: &[&str]) -> TreePath {
    TreePath::new(parts.iter().map(|s| s.to_string()).collect())
}

#[test]
fn tree_path_operations() {
    let p = path(&["a", "b", "z"]);
    assert_eq!(p.depth(), 3);
    assert_eq!(p.last_name(), "z");
    let parent = p.parent().unwrap();
    assert_eq!(parent.depth(), 2);
    assert_eq!(parent.last_name(), "b");
    assert!(p.starts_with(&parent));
    assert!(p.starts_with(&p.dup()));
    assert!(!parent.starts_with(&p));
    // a component-wise prefix, not a text prefix
    assert!(!path(&["ab"]).starts_with(&path(&["a"])));
    assert!(p.eq_path(&p.dup()));
    assert!(!p.eq_path(&parent));
    let empty = path(&[]);
    assert!(empty.parent().is_none());
    assert_eq!(empty.last_name(), "");
    assert!(p.starts_with(&empty));
}

#[test]
fn path_walk_state_pops_left_subtrees() {
    let mut st = PathWalkState::new(path(&["a"]), true);
    let r = st.process(Some(&path(&["a", "b", "z"])));
    assert!(r.is_empty());
    // moving from a/b to a closes a/b
    let r = st.process(Some(&path(&["a", "x"])));
    assert_eq!(r.len(), 1);
    assert_eq!(r[0].last_name(), "b");
    // a sibling with the same parent closes nothing
    let r = st.process(Some(&path(&["a", "y"])));
    assert!(r.is_empty());
    // the end of the walk closes everything left, the root last
    let r = st.process(None);
    assert_eq!(r.len(), 1);
    assert_eq!(r[0].last_name(), "a");
}

#[test]
fn path_walk_state_closes_deep_chains_in_leaf_to_root_order() {
    let mut st = PathWalkState::new(path(&["a"]), true);
    assert!(st.process(Some(&path(&["a", "b", "c", "d", "f"]))).is_empty());
    let r = st.process(Some(&path(&["a", "g"])));
    assert_eq!(r.len(), 3);
    assert_eq!(r[0].last_name(), "d");
    assert_eq!(r[1].last_name(), "c");
    assert_eq!(r[2].last_name(), "b");
    let r = st.process(None);
    assert_eq!(r.len(), 1);
    assert_eq!(r[0].last_name(), "a");
}

#[test]
fn path_walk_state_for_single_file_root() {
    let mut st = PathWalkState::new(path(&["f"]), false);
    let r = st.process(None);
    assert!(r.is_empty());
}

#[test]
fn walk_state_always_opens_the_root() {
    let mut st = WalkState::new(path(&["a"]));
    let r = st.process(Some(&path(&["a", "x"])));
    assert!(r.is_empty());
    let r = st.process(None);
    assert_eq!(r.len(), 1);
    assert_eq!(r[0].last_name(), "a");
}
