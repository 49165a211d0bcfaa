use treblo::digest::HashAlgo;
use treblo::hex::to_hex_string;
use treblo::object::FileMode;
use treblo::path::TreePath;
use treblo::walk::{TrebloWalk, WalkError, WalkEvent};

fn path(parts: &[&str]) -> TreePath {
    TreePath::new(parts.iter().map(|s| s.to_string()).collect())
}

fn hex_digest(ev: &WalkEvent) -> String {
    to_hex_string(ev.entry.digest.as_slice())
}

fn sha1_walk() -> TrebloWalk {
    TrebloWalk::new(HashAlgo::Sha1, false, false)
}

#[test]
fn empty_directory_hashes_to_empty_tree() {
    let tw = sha1_walk();
    let mut d = tw.start(path(&["a"]), true);
    let events = d.finish();
    assert_eq!(events.len(), 1);
    assert!(events[0].is_tree);
    assert_eq!(events[0].entry.name, "a");
    assert_eq!(hex_digest(&events[0]), "4b825dc642cb6eb9a060e54bf8d69288fbee4904");
}

#[test]
fn nested_walk_resolves_each_directory_once() {
    let tw = sha1_walk();
    let mut d = tw.start(path(&["a"]), true);
    let e1 = d.process_entry(&path(&["a", "b", "z"]), FileMode::regular(), b"3");
    assert_eq!(e1.len(), 1);
    assert!(!e1[0].is_tree);
    assert_eq!(e1[0].entry.name, "z");
    assert_eq!(hex_digest(&e1[0]), "e440e5c842586965a7fb77deda2eca68612b1f53");

    let e2 = d.process_entry(&path(&["a", "x"]), FileMode::regular(), b"1");
    assert_eq!(e2.len(), 2);
    assert!(!e2[0].is_tree);
    assert_eq!(e2[0].entry.name, "x");
    assert_eq!(hex_digest(&e2[0]), "56a6051ca2b02b04ef92d5150c9ef600403cb1de");
    assert!(e2[1].is_tree);
    assert_eq!(e2[1].entry.name, "b");
    assert_eq!(hex_digest(&e2[1]), "9c6c33f1a899f15f0708ab07d8a6c1a993f6103b");

    let e3 = d.process_entry(&path(&["a", "y"]), FileMode::regular(), b"2");
    assert_eq!(e3.len(), 1);
    assert_eq!(e3[0].entry.name, "y");
    assert_eq!(hex_digest(&e3[0]), "d8263ee9860594d2806b0dfd1bfd17528b0ba2a4");

    let fin = d.finish();
    assert_eq!(fin.len(), 1);
    assert!(fin[0].is_tree);
    assert_eq!(fin[0].entry.name, "a");
    assert_eq!(hex_digest(&fin[0]), "3b140a5625af328205a0df9b5fe4dfc4ff3f3f1f");
}

#[test]
fn changing_leaf_content_changes_ancestors() {
    let tw = sha1_walk();
    let mut d = tw.start(path(&["a"]), true);
    d.process_entry(&path(&["a", "b", "z"]), FileMode::regular(), b"4");
    d.process_entry(&path(&["a", "x"]), FileMode::regular(), b"1");
    d.process_entry(&path(&["a", "y"]), FileMode::regular(), b"2");
    let fin = d.finish();
    assert_eq!(hex_digest(&fin[0]), "b39c64c719fca54f44fe3d4332e423d5d9f9d96c");
    assert_ne!(hex_digest(&fin[0]), "3b140a5625af328205a0df9b5fe4dfc4ff3f3f1f");
}

#[test]
fn renaming_keeps_blob_digest_changes_ancestors() {
    let tw = sha1_walk();
    let mut d = tw.start(path(&["a"]), true);
    let z = d.process_entry(&path(&["a", "b", "z"]), FileMode::regular(), b"3");
    let x2 = d.process_entry(&path(&["a", "x2"]), FileMode::regular(), b"1");
    let y = d.process_entry(&path(&["a", "y"]), FileMode::regular(), b"2");
    let fin = d.finish();
    // the renamed file's blob digest is the digest its old name had
    assert_eq!(hex_digest(&x2[0]), "56a6051ca2b02b04ef92d5150c9ef600403cb1de");
    // untouched siblings keep their digests
    assert_eq!(hex_digest(&z[0]), "e440e5c842586965a7fb77deda2eca68612b1f53");
    assert_eq!(hex_digest(&y[0]), "d8263ee9860594d2806b0dfd1bfd17528b0ba2a4");
    // but the parent tree digest changes
    assert_eq!(hex_digest(&fin[0]), "20e444472a5316cbe496f8d0e2acb704011b9307");
    assert_ne!(hex_digest(&fin[0]), "3b140a5625af328205a0df9b5fe4dfc4ff3f3f1f");
}

#[test]
fn tree_digest_independent_of_yield_order() {
    let tw = sha1_walk();
    let mut d1 = tw.start(path(&["r"]), true);
    d1.process_entry(&path(&["r", "f1"]), FileMode::regular(), b"1");
    d1.process_entry(&path(&["r", "f2"]), FileMode::regular(), b"2");
    let fin1 = d1.finish();

    let mut d2 = tw.start(path(&["r"]), true);
    d2.process_entry(&path(&["r", "f2"]), FileMode::regular(), b"2");
    d2.process_entry(&path(&["r", "f1"]), FileMode::regular(), b"1");
    let fin2 = d2.finish();

    assert_eq!(hex_digest(&fin1[0]), "7777b6da4d28bf1972dc9fb99d845e2d3b9df87e");
    assert_eq!(hex_digest(&fin1[0]), hex_digest(&fin2[0]));
}

#[test]
fn walks_are_idempotent() {
    let tw = sha1_walk();
    let mut all1: Vec<String> = Vec::new();
    let mut all2: Vec<String> = Vec::new();
    for out in [&mut all1, &mut all2] {
        let mut d = tw.start(path(&["a"]), true);
        for ev in d.process_entry(&path(&["a", "b", "z"]), FileMode::regular(), b"3") {
            out.push(hex_digest(&ev));
        }
        for ev in d.process_entry(&path(&["a", "x"]), FileMode::regular(), b"1") {
            out.push(hex_digest(&ev));
        }
        for ev in d.process_entry(&path(&["a", "y"]), FileMode::regular(), b"2") {
            out.push(hex_digest(&ev));
        }
        for ev in d.finish() {
            out.push(hex_digest(&ev));
        }
    }
    assert_eq!(all1, all2);
    assert_eq!(all1.len(), 5);
}

#[test]
fn symlink_blob_hashes_raw_target_text() {
    let tw = sha1_walk();
    let mut d = tw.start(path(&["a"]), true);
    let link = d.process_entry(&path(&["a", "l"]), FileMode::symlink(), b"t");
    let file = d.process_entry(&path(&["a", "m"]), FileMode::regular(), b"t");
    // the symlink is hashed over its raw target text, so its blob digest
    // equals that of a file holding the same text ...
    assert_eq!(hex_digest(&link[0]), "32f64f4d836716819dc5fa9a1e09a29b428881df");
    assert_eq!(hex_digest(&link[0]), hex_digest(&file[0]));
    // ... while the entries stay distinct through their modes
    assert_eq!(link[0].entry.file_mode.as_i32(), 0o120000);
    assert_eq!(file[0].entry.file_mode.as_i32(), 0o100644);
    // and a different target gives a different digest
    let other = d.process_entry(&path(&["a", "n"]), FileMode::symlink(), b"u");
    assert_ne!(hex_digest(&other[0]), hex_digest(&link[0]));
}

#[test]
fn lenient_mode_skips_unreadable_entries() {
    let tw = TrebloWalk::new(HashAlgo::Sha1, false, true);
    let mut d = tw.start(path(&["a"]), true);
    let r = d.process_error(WalkError::Io("permission denied".to_string()));
    assert!(r.is_ok());
    d.process_entry(&path(&["a", "b", "ok"]), FileMode::regular(), b"3");
    let e2 = d.process_entry(&path(&["a", "x"]), FileMode::regular(), b"1");
    assert_eq!(e2.len(), 2);
    assert!(e2[1].is_tree);
    assert_eq!(e2[1].entry.name, "b");
    assert_eq!(hex_digest(&e2[1]), "347f5fca1fc47c77a9c97d3063882a0604dbc587");
    let fin = d.finish();
    assert_eq!(fin.len(), 1);
    assert_eq!(fin[0].entry.name, "a");
    assert_eq!(hex_digest(&fin[0]), "9ccc3430b30d7567d29d7913f70d767fbb6f0f47");
}

#[test]
fn strict_mode_aborts_on_first_error() {
    let tw = sha1_walk();
    let mut d = tw.start(path(&["a"]), true);
    d.process_entry(&path(&["a", "x"]), FileMode::regular(), b"1");
    let r = d.process_error(WalkError::Io("permission denied".to_string()));
    match r {
        Err(WalkError::Io(m)) => assert_eq!(m, "permission denied"),
        _ => panic!("strict mode must hand the error back"),
    }
}

#[test]
fn blob_only_walk_emits_no_trees() {
    let tw = TrebloWalk::new(HashAlgo::Sha1, true, false);
    let mut d = tw.start(path(&["a"]), true);
    let e1 = d.process_entry(&path(&["a", "b", "z"]), FileMode::regular(), b"3");
    let e2 = d.process_entry(&path(&["a", "x"]), FileMode::regular(), b"1");
    assert_eq!(e1.len(), 1);
    assert_eq!(e2.len(), 1);
    assert!(!e2[0].is_tree);
    let fin = d.finish();
    assert!(fin.is_empty());
}

#[test]
fn directories_are_ignored_at_encounter_time() {
    let tw = sha1_walk();
    let mut d = tw.start(path(&["a"]), true);
    let evs = d.process_entry(&path(&["a", "b"]), FileMode::dir(), b"");
    assert!(evs.is_empty());
}

#[test]
fn every_error_kind_is_fatal_in_strict_mode() {
    let tw = sha1_walk();
    let mut d = tw.start(path(&["a"]), true);
    match d.process_error(WalkError::Encoding("bad name".to_string())) {
        Err(WalkError::Encoding(m)) => assert_eq!(m, "bad name"),
        _ => panic!("encoding errors must be fatal in strict mode"),
    }
    match d.process_error(WalkError::Iter("cannot enter".to_string())) {
        Err(WalkError::Iter(m)) => assert_eq!(m, "cannot enter"),
        _ => panic!("iterator errors must be fatal in strict mode"),
    }
}
