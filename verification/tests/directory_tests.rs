use merkledir::builder::DirectoryBuilder;
use merkledir::capability::{directories_equal, Directory, FingerprintedDirectory};
use merkledir::directory::{same_storage, SharedDirectory};
use merkledir::entry::DirectoryEntry;
use merkledir::error::DirectoryError;
use merkledir::fingerprint::FingerprintOrder;
use merkledir::name::FileName;

fn name(s: &str) -> FileName {
    FileName::new(s.as_bytes().to_vec()).unwrap()
}

fn path(segments: &[&str]) -> Vec<FileName> {
    segments.iter().map(|s| name(s)).collect()
}

fn leaf(bytes: &[u8]) -> DirectoryEntry<DirectoryBuilder, Vec<u8>> {
    DirectoryEntry::Leaf(bytes.to_vec())
}

/// { "a": leaf(x1), "b": { "c": leaf(x2) } }
fn sample_tree(x1: &[u8], x2: &[u8]) -> DirectoryBuilder {
    let mut b = DirectoryBuilder::empty();
    b.insert(&path(&["a"]), leaf(x1)).unwrap();
    b.insert(&path(&["b", "c"]), leaf(x2)).unwrap();
    b
}

fn get_dir(d: &SharedDirectory, segment: &str) -> SharedDirectory {
    match d.get(&name(segment)) {
        Some(DirectoryEntry::Dir(child)) => child.share(),
        _ => panic!("expected a directory at {}", segment),
    }
}

fn get_leaf(d: &SharedDirectory, segment: &str) -> Vec<u8> {
    match d.get(&name(segment)) {
        Some(DirectoryEntry::Leaf(content)) => content.clone(),
        _ => panic!("expected a leaf at {}", segment),
    }
}

#[test]
fn file_name_validation() {
    assert!(FileName::new(b"readme".to_vec()).is_ok());
    assert!(FileName::new(b"a.b".to_vec()).is_ok());
    assert!(FileName::new(b"...".to_vec()).is_ok());
    assert_eq!(
        FileName::new(Vec::new()).unwrap_err(),
        DirectoryError::InvalidName
    );
    assert_eq!(
        FileName::new(b"a/b".to_vec()).unwrap_err(),
        DirectoryError::InvalidName
    );
    assert_eq!(
        FileName::new(b".".to_vec()).unwrap_err(),
        DirectoryError::InvalidName
    );
    assert_eq!(
        FileName::new(b"..".to_vec()).unwrap_err(),
        DirectoryError::InvalidName
    );
    let n = FileName::new(b"data".to_vec()).unwrap();
    assert_eq!(n.as_bytes().as_slice(), b"data");
    assert_eq!(n.duplicate().as_bytes().as_slice(), b"data");
}

#[test]
fn lookup_and_enumeration() {
    let d = sample_tree(b"one", b"two").freeze();
    assert_eq!(d.entry_count(), 2);
    let (first_name, first_entry) = d.entry_at(0);
    assert_eq!(first_name.as_bytes().as_slice(), b"a");
    assert!(first_entry.is_leaf());
    let (second_name, second_entry) = d.entry_at(1);
    assert_eq!(second_name.as_bytes().as_slice(), b"b");
    assert!(second_entry.is_dir());
    assert_eq!(get_leaf(&d, "a"), b"one".to_vec());
    let b = get_dir(&d, "b");
    assert_eq!(get_leaf(&b, "c"), b"two".to_vec());
    // Absence is an answer, not an error.
    assert!(d.get(&name("missing")).is_none());
}

#[test]
fn fingerprint_deterministic_across_insertion_order() {
    let mut one = DirectoryBuilder::empty();
    one.insert(&path(&["a"]), leaf(b"x1")).unwrap();
    one.insert(&path(&["b", "c"]), leaf(b"x2")).unwrap();
    one.insert(&path(&["d"]), leaf(b"x3")).unwrap();
    let mut two = DirectoryBuilder::empty();
    two.insert(&path(&["d"]), leaf(b"x3")).unwrap();
    two.insert(&path(&["b", "c"]), leaf(b"x2")).unwrap();
    two.insert(&path(&["a"]), leaf(b"x1")).unwrap();
    let f1 = one.freeze();
    let f2 = two.freeze();
    assert!(f1.fingerprint() == f2.fingerprint());
    assert!(directories_equal(&f1, &f2));
    assert!(f1 == f2);
}

#[test]
fn fingerprint_sensitive_to_any_change() {
    let base = sample_tree(b"x1", b"x2").freeze();
    // Changing one leaf's content changes the node's fingerprint.
    let changed_leaf = sample_tree(b"x1-changed", b"x2").freeze();
    assert!(base.fingerprint() != changed_leaf.fingerprint());
    // Adding an entry changes it.
    let mut grown = base.to_builder();
    grown.insert(&path(&["z"]), leaf(b"zz")).unwrap();
    let grown = grown.freeze();
    assert!(base.fingerprint() != grown.fingerprint());
    // Removing an entry changes it.
    let mut shrunk = base.to_builder();
    assert!(shrunk.remove(&name("a")));
    let shrunk = shrunk.freeze();
    assert!(base.fingerprint() != shrunk.fingerprint());
    // Renaming an entry changes it.
    let mut renamed = base.to_builder();
    assert!(renamed.remove(&name("a")));
    renamed.insert(&path(&["a2"]), leaf(b"x1")).unwrap();
    let renamed = renamed.freeze();
    assert!(base.fingerprint() != renamed.fingerprint());
    // An untouched sibling subtree keeps its fingerprint through all of it.
    let base_b = get_dir(&base, "b");
    for other in [&changed_leaf, &grown, &renamed] {
        let other_b = get_dir(other, "b");
        assert!(base_b.fingerprint() == other_b.fingerprint());
    }
}

#[test]
fn equality_is_fingerprint_equality_across_representations() {
    let shared = sample_tree(b"p", b"q").freeze();
    let exclusive = sample_tree(b"p", b"q").freeze_exclusive();
    // Same tree, different concrete representations.
    assert!(shared.fingerprint() == exclusive.fingerprint());
    assert!(directories_equal(&shared, &exclusive));
    let different = sample_tree(b"p", b"q-other").freeze_exclusive();
    assert!(shared.fingerprint() != different.fingerprint());
    assert!(!directories_equal(&shared, &different));
    assert!(exclusive != different);
}

#[test]
fn round_trip_reproduces_fingerprint() {
    let original = sample_tree(b"left", b"right").freeze();
    let rebuilt = original.to_builder().freeze();
    assert!(original.fingerprint() == rebuilt.fingerprint());
    assert!(original == rebuilt);
    // The same through the exclusive representation.
    let exclusive = original.to_builder().freeze_exclusive();
    assert!(directories_equal(&original, &exclusive));
}

#[test]
fn structural_sharing_on_rebuild() {
    let mut b = DirectoryBuilder::empty();
    b.insert(&path(&["a", "b"]), leaf(b"deep")).unwrap();
    b.insert(&path(&["c", "d"]), leaf(b"other")).unwrap();
    let first = b.freeze();
    let mut edit = first.to_builder();
    edit.insert(&path(&["a", "b"]), leaf(b"deep-changed")).unwrap();
    let second = edit.freeze();
    // The subtree not on the edited path is the same shared object.
    let first_c = get_dir(&first, "c");
    let second_c = get_dir(&second, "c");
    assert!(same_storage(&first_c, &second_c));
    assert!(first_c.fingerprint() == second_c.fingerprint());
    // The edited path is new storage with a new fingerprint.
    let first_a = get_dir(&first, "a");
    let second_a = get_dir(&second, "a");
    assert!(!same_storage(&first_a, &second_a));
    assert!(first_a.fingerprint() != second_a.fingerprint());
}

#[test]
fn conflict_is_rejected_and_state_kept() {
    let mut b = sample_tree(b"x1", b"x2");
    let control = sample_tree(b"x1", b"x2").freeze();
    // A leaf where a directory stands.
    match b.insert(&path(&["b"]), leaf(b"nope")) {
        Err(DirectoryError::TypeConflict { .. }) => {}
        other => panic!("expected a type conflict, got {:?}", other),
    }
    // A directory where a leaf stands.
    match b.insert(&path(&["a"]), DirectoryEntry::Dir(DirectoryBuilder::empty())) {
        Err(DirectoryError::TypeConflict { .. }) => {}
        other => panic!("expected a type conflict, got {:?}", other),
    }
    // A path through a leaf.
    match b.insert(&path(&["a", "under-leaf"]), leaf(b"nope")) {
        Err(DirectoryError::TypeConflict { .. }) => {}
        other => panic!("expected a type conflict, got {:?}", other),
    }
    // The failed attempts left the tree exactly as it was.
    let after = b.freeze();
    assert!(after.fingerprint() == control.fingerprint());
}

#[test]
fn replace_same_kind_is_allowed() {
    let mut b = sample_tree(b"x1", b"x2");
    b.insert(&path(&["a"]), leaf(b"x1-new")).unwrap();
    let d = b.freeze();
    assert_eq!(get_leaf(&d, "a"), b"x1-new".to_vec());
}

#[test]
fn remove_reports_presence() {
    let mut b = sample_tree(b"x1", b"x2");
    assert!(!b.remove(&name("missing")));
    assert!(b.remove(&name("a")));
    let d = b.freeze();
    assert!(d.get(&name("a")).is_none());
    assert_eq!(d.entry_count(), 1);
}

#[test]
fn merge_recurses_and_overwrites_leaves() {
    let mut target = DirectoryBuilder::empty();
    target.insert(&path(&["shared", "left"]), leaf(b"L")).unwrap();
    target.insert(&path(&["keep"]), leaf(b"old")).unwrap();
    let mut incoming = DirectoryBuilder::empty();
    incoming.insert(&path(&["shared", "right"]), leaf(b"R")).unwrap();
    incoming.insert(&path(&["keep"]), leaf(b"new")).unwrap();
    target.merge(incoming).unwrap();
    let d = target.freeze();
    let shared = get_dir(&d, "shared");
    assert_eq!(get_leaf(&shared, "left"), b"L".to_vec());
    assert_eq!(get_leaf(&shared, "right"), b"R".to_vec());
    assert_eq!(get_leaf(&d, "keep"), b"new".to_vec());
}

#[test]
fn merge_rejects_kind_conflicts() {
    let mut target = DirectoryBuilder::empty();
    target.insert(&path(&["spot"]), leaf(b"leaf-here")).unwrap();
    let mut incoming = DirectoryBuilder::empty();
    incoming.insert(&path(&["spot", "below"]), leaf(b"dir-here")).unwrap();
    match target.merge(incoming) {
        Err(DirectoryError::TypeConflict { .. }) => {}
        other => panic!("expected a type conflict, got {:?}", other),
    }
}

#[test]
fn merge_at_nests_the_subtree() {
    let mut target = DirectoryBuilder::empty();
    target.insert(&path(&["top"]), leaf(b"t")).unwrap();
    let mut incoming = DirectoryBuilder::empty();
    incoming.insert(&path(&["inner"]), leaf(b"i")).unwrap();
    target.merge_at(&path(&["nested", "here"]), incoming).unwrap();
    let d = target.freeze();
    let nested = get_dir(&d, "nested");
    let here = get_dir(&nested, "here");
    assert_eq!(get_leaf(&here, "inner"), b"i".to_vec());
    assert_eq!(get_leaf(&d, "top"), b"t".to_vec());
}

#[test]
fn scenario_one_leaf_changed() {
    // { "a": leaf(x1), "b": { "c": leaf(x2) } }, then only x1 changed.
    let first = sample_tree(b"x1", b"x2").freeze();
    let fp1 = first.fingerprint().duplicate();
    let mut edit = first.to_builder();
    edit.insert(&path(&["a"]), leaf(b"x1-prime")).unwrap();
    let second = edit.freeze();
    let fp2 = second.fingerprint().duplicate();
    assert!(fp1 != fp2);
    let first_b = get_dir(&first, "b");
    let second_b = get_dir(&second, "b");
    assert!(same_storage(&first_b, &second_b));
    assert!(first_b.fingerprint() == second_b.fingerprint());
}

#[test]
fn entry_projection_keeps_leaves() {
    let dir_entry: DirectoryEntry<u32, Vec<u8>> = DirectoryEntry::Dir(7);
    assert!(dir_entry.is_dir());
    let projected = dir_entry.map_dir(|d: u32| d + 1);
    match projected {
        DirectoryEntry::Dir(v) => assert_eq!(v, 8),
        DirectoryEntry::Leaf(_) => panic!("projection changed the tag"),
    }
    let leaf_entry: DirectoryEntry<u32, Vec<u8>> = DirectoryEntry::Leaf(b"payload".to_vec());
    assert!(leaf_entry.is_leaf());
    match leaf_entry.map_dir(|d: u32| d + 1) {
        DirectoryEntry::Leaf(content) => assert_eq!(content, b"payload".to_vec()),
        DirectoryEntry::Dir(_) => panic!("projection changed the tag"),
    }
}

#[test]
fn empty_directories_are_distinct_content() {
    // An empty directory under a name is content of its own.
    let mut with_empty = DirectoryBuilder::empty();
    with_empty
        .insert(&path(&["hollow"]), DirectoryEntry::Dir(DirectoryBuilder::empty()))
        .unwrap();
    let with_empty = with_empty.freeze();
    let bare = DirectoryBuilder::empty().freeze();
    assert!(with_empty.fingerprint() != bare.fingerprint());
    let hollow = get_dir(&with_empty, "hollow");
    assert_eq!(hollow.entry_count(), 0);
    assert!(hollow.fingerprint() == bare.fingerprint());
}

#[test]
fn fingerprints_are_totally_ordered_tokens() {
    let a = sample_tree(b"1", b"2").freeze();
    let b = sample_tree(b"1", b"3").freeze();
    let a2 = sample_tree(b"1", b"2").freeze();
    assert_eq!(
        a.fingerprint().compare(a2.fingerprint()),
        FingerprintOrder::Equal
    );
    let ab = a.fingerprint().compare(b.fingerprint());
    let ba = b.fingerprint().compare(a.fingerprint());
    match ab {
        FingerprintOrder::Less => assert_eq!(ba, FingerprintOrder::Greater),
        FingerprintOrder::Greater => assert_eq!(ba, FingerprintOrder::Less),
        FingerprintOrder::Equal => panic!("distinct trees compared equal"),
    }
    assert!(a.fingerprint().duplicate() == *a.fingerprint());
}
