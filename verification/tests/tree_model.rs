use lindirstat::model::Tree;
use lindirstat::wire::{Entry, KIND_DIR, KIND_FILE};

fn entry(id: u32, parent_id: u32, name: &str, size: u64, kind: u8) -> Entry {
    Entry { id, parent_id, name: name.to_string(), size, mtime: 0, kind }
}

fn sample() -> Tree {
    let mut t = Tree::new();
    for e in [
        entry(0, 0, "/home", 4, KIND_DIR),
        entry(1, 0, "alice", 4, KIND_DIR),
        entry(2, 1, "notes.txt", 100, KIND_FILE),
        entry(3, 0, "bob", 4, KIND_DIR),
        entry(4, 3, "movie.mkv", 5000, KIND_FILE),
        entry(5, 1, "docs", 4, KIND_DIR),
        entry(6, 5, "a.pdf", 30, KIND_FILE),
    ] {
        assert!(t.can_push(&e));
        t.push(e);
    }
    t
}

#[test]
fn subtree_sizes_add_up() {
    let t = sample();
    assert_eq!(t.subtree, vec![5146, 138, 100, 5004, 5000, 34, 30]);
}

#[test]
fn root_and_children() {
    let t = sample();
    assert_eq!(t.root_idx(), Some(0));
    assert_eq!(t.children_of(0), &[1, 3]);
    assert_eq!(t.children_of(1), &[2, 5]);
    assert!(t.children_of(2).is_empty());
    assert!(t.is_dir(5));
    assert!(!t.is_dir(6));
}

#[test]
fn paths_join_names_and_collapse_slashes() {
    let t = sample();
    assert_eq!(t.path_of(0), "/home");
    assert_eq!(t.path_of(6), "/home/alice/docs/a.pdf");
    let mut u = Tree::new();
    u.push(entry(0, 0, "/", 0, KIND_DIR));
    u.push(entry(1, 0, "etc", 0, KIND_DIR));
    u.push(entry(2, 1, "//x", 0, KIND_FILE));
    assert_eq!(u.path_of(1), "/etc");
    assert_eq!(u.path_of(2), "/etc/x");
}

#[test]
fn orphans_stand_alone() {
    let mut t = Tree::new();
    t.push(entry(5, 9, "lost", 7, KIND_FILE));
    assert_eq!(t.subtree, vec![7]);
    assert_eq!(t.root_idx(), None);
    assert_eq!(t.path_of(0), "lost");
}

#[test]
fn largest_dirs_in_size_order() {
    let t = sample();
    assert_eq!(t.largest_dirs(20), vec![(0, 5146), (3, 5004), (1, 138), (5, 34)]);
    assert_eq!(t.largest_dirs(2), vec![(0, 5146), (3, 5004)]);
    assert_eq!(t.largest_dirs(0), vec![]);
}

#[test]
fn largest_dirs_keeps_push_order_on_ties() {
    let mut t = Tree::new();
    t.push(entry(0, 0, "r", 0, KIND_DIR));
    t.push(entry(1, 0, "a", 10, KIND_DIR));
    t.push(entry(2, 0, "b", 10, KIND_DIR));
    assert_eq!(t.largest_dirs(5), vec![(0, 20), (1, 10), (2, 10)]);
}

#[test]
fn can_push_refuses_cycles() {
    let mut t = Tree::new();
    t.push(entry(1, 2, "a", 1, KIND_DIR));
    // 2 -> 1 -> 2 would loop forever.
    assert!(!t.can_push(&entry(2, 1, "b", 1, KIND_DIR)));
    assert!(t.can_push(&entry(2, 2, "b", 1, KIND_DIR)));
}

#[test]
fn can_push_refuses_overflow() {
    let mut t = Tree::new();
    t.push(entry(0, 0, "r", u64::MAX - 1, KIND_DIR));
    assert!(t.can_push(&entry(1, 0, "a", 1, KIND_FILE)));
    assert!(!t.can_push(&entry(1, 0, "a", 2, KIND_FILE)));
}

#[test]
fn extend_pushes_in_order() {
    let mut t = Tree::new();
    t.extend(vec![entry(0, 0, "r", 1, KIND_DIR), entry(1, 0, "a", 2, KIND_FILE)]);
    assert_eq!(t.entries.len(), 2);
    assert_eq!(t.subtree, vec![3, 2]);
    assert_eq!(*t.id_to_index.get(&1).unwrap(), 1);
}

#[test]
fn duplicate_id_rebinds_later_children() {
    let mut t = Tree::new();
    t.push(entry(0, 0, "r", 1, KIND_DIR));
    t.push(entry(1, 0, "a", 1, KIND_DIR));
    t.push(entry(1, 0, "b", 1, KIND_DIR));
    t.push(entry(2, 1, "c", 5, KIND_FILE));
    // The last entry with id 1 ("b") is the parent from now on.
    assert_eq!(t.subtree, vec![8, 1, 6, 5]);
    assert_eq!(t.path_of(3), "r/b/c");
}

#[test]
fn default_tree_is_empty() {
    let t = Tree::default();
    assert!(t.entries.is_empty());
    assert!(t.subtree.is_empty());
    assert_eq!(t.root_idx(), None);
    assert_eq!(t.largest_dirs(3), vec![]);
}

#[test]
fn paths_and_children_stay_put_as_stream_grows() {
    let mut t = sample();
    let before: Vec<String> = (0..t.entries.len()).map(|i| t.path_of(i)).collect();
    t.push(entry(7, 5, "b.pdf", 1, KIND_FILE));
    for (i, p) in before.iter().enumerate() {
        assert_eq!(&t.path_of(i), p);
    }
    assert_eq!(t.children_of(5), &[6, 7]);
    assert!(!t.path_of(7).contains("//"));
}

fn sample_entries() -> Vec<Entry> {
    vec![
        entry(0, 0, "/home", 4, KIND_DIR),
        entry(1, 0, "alice", 4, KIND_DIR),
        entry(2, 1, "notes.txt", 100, KIND_FILE),
        entry(3, 0, "bob", 4, KIND_DIR),
        entry(4, 3, "movie.mkv", 5000, KIND_FILE),
        entry(5, 1, "docs", 4, KIND_DIR),
        entry(6, 5, "a.pdf", 30, KIND_FILE),
    ]
}

fn same_tree(a: &Tree, b: &Tree) {
    let ids = |t: &Tree| t.entries.iter().map(|e| (e.id, e.parent_id, e.name.clone())).collect::<Vec<_>>();
    assert_eq!(ids(a), ids(b));
    assert_eq!(a.subtree, b.subtree);
    assert_eq!(a.id_to_index, b.id_to_index);
    assert_eq!(a.children, b.children);
}

#[test]
fn batch_cuts_do_not_change_the_tree() {
    let all = sample_entries();
    let mut whole = Tree::new();
    whole.extend(all.clone());
    for cut in 0..=all.len() {
        let mut parts = Tree::new();
        parts.extend(all[..cut].to_vec());
        parts.extend(all[cut..].to_vec());
        same_tree(&whole, &parts);
    }
    same_tree(&whole, &sample());
}

#[test]
fn try_extend_takes_a_good_batch_whole() {
    let mut t = Tree::new();
    assert_eq!(t.try_extend(sample_entries()), Ok(()));
    same_tree(&t, &sample());
}

#[test]
fn try_extend_stops_at_a_cycle() {
    let mut t = Tree::new();
    t.push(entry(0, 0, "/", 1, KIND_DIR));
    // Entry 1 names 2 as its parent and 2 names 1: a loop.
    let batch = vec![
        entry(3, 0, "ok", 5, KIND_FILE),
        entry(1, 2, "a", 1, KIND_DIR),
        entry(2, 1, "b", 1, KIND_DIR),
        entry(4, 0, "never", 1, KIND_FILE),
    ];
    assert_eq!(t.try_extend(batch), Err(2));
    assert_eq!(t.entries.len(), 3);
    assert_eq!(t.subtree, vec![6, 5, 1]);
}

#[test]
fn try_extend_stops_at_a_size_overflow() {
    let mut t = Tree::new();
    t.push(entry(0, 0, "/", u64::MAX - 1, KIND_DIR));
    let batch = vec![entry(1, 0, "one", 1, KIND_FILE), entry(2, 0, "two", 1, KIND_FILE)];
    assert_eq!(t.try_extend(batch), Err(1));
    assert_eq!(t.subtree, vec![u64::MAX, 1]);
}

#[test]
fn child_path_is_parent_path_slash_name() {
    let mut u = Tree::new();
    u.push(entry(0, 0, "/", 0, KIND_DIR));
    u.push(entry(1, 0, "etc/", 0, KIND_DIR));
    u.push(entry(2, 1, "/ssh", 0, KIND_DIR));
    u.push(entry(3, 2, "config", 0, KIND_FILE));
    for (child, parent, name) in [(1usize, 0usize, "etc/"), (2, 1, "/ssh"), (3, 2, "config")] {
        let joined = format!("{}/{}", u.path_of(parent), name);
        let mut collapsed = String::new();
        for c in joined.chars() {
            if !(c == '/' && collapsed.ends_with('/')) {
                collapsed.push(c);
            }
        }
        assert_eq!(u.path_of(child), collapsed);
    }
    assert_eq!(u.path_of(3), "/etc/ssh/config");
}
