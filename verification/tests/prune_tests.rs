use old_file_deleter::prune::{prune_plan, prune_plan_for_targets, FsDirEntry, FsNode, TargetTree};

fn path(parts: &[&str]) -> Vec<Vec<u8>> {
    parts.iter().map(|s| s.as_bytes().to_vec()).collect()
}

fn dir(entries: Vec<FsDirEntry>) -> FsNode {
    FsNode::Dir {
        entries,
        fully_read: true,
    }
}

fn entry(name: &str, node: FsNode) -> FsDirEntry {
    FsDirEntry {
        name: name.as_bytes().to_vec(),
        node,
    }
}

fn none() -> Vec<Vec<Vec<u8>>> {
    Vec::new()
}

#[test]
fn an_emptied_chain_is_removed_bottom_up() {
    // root/a/b held only an expired file; after its deletion the tree
    // is root/a/b with b empty. b, then a, then root are removed, in
    // that order.
    let tree = dir(vec![entry("a", dir(vec![entry("b", dir(vec![]))]))]);
    let root = path(&["root"]);
    let mut plan: Vec<Vec<Vec<u8>>> = Vec::new();
    let vanished = prune_plan(&none(), &none(), &root, &tree, &mut plan);
    assert!(vanished);
    assert_eq!(
        plan,
        vec![
            path(&["root", "a", "b"]),
            path(&["root", "a"]),
            path(&["root"]),
        ]
    );
}

#[test]
fn a_dry_run_plans_the_same_chain_from_doomed_files() {
    // The same scenario before any deletion: root/a/b still holds the
    // expired file, but the file is doomed (the file pass would remove
    // it). The plan from the unmutated snapshot equals what a real run
    // removes after its file pass.
    let tree = dir(vec![entry(
        "a",
        dir(vec![entry("b", dir(vec![entry("f.txt", FsNode::File)]))]),
    )]);
    let root = path(&["root"]);
    let doomed = vec![path(&["root", "a", "b", "f.txt"])];
    let mut plan: Vec<Vec<Vec<u8>>> = Vec::new();
    let vanished = prune_plan(&none(), &doomed, &root, &tree, &mut plan);
    assert!(vanished);
    assert_eq!(
        plan,
        vec![
            path(&["root", "a", "b"]),
            path(&["root", "a"]),
            path(&["root"]),
        ]
    );
    // Without the doomed file the same snapshot keeps everything.
    let mut untouched: Vec<Vec<Vec<u8>>> = Vec::new();
    assert!(!prune_plan(&none(), &none(), &root, &tree, &mut untouched));
    assert!(untouched.is_empty());
}

#[test]
fn ignored_directories_are_never_pruned() {
    // root/keep is empty but ignored: it is content, so neither it nor
    // its ancestors are removed; an unrelated empty sibling still goes.
    let tree = dir(vec![
        entry("keep", dir(vec![])),
        entry("other", dir(vec![])),
    ]);
    let root = path(&["root"]);
    let ignored = vec![path(&["root", "keep"])];
    let mut plan: Vec<Vec<Vec<u8>>> = Vec::new();
    let vanished = prune_plan(&ignored, &none(), &root, &tree, &mut plan);
    assert!(!vanished);
    assert_eq!(plan, vec![path(&["root", "other"])]);
}

#[test]
fn an_ignored_subtree_is_wholly_excluded() {
    // Everything at or under the ignored path stays, however empty.
    let tree = dir(vec![entry("keep", dir(vec![entry("sub", dir(vec![]))]))]);
    let root = path(&["root"]);
    let ignored = vec![path(&["root", "keep"])];
    let mut plan: Vec<Vec<Vec<u8>>> = Vec::new();
    assert!(!prune_plan(&ignored, &none(), &root, &tree, &mut plan));
    assert!(plan.is_empty());
}

#[test]
fn a_file_keeps_every_ancestor() {
    let tree = dir(vec![entry(
        "a",
        dir(vec![
            entry("b", dir(vec![entry("f.txt", FsNode::File)])),
            entry("c", dir(vec![])),
        ]),
    )]);
    let root = path(&["root"]);
    let mut plan: Vec<Vec<Vec<u8>>> = Vec::new();
    let vanished = prune_plan(&none(), &none(), &root, &tree, &mut plan);
    assert!(!vanished);
    // Only the truly empty sibling goes; b, a and root stay.
    assert_eq!(plan, vec![path(&["root", "a", "c"])]);
}

#[test]
fn a_symlink_counts_as_content() {
    // A directory containing only a symlink is never pruned, whatever
    // the follow-symbolic-links flag says during the walk.
    let tree = dir(vec![entry("link", FsNode::Symlink)]);
    let root = path(&["root"]);
    let mut plan: Vec<Vec<Vec<u8>>> = Vec::new();
    let vanished = prune_plan(&none(), &none(), &root, &tree, &mut plan);
    assert!(!vanished);
    assert!(plan.is_empty());
}

#[test]
fn an_unreadable_directory_is_kept() {
    // A directory whose contents could not be fully enumerated is
    // conservatively treated as non-empty, and so is its parent.
    let unreadable = FsNode::Dir {
        entries: vec![],
        fully_read: false,
    };
    let tree = dir(vec![entry("locked", unreadable)]);
    let root = path(&["root"]);
    let mut plan: Vec<Vec<Vec<u8>>> = Vec::new();
    let vanished = prune_plan(&none(), &none(), &root, &tree, &mut plan);
    assert!(!vanished);
    assert!(plan.is_empty());
}

#[test]
fn every_ancestor_comes_after_its_descendants() {
    let tree = dir(vec![
        entry(
            "a",
            dir(vec![entry("b", dir(vec![])), entry("c", dir(vec![]))]),
        ),
        entry("d", dir(vec![])),
    ]);
    let root = path(&["root"]);
    let mut plan: Vec<Vec<Vec<u8>>> = Vec::new();
    assert!(prune_plan(&none(), &none(), &root, &tree, &mut plan));
    assert_eq!(
        plan,
        vec![
            path(&["root", "a", "b"]),
            path(&["root", "a", "c"]),
            path(&["root", "a"]),
            path(&["root", "d"]),
            path(&["root"]),
        ]
    );
    // No planned directory is a proper ancestor of one planned later.
    for i in 0..plan.len() {
        for j in (i + 1)..plan.len() {
            let ancestor_of_later =
                plan[i].len() < plan[j].len() && plan[j][..plan[i].len()] == plan[i][..];
            assert!(!ancestor_of_later);
        }
    }
}

#[test]
fn the_pass_is_off_unless_enabled() {
    let targets = vec![TargetTree {
        path: path(&["root"]),
        root: dir(vec![entry("a", dir(vec![]))]),
    }];
    assert!(prune_plan_for_targets(&targets, &none(), &none(), false).is_empty());
    assert_eq!(
        prune_plan_for_targets(&targets, &none(), &none(), true),
        vec![path(&["root", "a"]), path(&["root"])]
    );
}

#[test]
fn a_target_that_is_not_a_directory_is_left_alone() {
    let targets = vec![TargetTree {
        path: path(&["not_a_dir.txt"]),
        root: FsNode::File,
    }];
    assert!(prune_plan_for_targets(&targets, &none(), &none(), true).is_empty());
}

#[test]
fn every_target_folder_is_swept() {
    let targets = vec![
        TargetTree {
            path: path(&["one"]),
            root: dir(vec![]),
        },
        TargetTree {
            path: path(&["two"]),
            root: dir(vec![entry("kept.txt", FsNode::File)]),
        },
        TargetTree {
            path: path(&["three"]),
            root: dir(vec![entry("empty", dir(vec![]))]),
        },
    ];
    let plan = prune_plan_for_targets(&targets, &none(), &none(), true);
    assert_eq!(
        plan,
        vec![
            path(&["one"]),
            path(&["three", "empty"]),
            path(&["three"]),
        ]
    );
}
