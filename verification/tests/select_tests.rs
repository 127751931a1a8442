use old_file_deleter::config::{FileDateType, RunConfig};
use old_file_deleter::select::{get_files_to_delete, is_expired, Entry, EntryKind, Timestamps};

fn path(parts: &[&str]) -> Vec<Vec<u8>> {
    parts.iter().map(|s| s.as_bytes().to_vec()).collect()
}

fn config(cutoff: i128) -> RunConfig {
    RunConfig {
        cutoff,
        date_types: vec![FileDateType::Created, FileDateType::Modified],
        ignored: Vec::new(),
        min_depth: None,
        max_depth: None,
        follow_symbolic_links: false,
        delete_empty_folders: false,
        dry_run: false,
    }
}

fn file(parts: &[&str], depth: usize, created: i128, modified: i128, accessed: i128) -> Entry {
    Entry {
        path: path(parts),
        depth,
        kind: EntryKind::File,
        times: Some(Timestamps {
            created,
            modified,
            accessed,
        }),
    }
}

#[test]
fn selects_files_old_by_every_selected_measure() {
    let cfg = config(100);
    let entries = vec![
        file(&["root", "old.txt"], 1, 50, 100, 999),
        file(&["root", "fresh.txt"], 1, 50, 101, 0),
        file(&["root", "older.txt"], 1, 1, 2, 3),
    ];
    // The accessed time is not selected, so it may be recent; both
    // selected times must be at or before the cutoff, ties counting as
    // expired.
    assert_eq!(get_files_to_delete(&entries, &cfg), vec![0, 2]);
}

#[test]
fn one_recent_selected_timestamp_protects_a_file() {
    let cfg = RunConfig {
        date_types: vec![
            FileDateType::Created,
            FileDateType::Modified,
            FileDateType::Accessed,
        ],
        ..config(100)
    };
    let entries = vec![file(&["root", "read.txt"], 1, 1, 2, 101)];
    assert_eq!(get_files_to_delete(&entries, &cfg), Vec::<usize>::new());
}

#[test]
fn skips_non_files_and_unreadable_metadata() {
    let cfg = config(100);
    let mut dir = file(&["root", "sub"], 1, 0, 0, 0);
    dir.kind = EntryKind::Directory;
    dir.times = None;
    let mut link = file(&["root", "link"], 1, 0, 0, 0);
    link.kind = EntryKind::Symlink;
    let mut unreadable = file(&["root", "stale.txt"], 1, 0, 0, 0);
    unreadable.times = None;
    let entries = vec![dir, link, unreadable, file(&["root", "ok.txt"], 1, 0, 0, 0)];
    assert_eq!(get_files_to_delete(&entries, &cfg), vec![3]);
}

#[test]
fn excludes_everything_under_an_ignored_path() {
    let mut cfg = config(100);
    cfg.ignored = vec![path(&["root", "keep"])];
    let entries = vec![
        file(&["root", "keep"], 1, 0, 0, 0),
        file(&["root", "keep", "old.txt"], 2, 0, 0, 0),
        file(&["root", "keep", "deep", "older.txt"], 3, 0, 0, 0),
        file(&["root", "keepsake.txt"], 1, 0, 0, 0),
        file(&["other", "old.txt"], 1, 0, 0, 0),
    ];
    // Exclusion covers the ignored path itself and its subtree, by
    // whole components: "keepsake.txt" is not under "keep".
    assert_eq!(get_files_to_delete(&entries, &cfg), vec![3, 4]);
}

#[test]
fn depth_bounds_select_exactly_the_requested_levels() {
    let mut cfg = config(100);
    cfg.min_depth = Some(2);
    cfg.max_depth = Some(2);
    let entries = vec![
        file(&["root", "top.txt"], 1, 0, 0, 0),
        file(&["root", "a", "mid.txt"], 2, 0, 0, 0),
        file(&["root", "a", "b", "deep.txt"], 3, 0, 0, 0),
        file(&["root", "b", "mid2.txt"], 2, 0, 0, 0),
    ];
    assert_eq!(get_files_to_delete(&entries, &cfg), vec![1, 3]);
}

#[test]
fn dry_run_selects_what_a_real_run_would() {
    let entries = vec![
        file(&["root", "old.txt"], 1, 0, 0, 0),
        file(&["root", "new.txt"], 1, 999, 999, 999),
    ];
    let real = config(100);
    let mut dry = config(100);
    dry.dry_run = true;
    assert_eq!(
        get_files_to_delete(&entries, &real),
        get_files_to_delete(&entries, &dry)
    );
}

#[test]
fn selection_is_repeatable() {
    let entries = vec![
        file(&["root", "one.txt"], 1, 7, 8, 9),
        file(&["root", "two.txt"], 1, 200, 8, 9),
    ];
    let cfg = config(100);
    let first = get_files_to_delete(&entries, &cfg);
    let second = get_files_to_delete(&entries, &cfg);
    assert_eq!(first, vec![0]);
    assert_eq!(first, second);
}

#[test]
fn timestamps_before_the_epoch_compare_as_real_moments() {
    // A cutoff before 1970 is negative; a file from 1960 is younger
    // than a 1950 cutoff and must survive, older than a 1970 cutoff
    // and must go.
    let t = Timestamps {
        created: -300_000_000_000_000_000,
        modified: -300_000_000_000_000_000,
        accessed: -300_000_000_000_000_000,
    };
    let both = vec![FileDateType::Created, FileDateType::Modified];
    assert!(!is_expired(&t, &both, -600_000_000_000_000_000));
    assert!(is_expired(&t, &both, 0));
}

#[test]
fn expiry_takes_the_most_recent_selected_timestamp() {
    let t = Timestamps {
        created: 10,
        modified: 90,
        accessed: 200,
    };
    let both = vec![FileDateType::Created, FileDateType::Modified];
    assert!(is_expired(&t, &both, 90));
    assert!(!is_expired(&t, &both, 89));
    let all = vec![
        FileDateType::Created,
        FileDateType::Modified,
        FileDateType::Accessed,
    ];
    assert!(!is_expired(&t, &all, 199));
    assert!(is_expired(&t, &all, 200));
    let only_created = vec![FileDateType::Created];
    assert!(is_expired(&t, &only_created, 10));
    assert!(!is_expired(&t, &only_created, 9));
}
