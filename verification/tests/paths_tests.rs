use old_file_deleter::paths::{
    bytes_eq, clone_bytes, clone_path, is_in_path_list, is_under_any_ignored, path_eq,
    path_starts_with,
};

fn path(parts: &[&str]) -> Vec<Vec<u8>> {
    parts.iter().map(|s| s.as_bytes().to_vec()).collect()
}

#[test]
fn byte_equality_is_exact() {
    assert!(bytes_eq(&b"abc".to_vec(), &b"abc".to_vec()));
    assert!(!bytes_eq(&b"abc".to_vec(), &b"abd".to_vec()));
    assert!(!bytes_eq(&b"abc".to_vec(), &b"ab".to_vec()));
    assert!(bytes_eq(&Vec::new(), &Vec::new()));
}

#[test]
fn clones_copy_every_component() {
    let b = b"segment".to_vec();
    assert_eq!(clone_bytes(&b), b);
    let p = path(&["home", "user", "file.txt"]);
    assert_eq!(clone_path(&p), p);
}

#[test]
fn prefixes_match_whole_components() {
    let p = path(&["home", "user", "file.txt"]);
    assert!(path_starts_with(&p, &path(&["home"])));
    assert!(path_starts_with(&p, &path(&["home", "user"])));
    assert!(path_starts_with(&p, &p));
    assert!(!path_starts_with(&p, &path(&["home", "use"])));
    assert!(!path_starts_with(&p, &path(&["home", "user", "file.txt", "x"])));
}

#[test]
fn path_equality_is_component_for_component() {
    let p = path(&["home", "user"]);
    assert!(path_eq(&p, &path(&["home", "user"])));
    assert!(!path_eq(&p, &path(&["home", "use"])));
    assert!(!path_eq(&p, &path(&["home"])));
    assert!(!path_eq(&p, &path(&["home", "user", "x"])));
}

#[test]
fn list_membership_is_exact_not_prefix() {
    let list = vec![path(&["a", "b"]), path(&["c"])];
    assert!(is_in_path_list(&list, &path(&["a", "b"])));
    assert!(is_in_path_list(&list, &path(&["c"])));
    assert!(!is_in_path_list(&list, &path(&["a"])));
    assert!(!is_in_path_list(&list, &path(&["a", "b", "c"])));
    assert!(!is_in_path_list(&Vec::new(), &path(&["a"])));
}

#[test]
fn ignore_matching_covers_the_path_itself_and_its_subtree() {
    let ignored = vec![path(&["tmp", "cache"]), path(&["var"])];
    assert!(is_under_any_ignored(&ignored, &path(&["tmp", "cache"])));
    assert!(is_under_any_ignored(
        &ignored,
        &path(&["tmp", "cache", "a", "b"])
    ));
    assert!(is_under_any_ignored(&ignored, &path(&["var", "log"])));
    assert!(!is_under_any_ignored(&ignored, &path(&["tmp", "cachet"])));
    assert!(!is_under_any_ignored(&ignored, &path(&["tmp"])));
    assert!(!is_under_any_ignored(&Vec::new(), &path(&["tmp"])));
}
