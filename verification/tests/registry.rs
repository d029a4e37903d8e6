use terrain::{IndexedPaths, ListOptions, PathStyle, ReadFileError};

fn registry(paths: &[&str]) -> IndexedPaths {
    let mut r = IndexedPaths::new();
    r.extend(paths.iter().map(|p| p.to_string()).collect());
    r
}

#[test]
fn new_registry_is_empty() {
    let r = IndexedPaths::new();
    assert!(r.is_empty());
    assert_eq!(r.len(), 0);
    assert!(!r.contains("/kb/a.md"));
}

#[test]
fn insert_then_contains_and_counts_once() {
    let mut r = IndexedPaths::new();
    r.insert("/kb/a.md".to_string());
    r.insert("/kb/a.md".to_string());
    r.insert("/kb/b.md".to_string());
    assert!(r.contains("/kb/a.md"));
    assert!(r.contains("/kb/b.md"));
    assert!(!r.contains("/kb/c.md"));
    assert_eq!(r.len(), 2);
    assert!(!r.is_empty());
}

#[test]
fn remove_reports_presence_and_revokes() {
    let mut r = registry(&["/kb/a.md", "/kb/b.md"]);
    assert!(r.remove("/kb/a.md"));
    assert!(!r.remove("/kb/a.md"));
    assert!(!r.contains("/kb/a.md"));
    assert!(r.contains("/kb/b.md"));
    assert_eq!(r.len(), 1);
    assert!(r.remove("/kb/b.md"));
    assert!(r.is_empty());
}

#[test]
fn extend_registers_every_path_once() {
    let r = registry(&["/kb/a.md", "/kb/b.md", "/kb/a.md"]);
    assert_eq!(r.len(), 2);
    assert!(r.contains("/kb/a.md") && r.contains("/kb/b.md"));
}

#[test]
fn read_is_granted_only_to_registered_paths() {
    let r = registry(&["/kb/a.md"]);
    assert_eq!(r.authorize_read(Some("/kb/a.md".to_string())), Ok("/kb/a.md".to_string()));
    assert_eq!(r.authorize_read(Some("/etc/passwd".to_string())), Err(ReadFileError::AccessDenied));
    assert_eq!(r.authorize_read(None), Err(ReadFileError::NotFound));
}

#[test]
fn read_access_follows_registration() {
    let mut r = IndexedPaths::new();
    assert_eq!(r.authorize_read(Some("/kb/a.md".to_string())), Err(ReadFileError::AccessDenied));
    r.insert("/kb/a.md".to_string());
    assert!(r.authorize_read(Some("/kb/a.md".to_string())).is_ok());
    r.remove("/kb/a.md");
    assert_eq!(r.authorize_read(Some("/kb/a.md".to_string())), Err(ReadFileError::AccessDenied));
}

fn five() -> IndexedPaths {
    registry(&["/docs/doc-03.md", "/docs/doc-00.md", "/docs/doc-04.md", "/docs/doc-01.md", "/docs/doc-02.md"])
}

#[test]
fn listing_is_sorted_with_total() {
    let list = five().list_files(&ListOptions::default());
    assert_eq!(list.total, 5);
    assert_eq!(list.offset, 0);
    assert_eq!(
        list.paths,
        vec!["/docs/doc-00.md", "/docs/doc-01.md", "/docs/doc-02.md", "/docs/doc-03.md", "/docs/doc-04.md"]
    );
}

#[test]
fn listing_pages_with_limit_and_offset() {
    let r = five();
    let all = r.list_files(&ListOptions::default());

    let page = r.list_files(&ListOptions { limit: 2, offset: 0 });
    assert_eq!(page.total, 5);
    assert_eq!(page.paths, all.paths[0..2]);

    let page = r.list_files(&ListOptions { limit: 2, offset: 4 });
    assert_eq!(page.offset, 4);
    assert_eq!(page.paths, all.paths[4..5]);

    let page = r.list_files(&ListOptions { limit: 2, offset: 99 });
    assert_eq!(page.total, 5);
    assert_eq!(page.offset, 99);
    assert!(page.paths.is_empty());

    let page = r.list_files(&ListOptions { limit: 0, offset: 0 });
    assert_eq!(page.total, 5);
    assert!(page.paths.is_empty());

    let page = r.list_files(&ListOptions { limit: usize::MAX, offset: 3 });
    assert_eq!(page.paths, all.paths[3..5]);
}

#[test]
fn listing_defaults() {
    let opts = ListOptions::default();
    assert_eq!(opts.limit, 100);
    assert_eq!(opts.offset, 0);
}

#[test]
fn listing_orders_by_code_point() {
    let r = registry(&["b", "a", "ab", "B", "é", "aa", ""]);
    let list = r.list_files(&ListOptions::default());
    let mut expected: Vec<String> = ["b", "a", "ab", "B", "é", "aa", ""].iter().map(|s| s.to_string()).collect();
    expected.sort();
    assert_eq!(list.paths, expected);
}

#[test]
fn listed_paths_are_readable() {
    let r = five();
    let list = r.list_files(&ListOptions { limit: 3, offset: 1 });
    for p in list.paths {
        assert!(r.authorize_read(Some(p)).is_ok());
    }
}

#[test]
fn consecutive_pages_concatenate() {
    let r = five();
    let mut joined = r.list_files(&ListOptions { limit: 2, offset: 1 }).paths;
    joined.extend(r.list_files(&ListOptions { limit: 2, offset: 3 }).paths);
    assert_eq!(joined, r.list_files(&ListOptions { limit: 4, offset: 1 }).paths);
}

#[test]
fn default_registry_is_empty() {
    let r = IndexedPaths::default();
    assert!(r.is_empty());
}

#[test]
fn paths_compare_by_components() {
    let mut r = IndexedPaths::new();
    r.insert("/kb/a.md".to_string());
    assert!(r.contains("/kb/a.md"));
    assert!(r.contains("/kb//a.md"));
    assert!(r.contains("/kb/a.md/"));
    assert!(r.contains("/kb/./a.md"));
    assert!(!r.contains("/kb/A.md"));
    assert!(!r.contains("/kb/b.md"));
    assert!(!r.contains("kb/a.md"));
    assert!(!r.contains("/kb/../kb/a.md"));
}

#[test]
fn registry_equality_agrees_with_std_path() {
    let samples = [
        "/kb/a.md", "/kb//a.md", "/kb/a.md/", "/kb/./a.md", "kb/a.md", "./kb/a.md", "kb/./a.md",
        "/./kb/a.md", "//kb/a.md", "/kb/a.md/.", "/kb/../a.md", ".", "./", "", "/", "//", "a", "./a",
        "a/.", "a/..", "..", "../a",
    ];
    for a in samples {
        let mut r = IndexedPaths::new();
        r.insert(a.to_string());
        for b in samples {
            let expected = std::path::Path::new(a) == std::path::Path::new(b);
            assert_eq!(r.contains(b), expected, "{a:?} vs {b:?}");
        }
    }
}

#[test]
fn another_spelling_keeps_the_first_and_counts_once() {
    let mut r = IndexedPaths::new();
    r.insert("/kb/a.md".to_string());
    r.insert("/kb//a.md".to_string());
    assert_eq!(r.len(), 1);
    let list = r.list_files(&ListOptions::default());
    assert_eq!(list.paths, vec!["/kb/a.md".to_string()]);
}

#[test]
fn removal_under_another_spelling_revokes() {
    let mut r = registry(&["/kb/a.md", "/kb/b.md"]);
    assert!(r.remove("/kb//a.md/"));
    assert!(!r.contains("/kb/a.md"));
    assert!(r.contains("/kb/b.md"));
    assert_eq!(r.authorize_read(Some("/kb/a.md".to_string())), Err(ReadFileError::AccessDenied));
}

#[test]
fn read_is_granted_under_another_spelling() {
    let r = registry(&["/kb/a.md"]);
    assert_eq!(r.authorize_read(Some("/kb//a.md".to_string())), Ok("/kb//a.md".to_string()));
}

#[test]
fn batch_removal_then_registration_of_indexed_paths() {
    let mut r = registry(&["/kb/a.md", "/kb/b.md", "/kb/c.md"]);
    r.remove_all(&vec!["/kb//a.md".to_string(), "/kb/zz.md".to_string()]);
    assert!(!r.contains("/kb/a.md"));
    assert_eq!(r.len(), 2);
    r.register_indexed(vec!["/kb/d.md".to_string()], false);
    assert!(!r.contains("/kb/d.md"));
    r.register_indexed(vec!["/kb/d.md".to_string(), "/kb/b.md".to_string()], true);
    assert!(r.contains("/kb/d.md"));
    assert_eq!(r.len(), 3);
}

#[test]
fn windows_registry_compares_with_both_separators() {
    let mut r = IndexedPaths::with_style(PathStyle::Windows);
    r.insert("C:\\kb\\a.md".to_string());
    assert!(r.contains("C:\\kb\\\\a.md"));
    assert!(r.contains("C:/kb/a.md"));
    assert!(r.contains("C:\\kb\\a.md\\"));
    assert!(r.contains("C:\\kb\\.\\a.md"));
    assert!(!r.contains("C:kb\\a.md"));
    assert!(!r.contains("\\kb\\a.md"));
    assert!(r.remove("C:/kb//a.md"));
    assert!(r.is_empty());
}

#[test]
fn unix_registry_reads_backslash_as_a_character() {
    let mut r = IndexedPaths::with_style(PathStyle::Unix);
    r.insert("/kb/a\\b.md".to_string());
    assert!(!r.contains("/kb/a/b.md"));
    assert!(r.contains("/kb//a\\b.md"));
}

#[test]
fn windows_drive_letters_compare_in_any_case() {
    let mut r = IndexedPaths::with_style(PathStyle::Windows);
    r.insert("c:\\kb\\a.md".to_string());
    assert!(r.contains("C:\\kb\\a.md"));
    assert!(!r.contains("C:\\KB\\a.md"));
    r.insert("C:/kb/a.md".to_string());
    assert_eq!(r.len(), 1);
}

#[test]
fn removal_counts_down_by_one() {
    let mut r = registry(&["/kb/a.md", "/kb/b.md"]);
    assert!(r.remove("/kb/./a.md"));
    assert_eq!(r.len(), 1);
    assert!(!r.remove("/kb/a.md"));
    assert_eq!(r.len(), 1);
}
