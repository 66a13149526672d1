use mini_grep::walk::name_lt;
use mini_grep::{plan_directory, root_action, Action, DirEntryInfo, EntryKind, SearchError, SearchOptions, Step};

fn entry(name: &str, kind: EntryKind) -> DirEntryInfo {
    DirEntryInfo { name: name.as_bytes().to_vec(), kind }
}

#[test]
fn root_action_follows_the_kind_of_path() {
    assert_eq!(root_action(EntryKind::File), Ok(Action::SearchFile));
    assert_eq!(root_action(EntryKind::Directory), Ok(Action::SearchDirectory));
    assert_eq!(root_action(EntryKind::Other), Err(SearchError::NotFileOrDirectory));
}

#[test]
fn not_file_or_directory_message() {
    assert_eq!(SearchError::NotFileOrDirectory.message(), "Path is neither a file nor a directory");
}

#[test]
fn plan_visits_only_files_unless_recursive() {
    let entries = vec![entry("file2.txt", EntryKind::File), entry("nested", EntryKind::Directory), entry("file1.txt", EntryKind::File)];
    let steps = plan_directory(&entries, SearchOptions::default());
    assert_eq!(
        steps,
        vec![Step { index: 2, action: Action::SearchFile }, Step { index: 0, action: Action::SearchFile }]
    );
}

#[test]
fn plan_descends_into_directories_when_recursive() {
    let entries = vec![entry("file1.txt", EntryKind::File), entry("nested", EntryKind::Directory)];
    let steps = plan_directory(&entries, SearchOptions::new(false, true));
    assert_eq!(
        steps,
        vec![Step { index: 0, action: Action::SearchFile }, Step { index: 1, action: Action::SearchDirectory }]
    );
}

#[test]
fn plan_sorts_directories_and_files_together_by_name() {
    let entries = vec![entry("z_file.txt", EntryKind::File), entry("a_dir", EntryKind::Directory)];
    let steps = plan_directory(&entries, SearchOptions::new(false, true));
    assert_eq!(
        steps,
        vec![Step { index: 1, action: Action::SearchDirectory }, Step { index: 0, action: Action::SearchFile }]
    );
}

#[test]
fn plan_skips_other_entries() {
    let entries = vec![entry("link", EntryKind::Other), entry("a", EntryKind::File)];
    let steps = plan_directory(&entries, SearchOptions::new(false, true));
    assert_eq!(steps, vec![Step { index: 1, action: Action::SearchFile }]);
}

#[test]
fn plan_of_empty_listing_is_empty() {
    assert!(plan_directory(&Vec::new(), SearchOptions::new(true, true)).is_empty());
}

#[test]
fn plan_orders_by_bytes() {
    let names = ["b", "B", "a", "ab", "", "é", "a_b", "a.b"];
    let entries: Vec<DirEntryInfo> = names.iter().map(|n| entry(n, EntryKind::File)).collect();
    let steps = plan_directory(&entries, SearchOptions::default());
    let got: Vec<&str> = steps.iter().map(|s| names[s.index]).collect();
    let mut expected = names.to_vec();
    expected.sort();
    assert_eq!(got, expected);
}

#[test]
fn plan_keeps_listing_order_for_equal_names() {
    let entries = vec![entry("same", EntryKind::File), entry("same", EntryKind::File)];
    let steps = plan_directory(&entries, SearchOptions::default());
    assert_eq!(
        steps,
        vec![Step { index: 0, action: Action::SearchFile }, Step { index: 1, action: Action::SearchFile }]
    );
}

#[test]
fn name_order_is_byte_order() {
    assert!(name_lt(&b"a".to_vec(), &b"b".to_vec()));
    assert!(name_lt(&b"B".to_vec(), &b"a".to_vec()));
    assert!(name_lt(&b"a".to_vec(), &b"ab".to_vec()));
    assert!(!name_lt(&b"ab".to_vec(), &b"a".to_vec()));
    assert!(!name_lt(&b"a".to_vec(), &b"a".to_vec()));
    assert!(name_lt(&Vec::new(), &b"a".to_vec()));
    assert!(!name_lt(&Vec::new(), &Vec::new()));
}

#[test]
fn plan_without_recursion_is_plan_with_recursion_without_directories() {
    let entries = vec![
        entry("z_nested", EntryKind::Directory),
        entry("m.txt", EntryKind::File),
        entry("a_dir", EntryKind::Directory),
        entry("b.txt", EntryKind::File),
        entry("link", EntryKind::Other),
    ];
    let shallow = plan_directory(&entries, SearchOptions::new(false, false));
    let deep = plan_directory(&entries, SearchOptions::new(false, true));
    let files: Vec<Step> = deep.into_iter().filter(|s| s.action == Action::SearchFile).collect();
    assert_eq!(shallow, files);
    assert_eq!(
        shallow,
        vec![Step { index: 3, action: Action::SearchFile }, Step { index: 1, action: Action::SearchFile }]
    );
}
