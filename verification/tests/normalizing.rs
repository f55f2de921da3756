use flatpad::collect::{move_files_to_current_dir, DirListing, FsTree};
use flatpad::normalize::{normalize_entry, pad_and_rename_files, RenameOutcome};

fn listing_of(names: &[&str]) -> DirListing {
    let mut d = DirListing::new();
    for n in names {
        assert!(d.add_name(n.as_bytes().to_vec()));
    }
    d
}

fn names_of(d: &DirListing) -> Vec<String> {
    let mut out: Vec<String> = Vec::new();
    let mut i = 0;
    while i < d.len() {
        out.push(String::from_utf8(d.name_at(i).clone()).unwrap());
        i += 1;
    }
    out
}

#[test]
fn normalize_pads_each_entry() {
    let mut d = listing_of(&["1-a.txt", "20-b"]);
    let log = pad_and_rename_files(&mut d);
    assert_eq!(names_of(&d), vec!["001-a.txt", "020-b"]);
    assert!(matches!(&log[0], RenameOutcome::Renamed(n) if n == b"001-a.txt"));
    assert!(matches!(&log[1], RenameOutcome::Renamed(n) if n == b"020-b"));
}

#[test]
fn normalize_skips_on_conflict() {
    let mut d = listing_of(&["007-a.txt", "7-a.txt"]);
    let log = pad_and_rename_files(&mut d);
    assert_eq!(names_of(&d), vec!["007-a.txt", "7-a.txt"]);
    assert!(matches!(log[0], RenameOutcome::AlreadyFormatted));
    assert!(matches!(&log[1], RenameOutcome::Conflict(n) if n == b"007-a.txt"));
}

#[test]
fn normalize_reports_untouchable_names() {
    let mut d = listing_of(&["no_dash.txt", "abcd-x"]);
    let log = pad_and_rename_files(&mut d);
    assert_eq!(names_of(&d), vec!["no_dash.txt", "abcd-x"]);
    assert!(matches!(log[0], RenameOutcome::NoTransform));
    assert!(matches!(log[1], RenameOutcome::NoTransform));
}

#[test]
fn normalize_single_entry() {
    let mut d = listing_of(&["9-z"]);
    let outcome = normalize_entry(&mut d, 0);
    assert!(matches!(&outcome, RenameOutcome::Renamed(n) if n == b"009-z"));
    assert_eq!(names_of(&d), vec!["009-z"]);
}

#[test]
fn second_pass_changes_nothing() {
    let mut d = listing_of(&["1-a.txt", "007-a.txt", "7-a.txt", "plain", "ab-c"]);
    pad_and_rename_files(&mut d);
    let after_once = names_of(&d);
    let log = pad_and_rename_files(&mut d);
    assert_eq!(names_of(&d), after_once);
    for o in &log {
        assert!(!matches!(o, RenameOutcome::Renamed(_)));
    }
}

#[test]
fn collect_then_normalize_end_to_end() {
    let tree = FsTree::Dir(vec![
        FsTree::File(b"1-a.txt".to_vec()),
        FsTree::Dir(vec![
            FsTree::File(b"2-b.txt".to_vec()),
            FsTree::Dir(vec![FsTree::File(b"3-c.txt".to_vec())]),
        ]),
    ]);
    let mut d = DirListing::new();
    move_files_to_current_dir(&tree, &mut d);
    assert_eq!(names_of(&d), vec!["1-a.txt", "2-b.txt", "3-c.txt"]);
    pad_and_rename_files(&mut d);
    assert_eq!(names_of(&d), vec!["001-a.txt", "002-b.txt", "003-c.txt"]);
}

#[test]
fn collision_suffix_then_normalize() {
    let tree = FsTree::Dir(vec![
        FsTree::File(b"3-a.txt".to_vec()),
        FsTree::Dir(vec![FsTree::File(b"3-a.txt".to_vec())]),
    ]);
    let mut d = DirListing::new();
    move_files_to_current_dir(&tree, &mut d);
    assert_eq!(names_of(&d), vec!["3-a.txt", "3-a_1.txt"]);
    pad_and_rename_files(&mut d);
    assert_eq!(names_of(&d), vec!["003-a.txt", "003-a_1.txt"]);
}
