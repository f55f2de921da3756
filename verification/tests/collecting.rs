use flatpad::collect::{move_file, move_files_to_current_dir, DirListing, FsTree};

fn listing_of(names: &[&str]) -> DirListing {
    let mut d = DirListing::new();
    for n in names {
        assert!(d.add_name(n.as_bytes().to_vec()));
    }
    d
}

fn names_of(d: &DirListing) -> Vec<String> {
    let mut out: Vec<String> = Vec::new();
    let mut i = 0;
    while i < d.len() {
        out.push(String::from_utf8(d.name_at(i).clone()).unwrap());
        i += 1;
    }
    out
}

fn file(name: &str) -> FsTree {
    FsTree::File(name.as_bytes().to_vec())
}

#[test]
fn move_without_collision_keeps_name() {
    let mut d = listing_of(&[]);
    let t = move_file(&b"a.txt".to_vec(), &mut d);
    assert_eq!(t, b"a.txt".to_vec());
    assert_eq!(names_of(&d), vec!["a.txt"]);
}

#[test]
fn move_collisions_count_up() {
    let mut d = listing_of(&[]);
    move_file(&b"a.txt".to_vec(), &mut d);
    let second = move_file(&b"a.txt".to_vec(), &mut d);
    let third = move_file(&b"a.txt".to_vec(), &mut d);
    assert_eq!(second, b"a_1.txt".to_vec());
    assert_eq!(third, b"a_2.txt".to_vec());
    assert_eq!(names_of(&d), vec!["a.txt", "a_1.txt", "a_2.txt"]);
}

#[test]
fn move_collision_without_extension() {
    let mut d = listing_of(&["notes"]);
    let t = move_file(&b"notes".to_vec(), &mut d);
    assert_eq!(t, b"notes_1".to_vec());
}

#[test]
fn move_collision_hidden_file_has_no_extension() {
    let mut d = listing_of(&[".cfg"]);
    let t = move_file(&b".cfg".to_vec(), &mut d);
    assert_eq!(t, b".cfg_1".to_vec());
}

#[test]
fn move_collision_splits_at_last_dot() {
    let mut d = listing_of(&["a.tar.gz"]);
    let t = move_file(&b"a.tar.gz".to_vec(), &mut d);
    assert_eq!(t, b"a.tar_1.gz".to_vec());
}

#[test]
fn move_takes_smallest_free_counter() {
    let mut d = listing_of(&["a.txt", "a_1.txt", "a_3.txt"]);
    let t = move_file(&b"a.txt".to_vec(), &mut d);
    assert_eq!(t, b"a_2.txt".to_vec());
}

#[test]
fn move_ignores_counter_names_when_own_name_is_free() {
    let mut d = listing_of(&["a_1.txt", "a_2.txt"]);
    let t = move_file(&b"a.txt".to_vec(), &mut d);
    assert_eq!(t, b"a.txt".to_vec());
}

#[test]
fn walk_flattens_nested_tree() {
    let tree = FsTree::Dir(vec![
        file("1-a.txt"),
        FsTree::Dir(vec![file("2-b.txt"), FsTree::Dir(vec![file("3-c.txt")])]),
    ]);
    let mut d = DirListing::new();
    let log = move_files_to_current_dir(&tree, &mut d);
    assert_eq!(log, vec![b"1-a.txt".to_vec(), b"2-b.txt".to_vec(), b"3-c.txt".to_vec()]);
    assert_eq!(names_of(&d), vec!["1-a.txt", "2-b.txt", "3-c.txt"]);
}

#[test]
fn walk_renames_equal_names_from_different_directories() {
    let tree = FsTree::Dir(vec![file("a.txt"), FsTree::Dir(vec![file("a.txt")])]);
    let mut d = DirListing::new();
    let log = move_files_to_current_dir(&tree, &mut d);
    assert_eq!(log, vec![b"a.txt".to_vec(), b"a_1.txt".to_vec()]);
    assert_eq!(names_of(&d), vec!["a.txt", "a_1.txt"]);
}

#[test]
fn walk_keeps_existing_destination_entries() {
    let tree = FsTree::Dir(vec![file("a.txt")]);
    let mut d = listing_of(&["a.txt"]);
    let log = move_files_to_current_dir(&tree, &mut d);
    assert_eq!(log, vec![b"a_1.txt".to_vec()]);
    assert_eq!(names_of(&d), vec!["a.txt", "a_1.txt"]);
}

#[test]
fn empty_directory_moves_nothing() {
    let tree = FsTree::Dir(Vec::new());
    let mut d = DirListing::new();
    let log = move_files_to_current_dir(&tree, &mut d);
    assert!(log.is_empty());
    assert_eq!(d.len(), 0);
}
