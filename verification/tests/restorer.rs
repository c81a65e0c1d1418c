use multipart_backup::restorer::Restorer;
use multipart_backup::storage::RestoreError;
use multipart_backup::tree::Entry;

fn file(name: &str, content: &[u8]) -> Entry {
    Entry::File { name: name.to_string(), content: content.to_vec() }
}

fn dir(name: &str, entries: Vec<Entry>) -> Entry {
    Entry::Directory { name: name.to_string(), entries }
}

#[test]
fn new_restorer_has_rebuilt_nothing() {
    let restorer = Restorer::new();
    assert_eq!(restorer.depth(), 0);
    assert!(restorer.finish().is_empty());
}

#[test]
fn operations_build_a_tree() {
    let mut restorer = Restorer::new();
    assert_eq!(restorer.enter_directory("root".to_string()), Ok(()));
    assert_eq!(restorer.depth(), 1);
    assert_eq!(restorer.create_file("a.txt".to_string(), b"hello".to_vec()), Ok(()));
    assert_eq!(restorer.enter_directory("sub".to_string()), Ok(()));
    assert_eq!(restorer.depth(), 2);
    assert_eq!(restorer.create_file("b.txt".to_string(), b"world".to_vec()), Ok(()));
    assert_eq!(restorer.leave_directory(), Ok(()));
    assert_eq!(restorer.leave_directory(), Ok(()));
    assert_eq!(restorer.depth(), 0);
    assert_eq!(
        restorer.finish(),
        vec![dir("root", vec![file("a.txt", b"hello"), dir("sub", vec![file("b.txt", b"world")])])]
    );
}

#[test]
fn finish_leaves_what_is_open() {
    let mut restorer = Restorer::new();
    restorer.create_file("top".to_string(), Vec::new()).unwrap();
    restorer.enter_directory("a".to_string()).unwrap();
    restorer.enter_directory("b".to_string()).unwrap();
    restorer.create_file("c".to_string(), vec![1]).unwrap();
    assert_eq!(
        restorer.finish(),
        vec![file("top", b""), dir("a", vec![dir("b", vec![file("c", &[1])])])]
    );
}

#[test]
fn leaving_the_top_level_fails_and_changes_nothing() {
    let mut restorer = Restorer::new();
    restorer.create_file("f".to_string(), vec![1]).unwrap();
    assert_eq!(restorer.leave_directory(), Err(RestoreError::Unbalanced));
    assert_eq!(restorer.depth(), 0);
    assert_eq!(restorer.finish(), vec![file("f", &[1])]);
}

#[test]
fn taken_names_are_refused() {
    let mut restorer = Restorer::new();
    restorer.enter_directory("d".to_string()).unwrap();
    restorer.leave_directory().unwrap();
    restorer.create_file("f".to_string(), vec![1]).unwrap();
    assert_eq!(restorer.enter_directory("d".to_string()), Err(RestoreError::AlreadyExists));
    assert_eq!(restorer.enter_directory("f".to_string()), Err(RestoreError::AlreadyExists));
    assert!(!restorer.admits_file(&"d".to_string()));
    assert!(restorer.admits_file(&"f".to_string()));
    assert!(restorer.admits_file(&"g".to_string()));
    assert_eq!(
        restorer.create_file("d".to_string(), vec![2]),
        Err(RestoreError::AlreadyExists)
    );
    assert_eq!(restorer.depth(), 0);
    assert_eq!(restorer.finish(), vec![dir("d", Vec::new()), file("f", &[1])]);
}

#[test]
fn file_replaces_a_file_of_its_name() {
    let mut restorer = Restorer::new();
    restorer.create_file("f".to_string(), vec![1]).unwrap();
    restorer.create_file("g".to_string(), vec![2]).unwrap();
    restorer.create_file("f".to_string(), vec![3, 4]).unwrap();
    assert_eq!(restorer.finish(), vec![file("f", &[3, 4]), file("g", &[2])]);
}

#[test]
fn names_are_compared_within_one_directory_only() {
    let mut restorer = Restorer::new();
    restorer.enter_directory("x".to_string()).unwrap();
    assert_eq!(restorer.enter_directory("x".to_string()), Ok(()));
    assert_eq!(restorer.create_file("x".to_string(), Vec::new()), Ok(()));
    restorer.leave_directory().unwrap();
    restorer.leave_directory().unwrap();
    assert_eq!(restorer.finish(), vec![dir("x", vec![dir("x", vec![file("x", b"")])])]);
}
