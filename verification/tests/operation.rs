use multipart_backup::operation::name_is_short;
use multipart_backup::operation::StorageOperation;
use multipart_backup::operation::CREATE_FILE;
use multipart_backup::operation::ENTER_DIRECTORY;
use multipart_backup::operation::LEAVE_DIRECTORY;

#[test]
fn enter_directory_payload() {
    let op = StorageOperation::EnterDirectory("root".to_string());
    assert_eq!(op.encode(), vec![0, 0, 0, 0, 4, 0, 0, 0, 0, 0, 0, 0, b'r', b'o', b'o', b't']);
}

#[test]
fn leave_directory_payload() {
    assert_eq!(StorageOperation::LeaveDirectory.encode(), vec![1, 0, 0, 0]);
}

#[test]
fn create_file_payload() {
    let op = StorageOperation::CreateFile("a".to_string(), 0x0102_0304_0506_0708);
    assert_eq!(
        op.encode(),
        vec![2, 0, 0, 0, 1, 0, 0, 0, 0, 0, 0, 0, b'a', 8, 7, 6, 5, 4, 3, 2, 1]
    );
}

#[test]
fn payloads_are_those_of_bincode() {
    let name = "d\u{e9}j\u{e0} vu \u{1f600}".to_string();
    assert_eq!(
        StorageOperation::EnterDirectory(name.clone()).encode(),
        bincode::serialize(&(ENTER_DIRECTORY, name.clone())).unwrap()
    );
    assert_eq!(
        StorageOperation::LeaveDirectory.encode(),
        bincode::serialize(&LEAVE_DIRECTORY).unwrap()
    );
    assert_eq!(
        StorageOperation::CreateFile(name.clone(), 77).encode(),
        bincode::serialize(&(CREATE_FILE, name, 77u64)).unwrap()
    );
}

#[test]
fn decode_gives_back_what_was_encoded() {
    let ops = vec![
        StorageOperation::EnterDirectory(String::new()),
        StorageOperation::EnterDirectory("some directory".to_string()),
        StorageOperation::LeaveDirectory,
        StorageOperation::CreateFile("\u{4e2d}\u{6587}.txt".to_string(), 0),
        StorageOperation::CreateFile("big".to_string(), u64::MAX),
    ];
    for op in ops {
        assert_eq!(StorageOperation::decode(&op.encode()), Some(op));
    }
}

#[test]
fn decode_ignores_bytes_after_the_last_field() {
    let mut bytes = StorageOperation::CreateFile("f".to_string(), 3).encode();
    bytes.extend_from_slice(&[9, 9, 9]);
    assert_eq!(
        StorageOperation::decode(&bytes),
        Some(StorageOperation::CreateFile("f".to_string(), 3))
    );
    assert_eq!(
        StorageOperation::decode(&[1, 0, 0, 0, 55]),
        Some(StorageOperation::LeaveDirectory)
    );
}

#[test]
fn decode_rejects_an_unknown_variant() {
    assert_eq!(StorageOperation::decode(&[3, 0, 0, 0]), None);
    assert_eq!(StorageOperation::decode(&[0, 1, 0, 0, 0, 0, 0, 0, 0, 0, 0, 0]), None);
}

#[test]
fn decode_rejects_a_cut_payload() {
    assert_eq!(StorageOperation::decode(&[]), None);
    assert_eq!(StorageOperation::decode(&[0, 0, 0]), None);
    // The name is cut short.
    assert_eq!(StorageOperation::decode(&[0, 0, 0, 0, 2, 0, 0, 0, 0, 0, 0, 0, b'a']), None);
    // The length of the name is cut short.
    assert_eq!(StorageOperation::decode(&[0, 0, 0, 0, 2, 0, 0, 0]), None);
    // The size is cut short.
    assert_eq!(
        StorageOperation::decode(&[2, 0, 0, 0, 1, 0, 0, 0, 0, 0, 0, 0, b'a', 1, 2, 3, 4, 5, 6, 7]),
        None
    );
}

#[test]
fn decode_rejects_a_name_that_is_not_utf8() {
    assert_eq!(StorageOperation::decode(&[0, 0, 0, 0, 1, 0, 0, 0, 0, 0, 0, 0, 0xff]), None);
}

#[test]
fn decode_rejects_a_name_longer_than_the_payload() {
    let bytes = [0, 0, 0, 0, 0xff, 0xff, 0xff, 0xff, 0xff, 0xff, 0xff, 0xff, b'a'];
    assert_eq!(StorageOperation::decode(&bytes), None);
}

#[test]
fn ordinary_names_are_short() {
    assert!(name_is_short(&String::new()));
    assert!(name_is_short(&"name".to_string()));
}
