use multipart_backup::backup;
use multipart_backup::report::collect_files_info;
use multipart_backup::report::collect_parts_info;
use multipart_backup::restore;
use multipart_backup::storage::ArchiveError;
use multipart_backup::storage::RestoreError;
use multipart_backup::storage::Restored;
use multipart_backup::struct_stream::StreamError;
use multipart_backup::tree::Entry;

fn file(name: &str, content: &[u8]) -> Entry {
    Entry::File { name: name.to_string(), content: content.to_vec() }
}

fn dir(name: &str, entries: Vec<Entry>) -> Entry {
    Entry::Directory { name: name.to_string(), entries }
}

fn scenario() -> Entry {
    dir("root", vec![file("a.txt", b"hello"), dir("sub", vec![file("b.txt", b"world")])])
}

#[test]
fn backup_in_parts_of_five_bytes() {
    let done = backup(&scenario(), 5, false).unwrap();
    assert!(done.report.is_none());
    // Six records of 20, 29, 19, 29, 8 and 8 bytes and two contents of 5.
    let total = 20 + 29 + 5 + 19 + 29 + 5 + 8 + 8;
    assert_eq!(done.parts.concat().len(), total);
    assert_eq!(done.parts.len(), 25);
    for part in &done.parts[..24] {
        assert_eq!(part.len(), 5);
    }
    assert_eq!(done.parts[24].len(), 3);
    assert_eq!(
        restore(done.parts),
        Ok(Restored { entries: vec![scenario()], stop: StreamError::EndOfStream })
    );
}

#[test]
fn restore_does_not_depend_on_the_part_size() {
    let tree = dir(
        "top",
        vec![
            file("data", &(0..=255u8).collect::<Vec<u8>>()),
            dir("inner", vec![file("x", b"x"), dir("hollow", Vec::new())]),
            file("", b"unnamed"),
        ],
    );
    let whole = backup(&tree, 1_000_000, false).unwrap().parts;
    assert_eq!(whole.len(), 1);
    for max in [1u64, 2, 3, 4, 5, 7, 16, 64, 1000] {
        let parts = backup(&tree, max, false).unwrap().parts;
        assert_eq!(parts.concat(), whole[0]);
        assert!(parts.iter().all(|part| part.len() as u64 <= max));
        assert_eq!(restore(parts), restore(whole.clone()));
    }
    assert_eq!(
        restore(whole),
        Ok(Restored { entries: vec![tree], stop: StreamError::EndOfStream })
    );
}

#[test]
fn backup_of_an_empty_directory() {
    let tree = dir("nothing here", Vec::new());
    let done = backup(&tree, 1, true).unwrap();
    // One record of 28 bytes enters the directory, one of 8 leaves it.
    assert_eq!(done.parts.len(), 36);
    let report = done.report.unwrap();
    assert!(report.backed_up_files.is_empty());
    assert_eq!(report.storage_files.len(), 36);
    assert_eq!(
        restore(done.parts),
        Ok(Restored { entries: vec![tree], stop: StreamError::EndOfStream })
    );
}

#[test]
fn backup_with_a_report() {
    let done = backup(&scenario(), 50, true).unwrap();
    let report = done.report.unwrap();
    assert_eq!(report.backed_up_files, collect_files_info(&scenario()).unwrap());
    assert_eq!(report.storage_files, collect_parts_info(&done.parts));
    assert_eq!(report.backed_up_files.len(), 2);
    assert_eq!(report.storage_files.len(), 3);
    assert_eq!(report.storage_files[2].path, vec!["2".to_string()]);
    assert_eq!(report.storage_files[2].size, 23);
}

#[test]
fn backup_of_a_file_fails() {
    assert_eq!(backup(&file("f", b"content"), 10, false), Err(ArchiveError::NotADirectory));
    assert_eq!(backup(&file("f", b"content"), 10, true), Err(ArchiveError::NotADirectory));
}

#[test]
fn restore_of_no_parts() {
    assert_eq!(
        restore(Vec::new()),
        Ok(Restored { entries: Vec::new(), stop: StreamError::EndOfStream })
    );
}

#[test]
fn restore_of_a_backup_without_its_last_part() {
    let mut parts = backup(&scenario(), 5, false).unwrap().parts;
    parts.pop();
    // The record that leaves `root` is cut: `root` stays as it was.
    assert_eq!(
        restore(parts),
        Ok(Restored { entries: vec![scenario()], stop: StreamError::Truncated })
    );
}

#[test]
fn restore_of_a_backup_cut_inside_a_file() {
    let mut parts = backup(&scenario(), 5, false).unwrap().parts;
    // 20 bytes enter `root`, 29 create `a.txt`, 5 are its content.
    parts.truncate(10);
    assert_eq!(restore(parts), Err(RestoreError::Truncated));
}

#[test]
fn restore_of_parts_that_leave_too_often() {
    let mut parts = backup(&scenario(), 5, false).unwrap().parts;
    parts.push(vec![4, 0, 0, 0, 1]);
    parts.push(vec![0, 0, 0]);
    assert_eq!(restore(parts), Err(RestoreError::Unbalanced));
}
