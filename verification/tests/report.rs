use multipart_backup::report::backup_report;
use multipart_backup::report::collect_files_info;
use multipart_backup::report::collect_files_info_recursive;
use multipart_backup::report::collect_parts_info;
use multipart_backup::report::part_name;
use multipart_backup::report::FileReportInfo;
use multipart_backup::report::StorageReport;
use multipart_backup::storage::ArchiveError;
use multipart_backup::tree::Entry;

fn file(name: &str, content: &[u8]) -> Entry {
    Entry::File { name: name.to_string(), content: content.to_vec() }
}

fn dir(name: &str, entries: Vec<Entry>) -> Entry {
    Entry::Directory { name: name.to_string(), entries }
}

fn info(path: &[&str], size: u64, md5: &str) -> FileReportInfo {
    FileReportInfo {
        path: path.iter().map(|name| name.to_string()).collect(),
        size,
        md5: md5.to_string(),
    }
}

const MD5_EMPTY: &str = "d41d8cd98f00b204e9800998ecf8427e";
const MD5_HELLO: &str = "5d41402abc4b2a76b9719d911017c592";
const MD5_WORLD: &str = "7d793037a0760186574b0282f2f435e7";

#[test]
fn part_names_are_decimal() {
    assert_eq!(part_name(0), "0");
    assert_eq!(part_name(7), "7");
    assert_eq!(part_name(10), "10");
    assert_eq!(part_name(109), "109");
    assert_eq!(part_name(4_294_967_295), "4294967295");
    for number in [0usize, 1, 9, 10, 11, 99, 100, 101, 12345, 900_000] {
        assert_eq!(part_name(number), number.to_string());
    }
}

#[test]
fn files_are_listed_in_walk_order() {
    let tree = dir(
        "root",
        vec![
            file("a.txt", b"hello"),
            dir("sub", vec![file("b.txt", b"world"), dir("deeper", vec![file("c", b"")])]),
            dir("empty", Vec::new()),
            file("z", b"hello"),
        ],
    );
    assert_eq!(
        collect_files_info(&tree),
        Ok(vec![
            info(&["a.txt"], 5, MD5_HELLO),
            info(&["sub", "b.txt"], 5, MD5_WORLD),
            info(&["sub", "deeper", "c"], 0, MD5_EMPTY),
            info(&["z"], 5, MD5_HELLO),
        ])
    );
}

#[test]
fn listing_a_file_fails() {
    assert_eq!(collect_files_info(&file("f", b"x")), Err(ArchiveError::NotADirectory));
    assert_eq!(backup_report(&file("f", b"x"), &Vec::new()), Err(ArchiveError::NotADirectory));
}

#[test]
fn listing_appends_below_the_given_path() {
    let mut infos = vec![info(&["before"], 1, "x")];
    let path = vec!["top".to_string(), "next".to_string()];
    collect_files_info_recursive(&path, &vec![file("f", b"hello")], &mut infos);
    assert_eq!(infos, vec![info(&["before"], 1, "x"), info(&["top", "next", "f"], 5, MD5_HELLO)]);
}

#[test]
fn parts_are_listed_by_number() {
    let parts = vec![b"hello".to_vec(), b"world".to_vec(), Vec::new()];
    assert_eq!(
        collect_parts_info(&parts),
        vec![info(&["0"], 5, MD5_HELLO), info(&["1"], 5, MD5_WORLD), info(&["2"], 0, MD5_EMPTY)]
    );
}

#[test]
fn report_lists_files_and_parts() {
    let tree = dir("root", vec![file("a.txt", b"hello")]);
    let parts = vec![b"world".to_vec()];
    assert_eq!(
        backup_report(&tree, &parts),
        Ok(StorageReport {
            backed_up_files: vec![info(&["a.txt"], 5, MD5_HELLO)],
            storage_files: vec![info(&["0"], 5, MD5_WORLD)],
        })
    );
}
