//! A listing of what was backed up and of the parts that hold the backup.
//!
//! For every file of a directory tree and for every part, the listing gives
//! a path, a size and the MD5 digest of the content. Paths are sequences of
//! leaf names below the directory listed; a part is named by its number in
//! decimal.

use vstd::prelude::*;
use vstd::string::StringExecFns;
use crate::multipart::contents;
use crate::storage::ArchiveError;
use crate::tree::Entry;
use crate::tree::entry_views;
use crate::tree::EntryView;
use crate::tree::lemma_entry_views;

verus! {

/// The path, size and digest of one file.
#[derive(Debug, PartialEq, Eq)]
pub struct FileReportInfo {
    /// The leaf names that lead to the file, outermost first.
    pub path: Vec<String>,
    /// The number of bytes in the file.
    pub size: u64,
    /// The MD5 digest of the content, in lower-case hexadecimal.
    pub md5: String,
}

/// The files that were backed up and the parts that hold them.
#[derive(Debug, PartialEq, Eq)]
pub struct StorageReport {
    pub backed_up_files: Vec<FileReportInfo>,
    pub storage_files: Vec<FileReportInfo>,
}

/// A [`FileReportInfo`] over mathematical values.
pub struct FileInfoView {
    pub path: Seq<Seq<char>>,
    pub size: u64,
    pub md5: Seq<char>,
}

/// A [`StorageReport`] over mathematical values.
pub struct ReportView {
    pub backed_up_files: Seq<FileInfoView>,
    pub storage_files: Seq<FileInfoView>,
}

/// The names in `path`, as sequences.
pub open spec fn names(path: Seq<String>) -> Seq<Seq<char>> {
    path.map_values(|name: String| name@)
}

impl View for FileReportInfo {
    type V = FileInfoView;

    open spec fn view(&self) -> FileInfoView {
        FileInfoView { path: names(self.path@), size: self.size, md5: self.md5@ }
    }
}

/// The views of `infos`, in order.
pub open spec fn info_views(infos: Seq<FileReportInfo>) -> Seq<FileInfoView> {
    infos.map_values(|info: FileReportInfo| info@)
}

impl View for StorageReport {
    type V = ReportView;

    open spec fn view(&self) -> ReportView {
        ReportView {
            backed_up_files: info_views(self.backed_up_files@),
            storage_files: info_views(self.storage_files@),
        }
    }
}

/// The MD5 digest of `bytes`, written as lower-case hexadecimal digits.
pub uninterp spec fn md5_hex(bytes: Seq<u8>) -> Seq<char>;

/// What the listing says of a file at `path` with the given content.
pub open spec fn file_info(path: Seq<Seq<char>>, content: Seq<u8>) -> FileInfoView {
    FileInfoView { path, size: content.len() as u64, md5: md5_hex(content) }
}

/// The listing of `entry`, which lies in the directory at `path`: a file is
/// listed itself, a directory by its entries in order.
pub open spec fn entry_infos(path: Seq<Seq<char>>, entry: EntryView) -> Seq<FileInfoView>
    decreases entry,
{
    match entry {
        EntryView::File { name, content } => seq![file_info(path.push(name), content)],
        EntryView::Directory { name, entries } => entries_infos(path.push(name), entries),
    }
}

/// The listing of `entries`, which lie in the directory at `path`.
pub open spec fn entries_infos(path: Seq<Seq<char>>, entries: Seq<EntryView>) -> Seq<
    FileInfoView,
>
    decreases entries,
{
    if entries.len() == 0 {
        Seq::empty()
    } else {
        entries_infos(path, entries.drop_last()) + entry_infos(path, entries.last())
    }
}

/// The decimal digit for `d`.
pub open spec fn digit(d: nat) -> char
    recommends
        d < 10,
{
    if d == 0 {
        '0'
    } else if d == 1 {
        '1'
    } else if d == 2 {
        '2'
    } else if d == 3 {
        '3'
    } else if d == 4 {
        '4'
    } else if d == 5 {
        '5'
    } else if d == 6 {
        '6'
    } else if d == 7 {
        '7'
    } else if d == 8 {
        '8'
    } else {
        '9'
    }
}

/// `n` in decimal, without leading zeros.
pub open spec fn decimal(n: nat) -> Seq<char>
    decreases n,
{
    if n < 10 {
        seq![digit(n)]
    } else {
        decimal(n / 10).push(digit(n % 10))
    }
}

/// The listing of `parts`: part `i` is a file named `i` in decimal.
pub open spec fn parts_infos(parts: Seq<Seq<u8>>) -> Seq<FileInfoView> {
    Seq::new(parts.len(), |i: int| file_info(seq![decimal(i as nat)], parts[i]))
}

/// The MD5 digest of `bytes` in lower-case hexadecimal, as the `md5` crate
/// computes and prints it: a fresh `Context`, `consume`, `compute`, and the
/// digest formatted with `{:x}`.
#[verifier::external_body]
fn calculate_md5(bytes: &[u8]) -> (hex: String)
    ensures
        hex@ == md5_hex(bytes@),
{
    let mut hasher = md5::Context::new();
    hasher.consume(bytes);
    format!("{:x}", hasher.compute())
}

/// The text of one decimal digit.
fn digit_text(d: usize) -> (text: &'static str)
    requires
        d < 10,
    ensures
        text@ == seq![digit(d as nat)],
{
    proof {
        reveal_strlit("0");
        reveal_strlit("1");
        reveal_strlit("2");
        reveal_strlit("3");
        reveal_strlit("4");
        reveal_strlit("5");
        reveal_strlit("6");
        reveal_strlit("7");
        reveal_strlit("8");
        reveal_strlit("9");
    }
    let text = if d == 0 {
        "0"
    } else if d == 1 {
        "1"
    } else if d == 2 {
        "2"
    } else if d == 3 {
        "3"
    } else if d == 4 {
        "4"
    } else if d == 5 {
        "5"
    } else if d == 6 {
        "6"
    } else if d == 7 {
        "7"
    } else if d == 8 {
        "8"
    } else {
        "9"
    };
    assert(text@ =~= seq![digit(d as nat)]);
    text
}

/// The name of the part with the given number: the number in decimal.
pub fn part_name(number: usize) -> (name: String)
    ensures
        name@ == decimal(number as nat),
{
    let mut name: String = String::from_str(digit_text(number % 10));
    let mut rest: usize = number / 10;
    while rest > 0
        invariant
            rest > 0 ==> decimal(number as nat) == decimal(rest as nat) + name@,
            rest == 0 ==> decimal(number as nat) == name@,
        decreases rest,
    {
        let ghost tail = name@;
        let d: usize = rest % 10;
        name = String::from_str(digit_text(d)).concat(name.as_str());
        proof {
            let first = seq![digit(d as nat)];
            if rest >= 10 {
                assert(decimal((rest / 10) as nat).push(digit(d as nat)) + tail =~= decimal(
                    (rest / 10) as nat,
                ) + (first + tail));
            } else {
                assert(decimal(rest as nat) =~= first);
            }
        }
        rest = rest / 10;
    }
    name
}

/// Appends to `files_info` the listing of `entries`, which lie in the
/// directory at `path`.
pub fn collect_files_info_recursive(
    path: &Vec<String>,
    entries: &Vec<Entry>,
    files_info: &mut Vec<FileReportInfo>,
)
    ensures
        info_views(final(files_info)@) == info_views(old(files_info)@) + entries_infos(
            names(path@),
            entry_views(entries@),
        ),
    decreases entries,
{
    let ghost views = entry_views(entries@);
    let ghost before = info_views(files_info@);
    proof {
        lemma_entry_views(entries@);
        assert(entries_infos(names(path@), views.take(0)) =~= Seq::<FileInfoView>::empty());
        assert(before + Seq::<FileInfoView>::empty() =~= before);
    }
    let mut i: usize = 0;
    while i < entries.len()
        invariant
            i <= entries@.len(),
            views == entry_views(entries@),
            views.len() == entries@.len(),
            forall|k: int| 0 <= k < entries@.len() ==> (#[trigger] views[k]) == entries@[k]@,
            info_views(files_info@) == before + entries_infos(names(path@), views.take(i as int)),
        decreases entries@.len() - i,
    {
        let ghost listed = info_views(files_info@);
        let mut entry_path: Vec<String> = Vec::new();
        let mut k: usize = 0;
        while k < path.len()
            invariant
                k <= path@.len(),
                entry_path@.len() == k,
                forall|j: int| 0 <= j < k ==> (#[trigger] entry_path@[j])@ == path@[j]@,
            decreases path@.len() - k,
        {
            entry_path.push(path[k].clone());
            k = k + 1;
        }
        assert(names(entry_path@) =~= names(path@));
        proof {
            let first = views.take(i + 1);
            assert(first.drop_last() =~= views.take(i as int));
            assert(entries_infos(names(path@), first) == entries_infos(
                names(path@),
                first.drop_last(),
            ) + entry_infos(names(path@), first.last()));
            assert(decreases_to!(entries => entries[i as int]));
        }
        match &entries[i] {
            Entry::File { name, content } => {
                entry_path.push(name.clone());
                assert(names(entry_path@) =~= names(path@).push(name@));
                assert(entries@[i as int]@ == (EntryView::File { name: name@, content: content@ }));
                let info = FileReportInfo {
                    path: entry_path,
                    size: content.len() as u64,
                    md5: calculate_md5(content.as_slice()),
                };
                files_info.push(info);
                assert(info_views(files_info@) =~= listed + seq![info@]);
            },
            Entry::Directory { name, entries: inner } => {
                entry_path.push(name.clone());
                assert(names(entry_path@) =~= names(path@).push(name@));
                assert(entries@[i as int]@ == (EntryView::Directory {
                    name: name@,
                    entries: entry_views(inner@),
                }));
                assert(decreases_to!(entries[i as int] => inner));
                collect_files_info_recursive(&entry_path, inner, files_info);
            },
        }
        assert(before + entries_infos(names(path@), views.take(i as int)) + entry_infos(
            names(path@),
            views[i as int],
        ) =~= before + (entries_infos(names(path@), views.take(i as int)) + entry_infos(
            names(path@),
            views[i as int],
        )));
        i = i + 1;
    }
    assert(views.take(i as int) =~= views);
}

/// The listing of the files below the directory `dir`, with paths that
/// begin below `dir`. Fails if `dir` is a file.
pub fn collect_files_info(dir: &Entry) -> (result: Result<Vec<FileReportInfo>, ArchiveError>)
    ensures
        match dir@ {
            EntryView::File { .. } => result == Err::<Vec<FileReportInfo>, ArchiveError>(
                ArchiveError::NotADirectory,
            ),
            EntryView::Directory { name, entries } => result is Ok && info_views(result->Ok_0@)
                == entries_infos(Seq::empty(), entries),
        },
{
    match dir {
        Entry::File { .. } => Err(ArchiveError::NotADirectory),
        Entry::Directory { name, entries } => {
            let mut files_info: Vec<FileReportInfo> = Vec::new();
            let path: Vec<String> = Vec::new();
            assert(names(path@) =~= Seq::<Seq<char>>::empty());
            assert(info_views(files_info@) =~= Seq::<FileInfoView>::empty());
            assert(dir@ == (EntryView::Directory { name: name@, entries: entry_views(entries@) }));
            collect_files_info_recursive(&path, entries, &mut files_info);
            assert(Seq::<FileInfoView>::empty() + entries_infos(
                Seq::empty(),
                entry_views(entries@),
            ) =~= entries_infos(Seq::empty(), entry_views(entries@)));
            Ok(files_info)
        },
    }
}

/// The listing of `parts`, each as a file named by its number.
pub fn collect_parts_info(parts: &Vec<Vec<u8>>) -> (infos: Vec<FileReportInfo>)
    ensures
        info_views(infos@) == parts_infos(contents(parts@)),
{
    let mut infos: Vec<FileReportInfo> = Vec::new();
    let mut i: usize = 0;
    while i < parts.len()
        invariant
            i <= parts@.len(),
            infos@.len() == i,
            forall|k: int|
                0 <= k < i ==> (#[trigger] infos@[k])@ == file_info(
                    seq![decimal(k as nat)],
                    parts@[k]@,
                ),
        decreases parts@.len() - i,
    {
        let mut path: Vec<String> = Vec::new();
        path.push(part_name(i));
        assert(names(path@) =~= seq![decimal(i as nat)]);
        let info = FileReportInfo {
            path,
            size: parts[i].len() as u64,
            md5: calculate_md5(parts[i].as_slice()),
        };
        infos.push(info);
        i = i + 1;
    }
    assert(info_views(infos@) =~= parts_infos(contents(parts@)));
    infos
}

/// The report on a backup of the directory `origin` that is held in `parts`.
/// Fails if `origin` is a file.
pub fn backup_report(origin: &Entry, parts: &Vec<Vec<u8>>) -> (result: Result<
    StorageReport,
    ArchiveError,
>)
    ensures
        match origin@ {
            EntryView::File { .. } => result == Err::<StorageReport, ArchiveError>(
                ArchiveError::NotADirectory,
            ),
            EntryView::Directory { name, entries } => result is Ok && result->Ok_0@ == (ReportView {
                backed_up_files: entries_infos(Seq::empty(), entries),
                storage_files: parts_infos(contents(parts@)),
            }),
        },
{
    let origin_files = match collect_files_info(origin) {
        Ok(files) => files,
        Err(error) => {
            return Err(error);
        },
    };
    let destination_files = collect_parts_info(parts);
    Ok(StorageReport { backed_up_files: origin_files, storage_files: destination_files })
}

} // verus!
