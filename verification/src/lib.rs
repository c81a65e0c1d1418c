//! Splits a directory tree into size-capped parts and rebuilds it from them.
//!
//! The crate is layered. [`channel`] defines what a byte sink and a byte
//! source are. [`multipart`] provides the sink and the source that spread one
//! byte stream over numbered parts of bounded size. [`struct_stream`] frames
//! records and carries raw spans on any sink or source. [`operation`] gives
//! the records their meaning, [`tree`] holds directory trees in memory, and
//! [`storage`] turns a tree into a stream of records and spans and back;
//! [`interpretation`] says what such a stream means, and [`restorer`] keeps
//! the state of a restore. [`report`] lists what a backup holds.
//!
//! Everything works on values in memory: a tree to back up is an
//! [`tree::Entry`], and a backup is the list of its parts.

use vstd::prelude::*;
use crate::interpretation::lemma_restored_archive;
use crate::interpretation::Outcome;
use crate::interpretation::restored;
use crate::interpretation::top_scope;
use crate::multipart::contents;
use crate::multipart::joined;
use crate::multipart::MultipartReader;
use crate::multipart::MultipartWriter;
use crate::multipart::well_split;
use crate::report::backup_report;
use crate::report::entries_infos;
use crate::report::parts_infos;
use crate::report::ReportView;
use crate::report::StorageReport;
use crate::storage::ArchiveError;
use crate::storage::Restored;
use crate::storage::RestoreError;
use crate::storage::StorageReader;
use crate::storage::StorageWriter;
use crate::struct_stream::StreamError;
use crate::tree::archive;
use crate::tree::encodable;
use crate::tree::Entry;
use crate::tree::entry_views;
use crate::tree::EntryView;
use crate::tree::well_named;

pub mod channel;
pub mod interpretation;
pub mod multipart;
pub mod operation;
pub mod report;
pub mod restorer;
pub mod storage;
pub mod struct_stream;
pub mod tree;

verus! {

/// A backup: the parts that hold the archive, and the report if one was
/// asked for.
#[derive(Debug, PartialEq, Eq)]
pub struct Backup {
    /// The parts, in order of their numbers.
    pub parts: Vec<Vec<u8>>,
    /// The listing of the files backed up and of the parts.
    pub report: Option<StorageReport>,
}

/// Backs up the directory `origin` into parts of at most `max_file_size`
/// bytes, and lists the backup if `write_report` is set.
///
/// Fails if `origin` is a file, or if a name in it is too long for a record.
pub fn backup(origin: &Entry, max_file_size: u64, write_report: bool) -> (result: Result<
    Backup,
    ArchiveError,
>)
    requires
        max_file_size >= 1,
    ensures
        match result {
            Ok(done) => {
                &&& origin@ is Directory
                &&& encodable(origin@)
                &&& joined(contents(done.parts@)) == archive(origin@)
                &&& well_split(contents(done.parts@), max_file_size)
                &&& done.report is Some <==> write_report
                &&& write_report ==> done.report->0@ == (ReportView {
                    backed_up_files: entries_infos(Seq::empty(), origin@->entries),
                    storage_files: parts_infos(contents(done.parts@)),
                })
            },
            Err(error) => error == (if origin@ is File {
                ArchiveError::NotADirectory
            } else {
                ArchiveError::TooLong
            }) && !(origin@ is Directory && encodable(origin@)),
        },
{
    let writer = MultipartWriter::new(max_file_size);
    let mut storage_writer = StorageWriter::new(writer);
    assert(joined(writer@) =~= Seq::<u8>::empty());
    match storage_writer.write_directory(origin) {
        Ok(()) => {},
        Err(error) => {
            return Err(error);
        },
    }
    let writer = storage_writer.into_inner();
    assert(Seq::<u8>::empty() + archive(origin@) =~= archive(origin@));
    let parts = writer.into_parts();
    let report = if write_report {
        match backup_report(origin, &parts) {
            Ok(report) => Some(report),
            Err(error) => {
                return Err(error);
            },
        }
    } else {
        None
    };
    Ok(Backup { parts, report })
}

/// Rebuilds what the backup held in `parts` describes.
///
/// Reading stops, and what was rebuilt by then is returned, where the parts
/// end or no further operation can be read. Fails if the content of a file
/// is cut short, or if a record leaves a directory when none is open.
pub fn restore(parts: Vec<Vec<u8>>) -> (result: Result<Restored, RestoreError>)
    ensures
        match result {
            Ok(done) => restored(Seq::empty(), top_scope(), joined(contents(parts@))).result
                == Ok::<(Seq<EntryView>, StreamError), RestoreError>(
                (entry_views(done.entries@), done.stop),
            ),
            Err(error) => restored(Seq::empty(), top_scope(), joined(contents(parts@))).result
                == Err::<(Seq<EntryView>, StreamError), RestoreError>(error),
        },
{
    let reader = MultipartReader::new(parts);
    let mut storage_reader = StorageReader::new(reader);
    storage_reader.interpret()
}

/// Restoring the backup of a tree gives back exactly that tree: whatever
/// parts hold the archive of `tree`, well split under whatever limit,
/// interpreting them rebuilds `tree` alone and stops at the end of the stream
/// with nothing left unread. The tree is one that can be archived and that a
/// file system can hold: no directory has two entries of one name.
pub proof fn lemma_restore_backup(tree: EntryView, max_file_size: u64, parts: Seq<Seq<u8>>)
    requires
        encodable(tree),
        well_named(tree),
        max_file_size >= 1,
        well_split(parts, max_file_size),
        joined(parts) == archive(tree),
    ensures
        restored(Seq::empty(), top_scope(), joined(parts)) == (Outcome {
            result: Ok((seq![tree], StreamError::EndOfStream)),
            rest: Seq::empty(),
        }),
{
    lemma_restored_archive(tree);
}

/// What is restored does not depend on the size limit of the parts: two
/// backups of one tree, split under different limits, restore alike, though
/// records and contents straddle their parts differently.
pub proof fn lemma_limit_irrelevant(
    tree: EntryView,
    small: u64,
    small_parts: Seq<Seq<u8>>,
    large: u64,
    large_parts: Seq<Seq<u8>>,
)
    requires
        well_split(small_parts, small),
        joined(small_parts) == archive(tree),
        well_split(large_parts, large),
        joined(large_parts) == archive(tree),
    ensures
        restored(Seq::empty(), top_scope(), joined(small_parts)) == restored(
            Seq::empty(),
            top_scope(),
            joined(large_parts),
        ),
{
}

} // verus!
