//! Archiving a directory tree into a byte stream and rebuilding it.
//!
//! The writer walks a tree and emits, for each directory, the record that
//! enters it, its entries, and the record that leaves it; for each file, the
//! record that creates it and then its content. The reader interprets such a
//! stream record by record and hands each operation to a
//! [`Restorer`](crate::restorer::Restorer).

use vstd::prelude::*;
use vstd::slice::slice_subrange;
use crate::channel::ByteSink;
use crate::channel::ByteSource;
use crate::interpretation::restored;
use crate::interpretation::top_scope;
use crate::operation::lemma_payload_len;
use crate::operation::name_fits;
use crate::operation::name_is_short;
use crate::operation::OperationView;
use crate::operation::payload;
use crate::operation::StorageOperation;
use crate::restorer::Restorer;
use crate::struct_stream::frame;
use crate::struct_stream::StreamError;
use crate::struct_stream::StructReader;
use crate::struct_stream::StructWriter;
use crate::tree::archive;
use crate::tree::archive_all;
use crate::tree::encodable;
use crate::tree::Entry;
use crate::tree::entry_views;
use crate::tree::EntryView;
use crate::tree::file_archive;
use crate::tree::lemma_all_encodable;
use crate::tree::lemma_archive_all_step;
use crate::tree::lemma_entry_views;

verus! {

/// The largest number of content bytes written or read as one span.
pub const CHUNK_SIZE: usize = 1024 * 1024;

/// Why a tree could not be archived.
#[derive(Debug, Clone, Copy, PartialEq, Eq, Structural)]
pub enum ArchiveError {
    /// A directory was to be written and the entry is a file.
    NotADirectory,
    /// A file was to be written and the entry is a directory.
    NotAFile,
    /// A name in the tree is too long for a record.
    TooLong,
}

/// Whether every record that archives `entry` can be written.
pub fn can_archive(entry: &Entry) -> (can: bool)
    ensures
        can == encodable(entry@),
    decreases entry,
{
    match entry {
        Entry::File { name, content } => {
            assert(content@.len() == content.len());
            name_is_short(name)
        },
        Entry::Directory { name, entries } => {
            assert(entry@ == (EntryView::Directory {
                name: name@,
                entries: entry_views(entries@),
            }));
            if !name_is_short(name) {
                return false;
            }
            proof {
                lemma_entry_views(entries@);
            }
            let mut i: usize = 0;
            while i < entries.len()
                invariant
                    i <= entries@.len(),
                    entry == (Entry::Directory { name: *name, entries: *entries }),
                    entry@ == (EntryView::Directory {
                        name: name@,
                        entries: entry_views(entries@),
                    }),
                    name_fits(name@),
                    entry_views(entries@).len() == entries@.len(),
                    forall|k: int| 0 <= k < i ==> encodable(#[trigger] entries@[k]@),
                    forall|k: int|
                        0 <= k < entries@.len() ==> (#[trigger] entry_views(entries@)[k])
                            == entries@[k]@,
                decreases entries@.len() - i,
            {
                proof {
                    assert(decreases_to!(entries => entries[i as int]));
                    assert(decreases_to!(entry => entry->entries));
                }
                if !can_archive(&entries[i]) {
                    proof {
                        lemma_all_encodable(entry_views(entries@));
                        assert(entry_views(entries@)[i as int] == entries@[i as int]@);
                    }
                    return false;
                }
                i = i + 1;
            }
            proof {
                lemma_all_encodable(entry_views(entries@));
                assert forall|k: int| 0 <= k < entries@.len() implies encodable(
                    #[trigger] entry_views(entries@)[k],
                ) by {
                    assert(encodable(entries@[k]@));
                }
            }
            true
        },
    }
}

/// Archives directory trees into a byte sink.
pub struct StorageWriter<W: ByteSink>(StructWriter<W>);

impl<W: ByteSink> StorageWriter<W> {
    /// The record writer underneath.
    pub closed spec fn writer(&self) -> StructWriter<W> {
        self.0
    }

    /// The invariant of the sink underneath.
    pub open spec fn inv(&self) -> bool {
        self.writer().inv()
    }

    /// Every byte written so far.
    pub open spec fn stream(&self) -> Seq<u8> {
        self.writer().stream()
    }

    /// The settings of the sink underneath.
    pub open spec fn settings(&self) -> W::Settings {
        self.writer().sink().settings()
    }

    /// A writer that archives into `writer`.
    pub fn new(writer: W) -> (out: Self)
        ensures
            out.writer().sink() == writer,
    {
        StorageWriter(StructWriter::new(writer))
    }

    /// Writes the record that creates the file, then its content in spans of
    /// at most `CHUNK_SIZE` bytes.
    fn emit_file(&mut self, name: &String, content: &Vec<u8>)
        requires
            old(self).inv(),
            name_fits(name@),
        ensures
            final(self).inv(),
            final(self).settings() == old(self).settings(),
            final(self).stream() == old(self).stream() + file_archive(name@, content@),
    {
        let operation = StorageOperation::CreateFile(name.clone(), content.len() as u64);
        let ghost record = payload(operation@);
        proof {
            lemma_payload_len(operation@);
        }
        let written = self.0.write_operation(&operation);
        assert(written is Ok);
        let mut done: usize = 0;
        while done < content.len()
            invariant
                done <= content@.len(),
                self.inv(),
                self.settings() == old(self).settings(),
                self.stream() == old(self).stream() + frame(record) + content@.take(done as int),
            decreases content@.len() - done,
        {
            let left: usize = content.len() - done;
            let n: usize = if left > CHUNK_SIZE {
                CHUNK_SIZE
            } else {
                left
            };
            let chunk = slice_subrange(content.as_slice(), done, done + n);
            self.0.write_bytes(chunk);
            assert(content@.take(done as int) + chunk@ =~= content@.take(done + n));
            done = done + n;
        }
        assert(content@.take(done as int) =~= content@);
        assert(old(self).stream() + frame(record) + content@ =~= old(self).stream() + (frame(
            record,
        ) + content@));
    }

    /// Writes the record that enters the directory, then its entries, then
    /// the record that leaves it.
    fn emit_directory(&mut self, dir: &Entry)
        requires
            old(self).inv(),
            dir is Directory,
            encodable(dir@),
        ensures
            final(self).inv(),
            final(self).settings() == old(self).settings(),
            final(self).stream() == old(self).stream() + archive(dir@),
        decreases dir,
    {
        match dir {
            Entry::Directory { name, entries } => {
                let ghost views = entry_views(entries@);
                proof {
                    lemma_entry_views(entries@);
                    assert(dir@ == (EntryView::Directory { name: name@, entries: views }));
                    lemma_payload_len(OperationView::EnterDirectory(name@));
                    lemma_payload_len(OperationView::LeaveDirectory);
                }
                let ghost enter = payload(OperationView::EnterDirectory(name@));
                let ghost leave = payload(OperationView::LeaveDirectory);
                let written = self.0.write_operation(
                    &StorageOperation::EnterDirectory(name.clone()),
                );
                assert(written is Ok);
                let mut i: usize = 0;
                assert(archive_all(views.take(0)) =~= Seq::<u8>::empty());
                assert(old(self).stream() + frame(enter) + Seq::<u8>::empty() =~= old(
                    self,
                ).stream() + frame(enter));
                while i < entries.len()
                    invariant
                        i <= entries@.len(),
                        dir == (Entry::Directory { name: *name, entries: *entries }),
                        encodable(dir@),
                        views == entry_views(entries@),
                        views.len() == entries@.len(),
                        forall|k: int| 0 <= k < entries@.len() ==> (#[trigger] views[k])
                            == entries@[k]@,
                        self.inv(),
                        self.settings() == old(self).settings(),
                        self.stream() == old(self).stream() + frame(enter) + archive_all(
                            views.take(i as int),
                        ),
                    decreases entries@.len() - i,
                {
                    let ghost before = self.stream();
                    proof {
                        lemma_archive_all_step(views, i as int);
                        assert(dir@ == (EntryView::Directory { name: name@, entries: views }));
                        lemma_all_encodable(views);
                        assert(encodable(views[i as int]));
                        assert(decreases_to!(entries => entries[i as int]));
                        assert(decreases_to!(dir => dir->entries));
                    }
                    match &entries[i] {
                        Entry::File { name, content } => {
                            self.emit_file(name, content);
                        },
                        Entry::Directory { .. } => {
                            self.emit_directory(&entries[i]);
                        },
                    }
                    assert(self.stream() == before + archive(views[i as int]));
                    assert(old(self).stream() + frame(enter) + archive_all(views.take(i as int))
                        + archive(views[i as int]) =~= old(self).stream() + frame(enter) + (
                    archive_all(views.take(i as int)) + archive(views[i as int])));
                    i = i + 1;
                }
                assert(views.take(i as int) =~= views);
                let written = self.0.write_operation(&StorageOperation::LeaveDirectory);
                assert(written is Ok);
                assert(old(self).stream() + frame(enter) + archive_all(views) + frame(leave)
                    =~= old(self).stream() + (frame(enter) + archive_all(views) + frame(
                    leave,
                )));
            },
            Entry::File { .. } => {},
        }
    }

    /// Archives a file: the record that creates it, then its content.
    /// Nothing is written if `file` is a directory or its name is too long
    /// for a record.
    pub fn write_file(&mut self, file: &Entry) -> (result: Result<(), ArchiveError>)
        requires
            old(self).inv(),
        ensures
            final(self).inv(),
            final(self).settings() == old(self).settings(),
            result == (if file is Directory {
                Err::<(), ArchiveError>(ArchiveError::NotAFile)
            } else if !encodable(file@) {
                Err(ArchiveError::TooLong)
            } else {
                Ok(())
            }),
            result is Ok ==> final(self).stream() == old(self).stream() + archive(file@),
            result is Err ==> *final(self) == *old(self),
    {
        match file {
            Entry::File { name, content } => {
                assert(content@.len() == content.len());
                assert(file@ == (EntryView::File { name: name@, content: content@ }));
                if !name_is_short(name) {
                    return Err(ArchiveError::TooLong);
                }
                self.emit_file(name, content);
                Ok(())
            },
            Entry::Directory { .. } => Err(ArchiveError::NotAFile),
        }
    }

    /// Archives a directory and everything below it. Nothing is written if
    /// `dir` is a file or a name in the tree is too long for a record.
    pub fn write_directory(&mut self, dir: &Entry) -> (result: Result<(), ArchiveError>)
        requires
            old(self).inv(),
        ensures
            final(self).inv(),
            final(self).settings() == old(self).settings(),
            result == (if dir is File {
                Err::<(), ArchiveError>(ArchiveError::NotADirectory)
            } else if !encodable(dir@) {
                Err(ArchiveError::TooLong)
            } else {
                Ok(())
            }),
            result is Ok ==> final(self).stream() == old(self).stream() + archive(dir@),
            result is Err ==> *final(self) == *old(self),
    {
        match dir {
            Entry::File { .. } => Err(ArchiveError::NotADirectory),
            Entry::Directory { .. } => {
                if !can_archive(dir) {
                    return Err(ArchiveError::TooLong);
                }
                self.emit_directory(dir);
                Ok(())
            },
        }
    }

    /// Gives up the writer for the sink underneath.
    pub fn into_inner(self) -> (writer: W)
        ensures
            writer == self.writer().sink(),
    {
        self.0.into_inner()
    }
}

/// Why restoring could not go on.
#[derive(Debug, Clone, Copy, PartialEq, Eq, Structural)]
pub enum RestoreError {
    /// The stream ended inside the content of a file.
    Truncated,
    /// A record leaves a directory and none is open.
    Unbalanced,
    /// A record enters a directory whose name is taken in the open
    /// directory, or creates a file where a directory has the name.
    AlreadyExists,
}

/// What a reader rebuilt before it stopped.
#[derive(Debug, PartialEq, Eq)]
pub struct Restored {
    /// The entries rebuilt at the top level, in the order of the stream.
    /// Directories still open when the reader stopped hold what they had
    /// received by then.
    pub entries: Vec<Entry>,
    /// Why the reader stopped: `EndOfStream`, `Truncated` or `Malformed`.
    pub stop: StreamError,
}

/// Rebuilds directory trees from a byte source.
pub struct StorageReader<R: ByteSource>(StructReader<R>);

impl<R: ByteSource> StorageReader<R> {
    /// The record reader underneath.
    pub closed spec fn reader(&self) -> StructReader<R> {
        self.0
    }

    /// The invariant of the source underneath.
    pub open spec fn inv(&self) -> bool {
        self.reader().inv()
    }

    /// The bytes not read yet.
    pub open spec fn remaining(&self) -> Seq<u8> {
        self.reader().remaining()
    }

    /// A reader that rebuilds from `reader`.
    pub fn new(reader: R) -> (out: Self)
        ensures
            out.reader().source() == reader,
    {
        StorageReader(StructReader::new(reader))
    }

    /// Reads the content of a file of `size` bytes, in spans of at most
    /// `CHUNK_SIZE` bytes.
    fn read_content(&mut self, size: u64) -> (result: Result<Vec<u8>, RestoreError>)
        requires
            old(self).inv(),
        ensures
            final(self).inv(),
            size <= old(self).remaining().len() ==> result is Ok && result->Ok_0@ == old(
                self,
            ).remaining().take(size as int) && final(self).remaining() == old(
                self,
            ).remaining().skip(size as int),
            size > old(self).remaining().len() ==> result == Err::<Vec<u8>, RestoreError>(
                RestoreError::Truncated,
            ) && final(self).remaining() == Seq::<u8>::empty(),
    {
        let ghost all = self.remaining();
        let mut content: Vec<u8> = Vec::new();
        let mut left: u64 = size;
        while left > 0
            invariant
                self.inv(),
                all == old(self).remaining(),
                left <= size,
                content@.len() == size - left,
                content@.len() <= all.len(),
                content@ == all.take(content@.len() as int),
                self.remaining() == all.skip(content@.len() as int),
            decreases left,
        {
            let n: usize = if left > CHUNK_SIZE as u64 {
                CHUNK_SIZE
            } else {
                left as usize
            };
            assert(self.remaining().len() == all.len() - content@.len());
            match self.0.next_bytes(n) {
                Ok(chunk) => {
                    let ghost had = content@.len() as int;
                    content.extend_from_slice(chunk.as_slice());
                    proof {
                        assert(content@ =~= all.take(had + n));
                        assert(all.skip(had).skip(n as int) =~= all.skip(had + n));
                    }
                },
                Err(_) => {
                    return Err(RestoreError::Truncated);
                },
            }
            left = left - n as u64;
        }
        Ok(content)
    }

    /// Interprets the stream record by record until no further operation can
    /// be read, and returns the entries it describes and why reading stopped.
    /// Fails if a file's content is cut short or a record leaves a directory
    /// when none is open.
    pub fn interpret(&mut self) -> (result: Result<Restored, RestoreError>)
        requires
            old(self).inv(),
        ensures
            final(self).inv(),
            final(self).remaining() == restored(
                Seq::empty(),
                top_scope(),
                old(self).remaining(),
            ).rest,
            match result {
                Ok(done) => restored(Seq::empty(), top_scope(), old(self).remaining()).result
                    == Ok::<(Seq<EntryView>, StreamError), RestoreError>(
                    (entry_views(done.entries@), done.stop),
                ),
                Err(error) => restored(Seq::empty(), top_scope(), old(self).remaining()).result
                    == Err::<(Seq<EntryView>, StreamError), RestoreError>(error),
            },
    {
        let ghost goal = restored(Seq::empty(), top_scope(), self.remaining());
        let mut restorer = Restorer::new();
        loop
            invariant
                self.inv(),
                goal == restored(Seq::empty(), top_scope(), old(self).remaining()),
                restored(restorer.outer(), restorer.current(), self.remaining()) == goal,
            decreases self.remaining().len(),
        {
            match self.0.next_operation() {
                Err(stop) => {
                    return Ok(Restored { entries: restorer.finish(), stop });
                },
                Ok(StorageOperation::EnterDirectory(name)) => {
                    match restorer.enter_directory(name) {
                        Ok(()) => {},
                        Err(error) => {
                            return Err(error);
                        },
                    }
                },
                Ok(StorageOperation::LeaveDirectory) => {
                    match restorer.leave_directory() {
                        Ok(()) => {},
                        Err(error) => {
                            return Err(error);
                        },
                    }
                },
                Ok(StorageOperation::CreateFile(name, size)) => {
                    if !restorer.admits_file(&name) {
                        return Err(RestoreError::AlreadyExists);
                    }
                    match self.read_content(size) {
                        Ok(content) => {
                            let created = restorer.create_file(name, content);
                            assert(created is Ok);
                        },
                        Err(error) => {
                            return Err(error);
                        },
                    }
                },
            }
        }
    }

    /// Gives up the reader for the source underneath.
    pub fn into_inner(self) -> (reader: R)
        ensures
            reader == self.reader().source(),
    {
        self.0.into_inner()
    }
}

} // verus!
