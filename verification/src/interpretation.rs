//! What a stream of records and spans means.
//!
//! [`restored`] says, for every byte stream, what interpreting it comes to:
//! which entries are rebuilt, why reading stopped or failed, and what is left
//! unread. The laws below it relate this meaning to the archive of a tree.

use vstd::prelude::*;
use vstd::bytes::lemma_auto_spec_u32_to_from_le_bytes;
use crate::operation::decoded;
use crate::operation::lemma_payload_decoded;
use crate::operation::lemma_payload_len;
use crate::operation::name_fits;
use crate::operation::OperationView;
use crate::operation::payload;
use crate::storage::RestoreError;
use crate::struct_stream::after_record;
use crate::struct_stream::frame;
use crate::struct_stream::has_record;
use crate::struct_stream::lemma_frame_read_back;
use crate::struct_stream::record_payload;
use crate::struct_stream::StreamError;
use crate::tree::all_encodable;
use crate::tree::all_well_named;
use crate::tree::archive;
use crate::tree::archive_all;
use crate::tree::encodable;
use crate::tree::entry_name;
use crate::tree::EntryView;
use crate::tree::lemma_all_well_named;
use crate::tree::lemma_position;
use crate::tree::names_distinct;
use crate::tree::position;
use crate::tree::well_named;

verus! {

/// A directory that has been entered and not left, over mathematical values.
pub struct Scope {
    pub name: Seq<char>,
    pub entries: Seq<EntryView>,
}

/// What interpreting a stream comes to.
pub struct Outcome {
    /// The entries rebuilt at the top level and why the reader stopped, or
    /// why restoring failed.
    pub result: Result<(Seq<EntryView>, StreamError), RestoreError>,
    /// The bytes left unread.
    pub rest: Seq<u8>,
}

/// The scope at the top level before anything is read.
pub open spec fn top_scope() -> Scope {
    Scope { name: Seq::empty(), entries: Seq::empty() }
}

/// `scope` with one more entry.
pub open spec fn with_entry(scope: Scope, entry: EntryView) -> Scope {
    Scope { name: scope.name, entries: scope.entries.push(entry) }
}

/// `scope` after a file has been created in it: the file stands where a file
/// of its name stood, or else is one more entry.
pub open spec fn with_file(scope: Scope, file: EntryView) -> Scope {
    match position(scope.entries, entry_name(file)) {
        Some(i) => Scope { name: scope.name, entries: scope.entries.update(i, file) },
        None => with_entry(scope, file),
    }
}

/// A directory of the name stands in `scope`.
pub open spec fn has_directory(scope: Scope, name: Seq<char>) -> bool {
    position(scope.entries, name) matches Some(i) && scope.entries[i] is Directory
}

/// The innermost of `outer` after `current`, which lies directly in it, has
/// been left.
pub open spec fn left(outer: Seq<Scope>, current: Scope) -> Scope
    recommends
        outer.len() > 0,
{
    with_entry(
        outer.last(),
        EntryView::Directory { name: current.name, entries: current.entries },
    )
}

/// The entries at the top level after `current` and every scope of `outer`
/// (outermost first) have been left.
pub open spec fn closed_all(outer: Seq<Scope>, current: Scope) -> Seq<EntryView>
    decreases outer.len(),
{
    if outer.len() == 0 {
        current.entries
    } else {
        closed_all(outer.drop_last(), left(outer, current))
    }
}

/// What interpreting `bytes` comes to when `current` is the open scope and
/// `outer` are the scopes around it, outermost first.
///
/// Where `bytes` does not begin with a whole record, or its payload is no
/// operation, the reader stops and every open scope is closed as it is. A
/// record that enters a directory opens a scope, and fails if the name is
/// taken in the current scope; one that leaves closes the current scope, and
/// fails if there is none but the top level. A record that creates a file
/// fails if a directory has the name; else it takes the next bytes, as many
/// as it says, as the content, and fails if there are fewer. The file
/// replaces a file of its name.
pub open spec fn restored(outer: Seq<Scope>, current: Scope, bytes: Seq<u8>) -> Outcome
    decreases bytes.len(),
{
    if !has_record(bytes) {
        Outcome {
            result: Ok(
                (
                    closed_all(outer, current),
                    if bytes.len() == 0 {
                        StreamError::EndOfStream
                    } else {
                        StreamError::Truncated
                    },
                ),
            ),
            rest: Seq::empty(),
        }
    } else {
        let rest = after_record(bytes);
        match decoded(record_payload(bytes)) {
            None => Outcome {
                result: Ok((closed_all(outer, current), StreamError::Malformed)),
                rest,
            },
            Some(OperationView::EnterDirectory(name)) => if position(current.entries, name)
                is Some {
                Outcome { result: Err(RestoreError::AlreadyExists), rest }
            } else {
                restored(outer.push(current), Scope { name, entries: Seq::empty() }, rest)
            },
            Some(OperationView::LeaveDirectory) => if outer.len() == 0 {
                Outcome { result: Err(RestoreError::Unbalanced), rest }
            } else {
                restored(outer.drop_last(), left(outer, current), rest)
            },
            Some(OperationView::CreateFile(name, size)) => if has_directory(current, name) {
                Outcome { result: Err(RestoreError::AlreadyExists), rest }
            } else if rest.len() < size {
                Outcome { result: Err(RestoreError::Truncated), rest: Seq::empty() }
            } else {
                restored(
                    outer,
                    with_file(current, EntryView::File { name, content: rest.take(size as int) }),
                    rest.skip(size as int),
                )
            },
        }
    }
}

/// A record is interpreted as the operation it carries: what `restored`
/// does on a stream that begins with the record of `op`.
proof fn lemma_record_step(op: OperationView, rest: Seq<u8>)
    requires
        match op {
            OperationView::EnterDirectory(name) => name_fits(name),
            OperationView::LeaveDirectory => true,
            OperationView::CreateFile(name, _) => name_fits(name),
        },
    ensures
        has_record(frame(payload(op)) + rest),
        decoded(record_payload(frame(payload(op)) + rest)) == Some(op),
        after_record(frame(payload(op)) + rest) == rest,
{
    lemma_payload_len(op);
    lemma_frame_read_back(payload(op), rest);
    lemma_payload_decoded(op, Seq::empty());
    assert(payload(op) + Seq::<u8>::empty() =~= payload(op));
}

/// Interpreting the archive of an encodable, well named entry, whose name is
/// free in the open scope, adds that entry to the scope and goes on with
/// what follows the archive.
pub proof fn lemma_restored_entry(
    outer: Seq<Scope>,
    current: Scope,
    entry: EntryView,
    rest: Seq<u8>,
)
    requires
        encodable(entry),
        well_named(entry),
        position(current.entries, entry_name(entry)) is None,
    ensures
        restored(outer, current, archive(entry) + rest) == restored(
            outer,
            with_entry(current, entry),
            rest,
        ),
    decreases entry,
{
    match entry {
        EntryView::File { name, content } => {
            let op = OperationView::CreateFile(name, content.len() as u64);
            let tail = content + rest;
            lemma_record_step(op, tail);
            assert(archive(entry) + rest =~= frame(payload(op)) + tail);
            assert(tail.take(content.len() as int) =~= content);
            assert(tail.skip(content.len() as int) =~= rest);
        },
        EntryView::Directory { name, entries } => {
            let enter = OperationView::EnterDirectory(name);
            let leave = OperationView::LeaveDirectory;
            let inner = Scope { name, entries: Seq::empty() };
            let after_entries = frame(payload(leave)) + rest;
            let after_enter = archive_all(entries) + after_entries;
            assert(archive(entry) + rest =~= frame(payload(enter)) + after_enter);
            lemma_record_step(enter, after_enter);
            assert(inner.entries + entries =~= entries);
            lemma_restored_entries(outer.push(current), inner, entries, after_entries);
            lemma_record_step(leave, rest);
            let filled = Scope { name, entries: inner.entries + entries };
            assert(inner.entries + entries =~= entries);
            assert(outer.push(current).drop_last() =~= outer);
            assert(left(outer.push(current), filled) == with_entry(current, entry));
        },
    }
}

/// Interpreting the archives of encodable, well named entries, whose names
/// differ from each other and from those in the open scope, adds them, in
/// order, to the scope and goes on with what follows them.
pub proof fn lemma_restored_entries(
    outer: Seq<Scope>,
    current: Scope,
    entries: Seq<EntryView>,
    rest: Seq<u8>,
)
    requires
        all_encodable(entries),
        all_well_named(entries),
        names_distinct(current.entries + entries),
    ensures
        restored(outer, current, archive_all(entries) + rest) == restored(
            outer,
            Scope { name: current.name, entries: current.entries + entries },
            rest,
        ),
    decreases entries,
{
    if entries.len() == 0 {
        assert(archive_all(entries) + rest =~= rest);
        assert(current.entries + entries =~= current.entries);
    } else {
        let front = entries.drop_last();
        let last = entries.last();
        let tail = archive(last) + rest;
        let all = current.entries + entries;
        let middle = Scope { name: current.name, entries: current.entries + front };
        assert(all_encodable(entries) == (all_encodable(front) && encodable(last)));
        assert(all_well_named(entries) == (all_well_named(front) && well_named(last)));
        assert(archive_all(entries) == archive_all(front) + archive(last));
        assert(archive_all(entries) + rest =~= archive_all(front) + tail);
        assert(middle.entries =~= all.drop_last());
        assert(all.last() == last);
        assert(names_distinct(middle.entries)) by {
            assert forall|i: int, j: int| 0 <= i < j < middle.entries.len() implies entry_name(
                #[trigger] middle.entries[i],
            ) != entry_name(#[trigger] middle.entries[j]) by {
                assert(middle.entries[i] == all[i]);
                assert(middle.entries[j] == all[j]);
            }
        }
        lemma_restored_entries(outer, current, front, tail);
        assert(position(middle.entries, entry_name(last)) is None) by {
            lemma_position(middle.entries, entry_name(last));
            if position(middle.entries, entry_name(last)) is Some {
                let i = position(middle.entries, entry_name(last))->0;
                assert(middle.entries[i] == all[i]);
                assert(entry_name(all[i]) != entry_name(all[all.len() - 1]));
            }
        }
        lemma_restored_entry(outer, middle, last, rest);
        assert(middle.entries.push(last) =~= all);
    }
}

/// Interpreting the archive of an encodable, well named entry, and nothing
/// more, rebuilds exactly that entry and stops at the end of the stream.
pub proof fn lemma_restored_archive(entry: EntryView)
    requires
        encodable(entry),
        well_named(entry),
    ensures
        restored(Seq::empty(), top_scope(), archive(entry)) == (Outcome {
            result: Ok((seq![entry], StreamError::EndOfStream)),
            rest: Seq::empty(),
        }),
{
    let nothing = Seq::<u8>::empty();
    lemma_restored_entry(Seq::empty(), top_scope(), entry, nothing);
    assert(archive(entry) + nothing =~= archive(entry));
    assert(top_scope().entries.push(entry) =~= seq![entry]);
    lemma_auto_spec_u32_to_from_le_bytes();
}

/// No two entries of `scope` have the same name, and each is well named.
pub open spec fn scope_well_named(scope: Scope) -> bool {
    names_distinct(scope.entries) && all_well_named(scope.entries)
}

/// Every open scope is well named, and the name of each but the outermost is
/// free in the scope around it.
pub open spec fn scopes_well_named(outer: Seq<Scope>, current: Scope) -> bool {
    &&& scope_well_named(current)
    &&& forall|k: int| 0 <= k < outer.len() ==> scope_well_named(#[trigger] outer[k])
    &&& forall|k: int|
        0 <= k < outer.len() ==> position(
            (#[trigger] outer[k]).entries,
            if k + 1 < outer.len() {
                outer[k + 1].name
            } else {
                current.name
            },
        ) is None
}

/// A well named scope stays so when an entry of a free name is added.
proof fn lemma_with_entry_well_named(scope: Scope, entry: EntryView)
    requires
        scope_well_named(scope),
        well_named(entry),
        position(scope.entries, entry_name(entry)) is None,
    ensures
        scope_well_named(with_entry(scope, entry)),
{
    let after = scope.entries.push(entry);
    lemma_position(scope.entries, entry_name(entry));
    lemma_all_well_named(scope.entries);
    lemma_all_well_named(after);
    assert forall|i: int, j: int| 0 <= i < j < after.len() implies entry_name(
        #[trigger] after[i],
    ) != entry_name(#[trigger] after[j]) by {
        assert(after[i] == scope.entries[i]);
        if j < scope.entries.len() {
            assert(after[j] == scope.entries[j]);
        }
    }
    assert forall|i: int| 0 <= i < after.len() implies well_named(#[trigger] after[i]) by {
        if i < scope.entries.len() {
            assert(after[i] == scope.entries[i]);
        }
    }
}

/// A well named scope stays so when a file is created in it.
proof fn lemma_with_file_well_named(scope: Scope, file: EntryView)
    requires
        scope_well_named(scope),
        file is File,
    ensures
        scope_well_named(with_file(scope, file)),
{
    lemma_position(scope.entries, entry_name(file));
    match position(scope.entries, entry_name(file)) {
        Some(at) => {
            let after = scope.entries.update(at, file);
            lemma_all_well_named(scope.entries);
            lemma_all_well_named(after);
            assert forall|i: int, j: int| 0 <= i < j < after.len() implies entry_name(
                #[trigger] after[i],
            ) != entry_name(#[trigger] after[j]) by {
                assert(entry_name(after[i]) == entry_name(scope.entries[i]));
                assert(entry_name(after[j]) == entry_name(scope.entries[j]));
            }
            assert forall|i: int| 0 <= i < after.len() implies well_named(#[trigger] after[i]) by {
                if i != at {
                    assert(after[i] == scope.entries[i]);
                }
            }
        },
        None => {
            lemma_with_entry_well_named(scope, file);
        },
    }
}

/// Leaving the current scope keeps the open scopes well named.
proof fn lemma_left_well_named(outer: Seq<Scope>, current: Scope)
    requires
        scopes_well_named(outer, current),
        outer.len() > 0,
    ensures
        scopes_well_named(outer.drop_last(), left(outer, current)),
{
    let parent = outer.last();
    let dir = EntryView::Directory { name: current.name, entries: current.entries };
    let front = outer.drop_last();
    assert(scope_well_named(outer[outer.len() - 1]));
    assert(position(outer[outer.len() - 1].entries, current.name) is None);
    lemma_with_entry_well_named(parent, dir);
    assert forall|k: int| 0 <= k < front.len() implies scope_well_named(#[trigger] front[k]) by {
        assert(front[k] == outer[k]);
    }
    assert forall|k: int| 0 <= k < front.len() implies position(
        (#[trigger] front[k]).entries,
        if k + 1 < front.len() {
            front[k + 1].name
        } else {
            left(outer, current).name
        },
    ) is None by {
        assert(front[k] == outer[k]);
        if k + 1 < front.len() {
            assert(front[k + 1] == outer[k + 1]);
        }
    }
}

/// Closing well named scopes leaves well named entries at the top level.
proof fn lemma_closed_all_well_named(outer: Seq<Scope>, current: Scope)
    requires
        scopes_well_named(outer, current),
    ensures
        names_distinct(closed_all(outer, current)),
        all_well_named(closed_all(outer, current)),
    decreases outer.len(),
{
    if outer.len() > 0 {
        lemma_left_well_named(outer, current);
        lemma_closed_all_well_named(outer.drop_last(), left(outer, current));
    }
}

/// From well named scopes, whatever the stream, what is rebuilt is well
/// named.
proof fn lemma_restored_well_named_from(outer: Seq<Scope>, current: Scope, bytes: Seq<u8>)
    requires
        scopes_well_named(outer, current),
    ensures
        restored(outer, current, bytes).result matches Ok(done) ==> names_distinct(done.0)
            && all_well_named(done.0),
    decreases bytes.len(),
{
    lemma_closed_all_well_named(outer, current);
    if has_record(bytes) {
        let rest = after_record(bytes);
        match decoded(record_payload(bytes)) {
            None => {},
            Some(OperationView::EnterDirectory(name)) => {
                if position(current.entries, name) is None {
                    let inner = Scope { name, entries: Seq::empty() };
                    let around = outer.push(current);
                    assert(all_well_named(inner.entries));
                    assert forall|k: int| 0 <= k < around.len() implies scope_well_named(
                        #[trigger] around[k],
                    ) by {
                        if k < outer.len() {
                            assert(around[k] == outer[k]);
                        }
                    }
                    assert forall|k: int| 0 <= k < around.len() implies position(
                        (#[trigger] around[k]).entries,
                        if k + 1 < around.len() {
                            around[k + 1].name
                        } else {
                            inner.name
                        },
                    ) is None by {
                        if k < outer.len() {
                            assert(around[k] == outer[k]);
                            if k + 1 < outer.len() {
                                assert(around[k + 1] == outer[k + 1]);
                            }
                        }
                    }
                    lemma_restored_well_named_from(around, inner, rest);
                }
            },
            Some(OperationView::LeaveDirectory) => {
                if outer.len() > 0 {
                    lemma_left_well_named(outer, current);
                    lemma_restored_well_named_from(outer.drop_last(), left(outer, current), rest);
                }
            },
            Some(OperationView::CreateFile(name, size)) => {
                if !has_directory(current, name) && rest.len() >= size {
                    let file = EntryView::File { name, content: rest.take(size as int) };
                    lemma_with_file_well_named(current, file);
                    lemma_restored_well_named_from(
                        outer,
                        with_file(current, file),
                        rest.skip(size as int),
                    );
                }
            },
        }
    }
}

/// Whatever the stream, what is rebuilt from it can stand in a file system:
/// at the top level and in every directory, no two entries have the same
/// name.
pub proof fn lemma_restored_well_named(bytes: Seq<u8>)
    ensures
        restored(Seq::empty(), top_scope(), bytes).result matches Ok(done) ==> names_distinct(
            done.0,
        ) && all_well_named(done.0),
{
    assert(all_well_named(top_scope().entries));
    lemma_restored_well_named_from(Seq::empty(), top_scope(), bytes);
}

} // verus!
