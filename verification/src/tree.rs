//! Directory trees held in memory, and the byte stream that archives one.

use vstd::prelude::*;
use crate::operation::name_fits;
use crate::operation::OperationView;
use crate::operation::payload;
use crate::struct_stream::frame;

verus! {

/// An entry of a directory: a file with its content, or a directory with its
/// entries. Names are leaf names.
#[derive(Debug, PartialEq, Eq)]
pub enum Entry {
    File { name: String, content: Vec<u8> },
    Directory { name: String, entries: Vec<Entry> },
}

/// An [`Entry`] over mathematical values.
pub enum EntryView {
    File { name: Seq<char>, content: Seq<u8> },
    Directory { name: Seq<char>, entries: Seq<EntryView> },
}

impl Entry {
    /// The leaf name of this entry.
    pub fn name(&self) -> (name: &String)
        ensures
            name@ == entry_name(self@),
    {
        match self {
            Entry::File { name, .. } => name,
            Entry::Directory { name, .. } => name,
        }
    }
}

impl View for Entry {
    type V = EntryView;

    open spec fn view(&self) -> EntryView
        decreases self,
    {
        match self {
            Entry::File { name, content } => EntryView::File { name: name@, content: content@ },
            Entry::Directory { name, entries } => EntryView::Directory {
                name: name@,
                entries: entry_views(entries@),
            },
        }
    }
}

/// The views of `entries`, in order.
pub open spec fn entry_views(entries: Seq<Entry>) -> Seq<EntryView>
    decreases entries,
{
    if entries.len() == 0 {
        Seq::empty()
    } else {
        entry_views(entries.drop_last()).push(entries.last()@)
    }
}

/// The views of `entries` are as many as the entries, and the `i`-th is the
/// view of the `i`-th entry.
pub proof fn lemma_entry_views(entries: Seq<Entry>)
    ensures
        entry_views(entries).len() == entries.len(),
        forall|i: int| 0 <= i < entries.len() ==> (#[trigger] entry_views(entries)[i]) == entries[i]@,
    decreases entries.len(),
{
    if entries.len() > 0 {
        lemma_entry_views(entries.drop_last());
        assert(entry_views(entries) == entry_views(entries.drop_last()).push(entries.last()@));
    }
}

/// The views after one more entry are the views before, then its view.
pub proof fn lemma_entry_views_push(entries: Seq<Entry>, entry: Entry)
    ensures
        entry_views(entries.push(entry)) == entry_views(entries).push(entry@),
{
    let longer = entries.push(entry);
    assert(longer.drop_last() =~= entries);
    assert(entry_views(longer) == entry_views(longer.drop_last()).push(longer.last()@));
}

/// Every record that archives `entry` can be written: every name in it is
/// short enough, and every file size fits in eight bytes.
pub open spec fn encodable(entry: EntryView) -> bool
    decreases entry,
{
    match entry {
        EntryView::File { name, content } => name_fits(name) && content.len() <= u64::MAX,
        EntryView::Directory { name, entries } => name_fits(name) && all_encodable(entries),
    }
}

/// Each of `entries` is encodable.
pub open spec fn all_encodable(entries: Seq<EntryView>) -> bool
    decreases entries,
{
    entries.len() > 0 ==> all_encodable(entries.drop_last()) && encodable(entries.last())
}

/// `entries` are all encodable just if each one is.
pub proof fn lemma_all_encodable(entries: Seq<EntryView>)
    ensures
        all_encodable(entries) <==> forall|i: int|
            0 <= i < entries.len() ==> encodable(#[trigger] entries[i]),
    decreases entries.len(),
{
    if entries.len() > 0 {
        let front = entries.drop_last();
        lemma_all_encodable(front);
        assert(all_encodable(entries) == (all_encodable(front) && encodable(entries.last())));
        if all_encodable(entries) {
            assert forall|i: int| 0 <= i < entries.len() implies encodable(
                #[trigger] entries[i],
            ) by {
                if i < front.len() {
                    assert(front[i] == entries[i]);
                }
            }
        }
        if forall|i: int| 0 <= i < entries.len() ==> encodable(#[trigger] entries[i]) {
            assert forall|i: int| 0 <= i < front.len() implies encodable(#[trigger] front[i]) by {
                assert(front[i] == entries[i]);
            }
        }
    }
}

/// The stream that archives a file: the record that creates it, then its
/// content as a span.
pub open spec fn file_archive(name: Seq<char>, content: Seq<u8>) -> Seq<u8> {
    frame(payload(OperationView::CreateFile(name, content.len() as u64))) + content
}

/// The stream that archives `entry`. A directory is the record that enters
/// it, the archives of its entries in order, and the record that leaves it.
pub open spec fn archive(entry: EntryView) -> Seq<u8>
    decreases entry,
{
    match entry {
        EntryView::File { name, content } => file_archive(name, content),
        EntryView::Directory { name, entries } => frame(
            payload(OperationView::EnterDirectory(name)),
        ) + archive_all(entries) + frame(payload(OperationView::LeaveDirectory)),
    }
}

/// The archives of `entries`, one after the other.
pub open spec fn archive_all(entries: Seq<EntryView>) -> Seq<u8>
    decreases entries,
{
    if entries.len() == 0 {
        Seq::empty()
    } else {
        archive_all(entries.drop_last()) + archive(entries.last())
    }
}

/// An empty directory is archived as the record that enters it and the
/// record that leaves it; a file of no bytes as the record that creates it,
/// with no span after it.
pub proof fn lemma_archive_of_nothing(name: Seq<char>)
    ensures
        archive(EntryView::Directory { name, entries: Seq::empty() }) == frame(
            payload(OperationView::EnterDirectory(name)),
        ) + frame(payload(OperationView::LeaveDirectory)),
        archive(EntryView::File { name, content: Seq::empty() }) == frame(
            payload(OperationView::CreateFile(name, 0)),
        ),
{
    let enter = frame(payload(OperationView::EnterDirectory(name)));
    let leave = frame(payload(OperationView::LeaveDirectory));
    let create = frame(payload(OperationView::CreateFile(name, 0)));
    assert(archive_all(Seq::<EntryView>::empty()) =~= Seq::<u8>::empty());
    assert(enter + Seq::<u8>::empty() + leave =~= enter + leave);
    assert(create + Seq::<u8>::empty() =~= create);
}

/// The archive of the first `i + 1` entries is that of the first `i`, then
/// that of entry `i`.
pub proof fn lemma_archive_all_step(entries: Seq<EntryView>, i: int)
    requires
        0 <= i < entries.len(),
    ensures
        archive_all(entries.take(i + 1)) == archive_all(entries.take(i)) + archive(entries[i]),
{
    let first = entries.take(i + 1);
    assert(first.drop_last() =~= entries.take(i));
    assert(archive_all(first) == archive_all(first.drop_last()) + archive(first.last()));
}

/// The leaf name of `entry`.
pub open spec fn entry_name(entry: EntryView) -> Seq<char> {
    match entry {
        EntryView::File { name, .. } => name,
        EntryView::Directory { name, .. } => name,
    }
}

/// The index of the first of `entries` that is named `name`, if there is
/// one.
pub open spec fn position(entries: Seq<EntryView>, name: Seq<char>) -> Option<int>
    decreases entries.len(),
{
    if entries.len() == 0 {
        None
    } else {
        match position(entries.drop_last(), name) {
            Some(i) => Some(i),
            None => if entry_name(entries.last()) == name {
                Some(entries.len() - 1)
            } else {
                None
            },
        }
    }
}

/// What [`position`] finds: the first entry of that name, or that there is
/// none.
pub proof fn lemma_position(entries: Seq<EntryView>, name: Seq<char>)
    ensures
        match position(entries, name) {
            Some(i) => {
                &&& 0 <= i < entries.len()
                &&& entry_name(entries[i]) == name
                &&& forall|j: int| 0 <= j < i ==> entry_name(#[trigger] entries[j]) != name
            },
            None => forall|j: int|
                0 <= j < entries.len() ==> entry_name(#[trigger] entries[j]) != name,
        },
    decreases entries.len(),
{
    if entries.len() > 0 {
        let front = entries.drop_last();
        lemma_position(front, name);
        assert forall|j: int| 0 <= j < front.len() implies front[j] == entries[j] by {}
        match position(front, name) {
            Some(i) => {
                assert forall|j: int| 0 <= j < i implies entry_name(#[trigger] entries[j])
                    != name by {
                    assert(front[j] == entries[j]);
                }
            },
            None => {
                assert forall|j: int| 0 <= j < front.len() implies entry_name(
                    #[trigger] entries[j],
                ) != name by {
                    assert(front[j] == entries[j]);
                }
            },
        }
    }
}

/// The first entry of a name is the one that [`position`] finds.
pub proof fn lemma_position_found(entries: Seq<EntryView>, name: Seq<char>, i: int)
    requires
        0 <= i < entries.len(),
        entry_name(entries[i]) == name,
        forall|j: int| 0 <= j < i ==> entry_name(#[trigger] entries[j]) != name,
    ensures
        position(entries, name) == Some(i),
{
    lemma_position(entries, name);
}

/// No two of `entries` have the same name.
pub open spec fn names_distinct(entries: Seq<EntryView>) -> bool {
    forall|i: int, j: int|
        0 <= i < j < entries.len() ==> entry_name(#[trigger] entries[i]) != entry_name(
            #[trigger] entries[j],
        )
}

/// In `entry` and in every directory below it, no two entries have the same
/// name: it is a tree that a file system can hold.
pub open spec fn well_named(entry: EntryView) -> bool
    decreases entry,
{
    match entry {
        EntryView::File { .. } => true,
        EntryView::Directory { name, entries } => names_distinct(entries) && all_well_named(
            entries,
        ),
    }
}

/// Each of `entries` is well named.
pub open spec fn all_well_named(entries: Seq<EntryView>) -> bool
    decreases entries,
{
    entries.len() > 0 ==> all_well_named(entries.drop_last()) && well_named(entries.last())
}

/// `entries` are all well named just if each one is.
pub proof fn lemma_all_well_named(entries: Seq<EntryView>)
    ensures
        all_well_named(entries) <==> forall|i: int|
            0 <= i < entries.len() ==> well_named(#[trigger] entries[i]),
    decreases entries.len(),
{
    if entries.len() > 0 {
        let front = entries.drop_last();
        lemma_all_well_named(front);
        assert(all_well_named(entries) == (all_well_named(front) && well_named(entries.last())));
        if all_well_named(entries) {
            assert forall|i: int| 0 <= i < entries.len() implies well_named(
                #[trigger] entries[i],
            ) by {
                if i < front.len() {
                    assert(front[i] == entries[i]);
                }
            }
        }
        if forall|i: int| 0 <= i < entries.len() ==> well_named(#[trigger] entries[i]) {
            assert forall|i: int| 0 <= i < front.len() implies well_named(#[trigger] front[i]) by {
                assert(front[i] == entries[i]);
            }
        }
    }
}

/// The views after entry `i` is replaced are the views before with the view
/// of the new entry in its place.
pub proof fn lemma_entry_views_update(entries: Seq<Entry>, i: int, entry: Entry)
    requires
        0 <= i < entries.len(),
    ensures
        entry_views(entries.update(i, entry)) == entry_views(entries).update(i, entry@),
{
    lemma_entry_views(entries);
    lemma_entry_views(entries.update(i, entry));
    assert(entry_views(entries.update(i, entry)) =~= entry_views(entries).update(i, entry@));
}

} // verus!
