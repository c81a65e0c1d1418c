//! The state of a restore: the directories that are open, and what has been
//! rebuilt in each.
//!
//! A [`Restorer`] takes one operation at a time. It knows nothing of bytes:
//! whoever drives it reads the records and the contents.

use vstd::prelude::*;
use crate::interpretation::closed_all;
use crate::interpretation::has_directory;
use crate::interpretation::left;
use crate::interpretation::top_scope;
use crate::interpretation::with_file;
use crate::interpretation::Scope;
use crate::storage::RestoreError;
use crate::tree::entry_name;
use crate::tree::entry_views;
use crate::tree::lemma_entry_views;
use crate::tree::lemma_entry_views_push;
use crate::tree::lemma_entry_views_update;
use crate::tree::lemma_position;
use crate::tree::lemma_position_found;
use crate::tree::position;
use crate::tree::Entry;
use crate::tree::EntryView;

verus! {

/// A directory that has been entered and not left.
struct OpenScope {
    name: String,
    entries: Vec<Entry>,
}

impl View for OpenScope {
    type V = Scope;

    closed spec fn view(&self) -> Scope {
        Scope { name: self.name@, entries: entry_views(self.entries@) }
    }
}

/// The views of `scopes`, in order.
spec fn scope_views(scopes: Seq<OpenScope>) -> Seq<Scope> {
    scopes.map_values(|scope: OpenScope| scope@)
}

/// The index of the first of `entries` that is named `name`, if there is
/// one.
fn find_entry(entries: &Vec<Entry>, name: &String) -> (found: Option<usize>)
    ensures
        match found {
            Some(i) => position(entry_views(entries@), name@) == Some(i as int) && i
                < entries@.len(),
            None => position(entry_views(entries@), name@) is None,
        },
{
    let ghost views = entry_views(entries@);
    proof {
        lemma_entry_views(entries@);
        lemma_position(views, name@);
    }
    let mut i: usize = 0;
    while i < entries.len()
        invariant
            i <= entries@.len(),
            views == entry_views(entries@),
            views.len() == entries@.len(),
            forall|k: int| 0 <= k < entries@.len() ==> (#[trigger] views[k]) == entries@[k]@,
            forall|k: int| 0 <= k < i ==> entry_name(#[trigger] views[k]) != name@,
        decreases entries@.len() - i,
    {
        if *entries[i].name() == *name {
            proof {
                lemma_position_found(views, name@, i as int);
            }
            return Some(i);
        }
        i = i + 1;
    }
    None
}

/// Leaves `name` and every scope of `outer`, innermost first, and returns
/// the entries at the top level.
fn close_scopes(outer: Vec<OpenScope>, name: String, entries: Vec<Entry>) -> (top: Vec<Entry>)
    ensures
        entry_views(top@) == closed_all(
            scope_views(outer@),
            Scope { name: name@, entries: entry_views(entries@) },
        ),
{
    let ghost goal = closed_all(
        scope_views(outer@),
        Scope { name: name@, entries: entry_views(entries@) },
    );
    let mut outer = outer;
    let mut name = name;
    let mut entries = entries;
    while outer.len() > 0
        invariant
            closed_all(
                scope_views(outer@),
                Scope { name: name@, entries: entry_views(entries@) },
            ) == goal,
        decreases outer@.len(),
    {
        let ghost scopes = scope_views(outer@);
        let ghost current = Scope { name: name@, entries: entry_views(entries@) };
        let parent = outer.pop().unwrap();
        let dir = Entry::Directory { name, entries };
        name = parent.name;
        entries = parent.entries;
        proof {
            assert(dir@ == (EntryView::Directory { name: current.name, entries: current.entries }));
            lemma_entry_views_push(entries@, dir);
            assert(scope_views(outer@) =~= scopes.drop_last());
            assert(parent@ == scopes.last());
        }
        entries.push(dir);
    }
    entries
}

/// The directories that are open during a restore, and the entries rebuilt
/// so far.
pub struct Restorer {
    outer: Vec<OpenScope>,
    name: String,
    entries: Vec<Entry>,
}

impl Restorer {
    /// The scopes around the current one, outermost first.
    pub closed spec fn outer(&self) -> Seq<Scope> {
        scope_views(self.outer@)
    }

    /// The scope that operations act on.
    pub closed spec fn current(&self) -> Scope {
        Scope { name: self.name@, entries: entry_views(self.entries@) }
    }

    /// A restorer at the top level, with nothing rebuilt.
    pub fn new() -> (restorer: Self)
        ensures
            restorer.outer() == Seq::<Scope>::empty(),
            restorer.current() == top_scope(),
    {
        let restorer = Restorer { outer: Vec::new(), name: String::new(), entries: Vec::new() };
        assert(restorer.outer() =~= Seq::<Scope>::empty());
        assert(entry_views(restorer.entries@) =~= Seq::<EntryView>::empty());
        restorer
    }

    /// The number of directories that are open.
    pub fn depth(&self) -> (depth: usize)
        ensures
            depth == self.outer().len(),
    {
        self.outer.len()
    }

    /// Enters a new directory of the given name in the current scope.
    /// Fails, and changes nothing, if the name is taken there.
    pub fn enter_directory(&mut self, name: String) -> (result: Result<(), RestoreError>)
        ensures
            match result {
                Ok(()) => {
                    &&& position(old(self).current().entries, name@) is None
                    &&& final(self).outer() == old(self).outer().push(old(self).current())
                    &&& final(self).current() == (Scope { name: name@, entries: Seq::empty() })
                },
                Err(error) => {
                    &&& error == RestoreError::AlreadyExists
                    &&& position(old(self).current().entries, name@) is Some
                    &&& final(self).outer() == old(self).outer()
                    &&& final(self).current() == old(self).current()
                },
            },
    {
        if find_entry(&self.entries, &name).is_some() {
            return Err(RestoreError::AlreadyExists);
        }
        let mut scope_name: String = name;
        let mut scope_entries: Vec<Entry> = Vec::new();
        assert(entry_views(scope_entries@) =~= Seq::<EntryView>::empty());
        core::mem::swap(&mut self.name, &mut scope_name);
        core::mem::swap(&mut self.entries, &mut scope_entries);
        let scope = OpenScope { name: scope_name, entries: scope_entries };
        self.outer.push(scope);
        assert(self.outer() =~= old(self).outer().push(old(self).current()));
        Ok(())
    }

    /// Leaves the current directory: it becomes an entry of the scope around
    /// it. Fails, and changes nothing, at the top level.
    pub fn leave_directory(&mut self) -> (result: Result<(), RestoreError>)
        ensures
            match result {
                Ok(()) => {
                    &&& old(self).outer().len() > 0
                    &&& final(self).outer() == old(self).outer().drop_last()
                    &&& final(self).current() == left(old(self).outer(), old(self).current())
                },
                Err(error) => {
                    &&& error == RestoreError::Unbalanced
                    &&& old(self).outer().len() == 0
                    &&& final(self).outer() == old(self).outer()
                    &&& final(self).current() == old(self).current()
                },
            },
    {
        if self.outer.len() == 0 {
            return Err(RestoreError::Unbalanced);
        }
        let parent = self.outer.pop().unwrap();
        let mut name: String = parent.name;
        let mut entries: Vec<Entry> = parent.entries;
        core::mem::swap(&mut self.name, &mut name);
        core::mem::swap(&mut self.entries, &mut entries);
        let dir = Entry::Directory { name, entries };
        proof {
            assert(dir@ == (EntryView::Directory {
                name: old(self).current().name,
                entries: old(self).current().entries,
            }));
            lemma_entry_views_push(self.entries@, dir);
            assert(self.outer() =~= old(self).outer().drop_last());
            assert(parent@ == old(self).outer().last());
        }
        self.entries.push(dir);
        Ok(())
    }

    /// Whether a file of the given name can be created in the current scope:
    /// whether no directory has the name.
    pub fn admits_file(&self, name: &String) -> (admits: bool)
        ensures
            admits == !has_directory(self.current(), name@),
    {
        match find_entry(&self.entries, name) {
            Some(i) => {
                proof {
                    lemma_entry_views(self.entries@);
                }
                match &self.entries[i] {
                    Entry::Directory { .. } => false,
                    Entry::File { .. } => true,
                }
            },
            None => true,
        }
    }

    /// Creates a file in the current scope, in place of a file of its name if
    /// there is one. Fails, and changes nothing, if a directory has the name.
    pub fn create_file(&mut self, name: String, content: Vec<u8>) -> (result: Result<
        (),
        RestoreError,
    >)
        ensures
            final(self).outer() == old(self).outer(),
            match result {
                Ok(()) => {
                    &&& !has_directory(old(self).current(), name@)
                    &&& final(self).current() == with_file(
                        old(self).current(),
                        EntryView::File { name: name@, content: content@ },
                    )
                },
                Err(error) => {
                    &&& error == RestoreError::AlreadyExists
                    &&& has_directory(old(self).current(), name@)
                    &&& final(self).current() == old(self).current()
                },
            },
    {
        let found = find_entry(&self.entries, &name);
        if let Some(i) = found {
            proof {
                lemma_entry_views(self.entries@);
            }
            match &self.entries[i] {
                Entry::Directory { .. } => {
                    return Err(RestoreError::AlreadyExists);
                },
                Entry::File { .. } => {},
            }
        }
        let file = Entry::File { name, content };
        assert(file@ == (EntryView::File { name: name@, content: content@ }));
        match found {
            Some(i) => {
                proof {
                    lemma_entry_views_update(self.entries@, i as int, file);
                }
                self.entries.set(i, file);
            },
            None => {
                proof {
                    lemma_entry_views_push(self.entries@, file);
                }
                self.entries.push(file);
            },
        }
        Ok(())
    }

    /// Leaves every open directory and returns the entries at the top level.
    pub fn finish(self) -> (top: Vec<Entry>)
        ensures
            entry_views(top@) == closed_all(self.outer(), self.current()),
    {
        close_scopes(self.outer, self.name, self.entries)
    }
}

} // verus!
