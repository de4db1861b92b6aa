//! Properties of the store that hold of every input, proved from the
//! contracts of its operations.

use crate::config::{addition, removal, Config, MessageData};
use vstd::prelude::*;

verus! {

/// A path that has no entry has no notes: looking it up finds nothing, and its
/// history reads as empty.
pub proof fn absent_path_has_no_notes(c: &Config, p: Seq<char>)
    requires
        c.wf(),
        !c.has_repo(p),
    ensures
        c.notes_of(p) == Seq::<MessageData>::empty(),
        forall|i: int| 0 <= i < c.entries().len() ==> #[trigger] c.entries()[i].path_view() != p,
{
}

/// Adding a note to a path that had no entry makes exactly one new entry,
/// holding exactly that note.
pub proof fn first_note_makes_one_entry(before: Config, after: Config, p: Seq<char>, text: Seq<char>)
    requires
        before.wf(),
        !before.has_repo(p),
        addition(before, after, p, text),
    ensures
        after.entries().len() == before.entries().len() + 1,
        after.notes_of(p).len() == 1,
        after.notes_of(p)[0].text() == text,
{
    assert(before.notes_of(p).len() == 0);
}

/// Adding a note to a path that already has an entry appends to that entry:
/// the number of entries stays the same and the path gains one note.
pub proof fn later_note_appends(before: Config, after: Config, p: Seq<char>, text: Seq<char>)
    requires
        before.wf(),
        before.has_repo(p),
        addition(before, after, p, text),
    ensures
        after.entries().len() == before.entries().len(),
        after.notes_of(p).len() == before.notes_of(p).len() + 1,
        after.notes_of(p).last().text() == text,
{
}

/// Removing at least as many notes as a path holds takes all of them, newest
/// first, and leaves no entry for the path.
pub proof fn removing_all_drops_entry(
    before: Config,
    after: Config,
    p: Seq<char>,
    count: nat,
    removed: Seq<MessageData>,
)
    requires
        before.wf(),
        removal(before, after, p, count, removed),
        count >= before.notes_of(p).len(),
    ensures
        !after.has_repo(p),
        after.notes_of(p) == Seq::<MessageData>::empty(),
        removed == before.notes_of(p).reverse(),
{
    let notes = before.notes_of(p);
    assert(notes.subrange(0, notes.len() as int) =~= notes);
}

/// Removing fewer notes than a path holds (but some) leaves the rest in their
/// order, returns exactly that many, newest first, and every note kept is older
/// than every note removed.
pub proof fn removing_some_keeps_older(
    before: Config,
    after: Config,
    p: Seq<char>,
    count: nat,
    removed: Seq<MessageData>,
)
    requires
        before.wf(),
        removal(before, after, p, count, removed),
        0 < count < before.notes_of(p).len(),
    ensures
        after.has_repo(p),
        after.notes_of(p).len() == before.notes_of(p).len() - count,
        removed.len() == count,
        forall|j: int|
            0 <= j < count ==> #[trigger] removed[j] == before.notes_of(p)[before.notes_of(p).len()
                - 1 - j],
        forall|i: int, j: int|
            0 <= i < after.notes_of(p).len() && 0 <= j < count ==> {
                &&& #[trigger] after.notes_of(p)[i] == before.notes_of(p)[i]
                &&& i < before.notes_of(p).len() - 1 - j
                &&& #[trigger] removed[j] == before.notes_of(p)[before.notes_of(p).len() - 1 - j]
            },
{
}

} // verus!
