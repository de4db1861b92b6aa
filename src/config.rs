use crate::datetime::current_datetime;
use toml::value::Datetime;
use vstd::prelude::*;

verus! {

/// One note: its text and the moment it was written.
pub struct MessageData {
    message: String,
    date: Datetime,
}

/// The note history of one directory path, oldest note first.
pub struct RepoData {
    path: String,
    messages: Vec<MessageData>,
}

/// The whole store: one entry per directory path, in order of creation.
pub struct Config {
    repos: Vec<RepoData>,
}

/// No two entries share a path, and no entry is without notes.
pub open spec fn entries_wf(entries: Seq<RepoData>) -> bool {
    &&& forall|i: int, j: int|
        0 <= i < entries.len() && 0 <= j < entries.len() && i != j
            ==> #[trigger] entries[i].path_view() != #[trigger] entries[j].path_view()
    &&& forall|i: int| 0 <= i < entries.len() ==> #[trigger] entries[i].notes().len() > 0
}

/// What adding a note with text `text` to path `p` does: the note goes at the
/// end of that path's history, a new entry (placed last) is made only when the
/// path had none, and every other entry stays as it was, where it was.
pub open spec fn addition(before: Config, after: Config, p: Seq<char>, text: Seq<char>) -> bool {
    let notes = before.notes_of(p);
    &&& after.wf()
    &&& after.agrees_off(&before, p)
    &&& after.has_repo(p)
    &&& after.notes_of(p).len() == notes.len() + 1
    &&& after.notes_of(p).drop_last() == notes
    &&& after.notes_of(p).last().text() == text
    &&& before.has_repo(p) ==> after.entries() == before.entries().update(
        before.index_of(p),
        after.entries()[before.index_of(p)],
    )
    &&& !before.has_repo(p) ==> after.entries() == before.entries().push(after.entries().last())
}

/// What removing `count` notes from path `p` does, handing back `removed`: the
/// last `min(count, n)` of its `n` notes are taken, newest first, the older
/// ones stay in order, the entry is dropped when none is left, a path without
/// an entry changes nothing, and every other entry stays as it was, where it was.
pub open spec fn removal(
    before: Config,
    after: Config,
    p: Seq<char>,
    count: nat,
    removed: Seq<MessageData>,
) -> bool {
    let notes = before.notes_of(p);
    let n = notes.len();
    let k = if count >= n { n } else { count };
    &&& after.wf()
    &&& after.agrees_off(&before, p)
    &&& removed == notes.subrange(n - k, n as int).reverse()
    &&& after.notes_of(p) == notes.subrange(0, n - k)
    &&& after.has_repo(p) == (before.has_repo(p) && count < n)
    &&& !before.has_repo(p) ==> after == before
    &&& before.has_repo(p) && count < n ==> after.entries() == before.entries().update(
        before.index_of(p),
        after.entries()[before.index_of(p)],
    )
    &&& before.has_repo(p) && count >= n ==> after.entries() == before.entries().remove(
        before.index_of(p),
    )
}

impl MessageData {
    /// The note's text.
    pub closed spec fn text(&self) -> Seq<char> {
        self.message@
    }

    /// The note's timestamp.
    pub closed spec fn when(&self) -> Datetime {
        self.date
    }

    pub fn new(message: String, date: Datetime) -> (r: MessageData)
        ensures
            r.text() == message@,
            r.when() == date,
    {
        MessageData { message, date }
    }

    pub fn date(&self) -> (r: &Datetime)
        ensures
            *r == self.when(),
    {
        &self.date
    }

    pub fn message(&self) -> (r: &str)
        ensures
            r@ == self.text(),
    {
        self.message.as_str()
    }
}

impl RepoData {
    /// The directory path this history belongs to.
    pub closed spec fn path_view(&self) -> Seq<char> {
        self.path@
    }

    /// The notes, oldest first.
    pub closed spec fn notes(&self) -> Seq<MessageData> {
        self.messages@
    }

    pub fn new(path: String, messages: Vec<MessageData>) -> (r: RepoData)
        ensures
            r.path_view() == path@,
            r.notes() == messages@,
    {
        RepoData { path, messages }
    }

    pub fn path(&self) -> (r: &str)
        ensures
            r@ == self.path_view(),
    {
        self.path.as_str()
    }

    /// Returns a reference to the vector of messages relating to this repo
    pub fn messages(&self) -> (r: &Vec<MessageData>)
        ensures
            r@ == self.notes(),
    {
        &self.messages
    }

    pub fn last_message(&self) -> (r: Option<&MessageData>)
        ensures
            r is Some == (self.notes().len() > 0),
            r matches Some(m) ==> *m == self.notes().last(),
    {
        let n = self.messages.len();
        if n == 0 {
            None
        } else {
            Some(&self.messages[n - 1])
        }
    }
}

impl Config {
    /// The entries, in order of creation.
    pub closed spec fn entries(&self) -> Seq<RepoData> {
        self.repos@
    }

    pub open spec fn wf(&self) -> bool {
        entries_wf(self.entries())
    }

    /// Whether some entry belongs to path `p`.
    pub open spec fn has_repo(&self, p: Seq<char>) -> bool {
        exists|i: int| 0 <= i < self.entries().len() && #[trigger] self.entries()[i].path_view() == p
    }

    /// The position of the entry for path `p` (meaningful when `has_repo(p)`).
    pub open spec fn index_of(&self, p: Seq<char>) -> int {
        choose|i: int| 0 <= i < self.entries().len() && #[trigger] self.entries()[i].path_view() == p
    }

    /// The notes kept for path `p`, oldest first; empty when no entry has that path.
    pub open spec fn notes_of(&self, p: Seq<char>) -> Seq<MessageData> {
        if self.has_repo(p) {
            self.entries()[self.index_of(p)].notes()
        } else {
            Seq::empty()
        }
    }

    /// Every path other than `p` has the same entry, with the same notes, in
    /// `self` and in `other`.
    pub open spec fn agrees_off(&self, other: &Config, p: Seq<char>) -> bool {
        forall|q: Seq<char>|
            q != p ==> {
                &&& #[trigger] self.has_repo(q) == other.has_repo(q)
                &&& self.notes_of(q) == other.notes_of(q)
            }
    }

    proof fn lemma_index(&self, i: int)
        requires
            self.wf(),
            0 <= i < self.entries().len(),
        ensures
            self.has_repo(self.entries()[i].path_view()),
            self.index_of(self.entries()[i].path_view()) == i,
            self.notes_of(self.entries()[i].path_view()) == self.entries()[i].notes(),
    {
        let p = self.entries()[i].path_view();
        assert(self.has_repo(p));
        let j = self.index_of(p);
        assert(self.entries()[j].path_view() == p);
    }

    /// Replacing entry `i` by one with the same path and some notes keeps the
    /// store well formed and every other path's notes as they were.
    proof fn lemma_update_frame(&self, new: &Config, i: int, e: RepoData)
        requires
            self.wf(),
            0 <= i < self.entries().len(),
            e.path_view() == self.entries()[i].path_view(),
            e.notes().len() > 0,
            new.entries() == self.entries().update(i, e),
        ensures
            new.wf(),
            new.agrees_off(self, e.path_view()),
            new.has_repo(e.path_view()),
            new.notes_of(e.path_view()) == e.notes(),
    {
        let p = e.path_view();
        assert(new.entries()[i] == e);
        new.lemma_index(i);
        assert forall|q: Seq<char>| q != p implies {
            &&& #[trigger] new.has_repo(q) == self.has_repo(q)
            &&& new.notes_of(q) == self.notes_of(q)
        } by {
            if self.has_repo(q) {
                let j = self.index_of(q);
                self.lemma_index(j);
                assert(new.entries()[j] == self.entries()[j]);
                new.lemma_index(j);
            }
            if new.has_repo(q) {
                let j = new.index_of(q);
                assert(new.entries()[j] == self.entries()[j]);
                self.lemma_index(j);
            }
        }
    }

    /// Appending an entry for a new path with some notes keeps the store well
    /// formed and every other path's notes as they were.
    proof fn lemma_push_frame(&self, new: &Config, e: RepoData)
        requires
            self.wf(),
            !self.has_repo(e.path_view()),
            e.notes().len() > 0,
            new.entries() == self.entries().push(e),
        ensures
            new.wf(),
            new.agrees_off(self, e.path_view()),
            new.has_repo(e.path_view()),
            new.notes_of(e.path_view()) == e.notes(),
    {
        let p = e.path_view();
        let n = self.entries().len() as int;
        assert forall|j: int| 0 <= j < n implies #[trigger] self.entries()[j].path_view() != p by {}
        assert(new.entries()[n] == e);
        new.lemma_index(n);
        assert forall|q: Seq<char>| q != p implies {
            &&& #[trigger] new.has_repo(q) == self.has_repo(q)
            &&& new.notes_of(q) == self.notes_of(q)
        } by {
            if self.has_repo(q) {
                let j = self.index_of(q);
                self.lemma_index(j);
                assert(new.entries()[j] == self.entries()[j]);
                new.lemma_index(j);
            }
            if new.has_repo(q) {
                let j = new.index_of(q);
                assert(new.entries()[j] == self.entries()[j]);
                self.lemma_index(j);
            }
        }
    }

    /// Dropping entry `i` keeps the store well formed, leaves no entry for its
    /// path and every other path's notes as they were.
    proof fn lemma_remove_frame(&self, new: &Config, i: int)
        requires
            self.wf(),
            0 <= i < self.entries().len(),
            new.entries() == self.entries().remove(i),
        ensures
            new.wf(),
            new.agrees_off(self, self.entries()[i].path_view()),
            !new.has_repo(self.entries()[i].path_view()),
    {
        let p = self.entries()[i].path_view();
        let s = self.entries();
        let t = new.entries();
        assert forall|a: int, b: int|
            0 <= a < t.len() && 0 <= b < t.len() && a != b implies #[trigger] t[a].path_view()
            != #[trigger] t[b].path_view() by {
            let a2 = if a < i { a } else { a + 1 };
            let b2 = if b < i { b } else { b + 1 };
            assert(t[a] == s[a2]);
            assert(t[b] == s[b2]);
        }
        assert forall|a: int| 0 <= a < t.len() implies #[trigger] t[a].notes().len() > 0 by {
            let a2 = if a < i { a } else { a + 1 };
            assert(t[a] == s[a2]);
        }
        assert(new.wf());
        if new.has_repo(p) {
            let j = new.index_of(p);
            let j2 = if j < i { j } else { j + 1 };
            assert(t[j] == s[j2]);
        }
        assert forall|q: Seq<char>| q != p implies {
            &&& #[trigger] new.has_repo(q) == self.has_repo(q)
            &&& new.notes_of(q) == self.notes_of(q)
        } by {
            if self.has_repo(q) {
                let j = self.index_of(q);
                self.lemma_index(j);
                let j2 = if j < i { j } else { j - 1 };
                assert(t[j2] == s[j]);
                new.lemma_index(j2);
            }
            if new.has_repo(q) {
                let j = new.index_of(q);
                let j2 = if j < i { j } else { j + 1 };
                assert(t[j] == s[j2]);
                self.lemma_index(j2);
            }
        }
    }

    /// An empty store.
    pub fn default() -> (r: Config)
        ensures
            r.wf(),
            r.entries().len() == 0,
    {
        Config { repos: Vec::new() }
    }

    fn find_index(&self, repo_path: &str) -> (r: Option<usize>)
        requires
            self.wf(),
        ensures
            r is Some == self.has_repo(repo_path@),
            r matches Some(i) ==> i == self.index_of(repo_path@) && i < self.entries().len(),
    {
        let key = repo_path.to_owned();
        let mut i: usize = 0;
        while i < self.repos.len()
            invariant
                self.wf(),
                i <= self.repos@.len(),
                key@ == repo_path@,
                forall|j: int| 0 <= j < i ==> #[trigger] self.repos@[j].path@ != repo_path@,
            decreases self.repos@.len() - i,
        {
            if self.repos[i].path == key {
                proof {
                    self.lemma_index(i as int);
                }
                return Some(i);
            }
            i += 1;
        }
        proof {
            assert forall|j: int| 0 <= j < self.entries().len() implies #[trigger] self.entries()[j].path_view()
                != repo_path@ by {
                assert(self.repos@[j].path@ != repo_path@);
            }
        }
        None
    }

    /// The entry whose path is exactly `repo_path`, if there is one.
    pub fn repo_data(&self, repo_path: &str) -> (r: Option<&RepoData>)
        requires
            self.wf(),
        ensures
            r is Some == self.has_repo(repo_path@),
            r matches Some(d) ==> d.path_view() == repo_path@ && d.notes() == self.notes_of(
                repo_path@,
            ),
    {
        match self.find_index(repo_path) {
            Some(i) => Some(&self.repos[i]),
            None => None,
        }
    }

    /// The entry for `repo_path`, for changing in place.
    pub fn repo_data_mut(&mut self, repo_path: &str) -> (r: Option<&mut RepoData>)
        requires
            old(self).wf(),
        ensures
            r is Some == old(self).has_repo(repo_path@),
            r is None ==> *final(self) == *old(self),
            r matches Some(d) ==> {
                &&& *d == old(self).entries()[old(self).index_of(repo_path@)]
                &&& final(self).entries() == old(self).entries().update(
                    old(self).index_of(repo_path@),
                    *final(d),
                )
            },
    {
        match self.find_index(repo_path) {
            Some(i) => Some(&mut self.repos[i]),
            None => None,
        }
    }

    /// Appends a note with the given timestamp to the history of `repo_path`,
    /// creating the entry (at the end of the store) when the path has none yet.
    pub fn put_note_dated(&mut self, repo_path: &str, note: String, date: Datetime)
        requires
            old(self).wf(),
        ensures
            addition(*old(self), *final(self), repo_path@, note@),
            final(self).notes_of(repo_path@).last().when() == date,
    {
        let note_data = MessageData { message: note, date };
        match self.find_index(repo_path) {
            Some(i) => {
                let mut entry = self.repos.remove(i);
                entry.messages.push(note_data);
                let ghost e = entry;
                self.repos.insert(i, entry);
                proof {
                    assert(self.entries() =~= old(self).entries().update(i as int, e));
                    old(self).lemma_index(i as int);
                    assert(e.notes().drop_last() =~= old(self).entries()[i as int].notes());
                    old(self).lemma_update_frame(self, i as int, e);
                }
            },
            None => {
                let mut messages: Vec<MessageData> = Vec::new();
                messages.push(note_data);
                let entry = RepoData { path: repo_path.to_owned(), messages };
                let ghost e = entry;
                self.repos.push(entry);
                proof {
                    assert(e.notes().drop_last() =~= Seq::<MessageData>::empty());
                    old(self).lemma_push_frame(self, e);
                }
            },
        }
    }

    /// Removes up to `count` of the most recent notes of `repo_path` and returns
    /// them, most recent first. When no note would be left the entry itself is
    /// dropped; a path without an entry gives nothing and changes nothing.
    pub fn remove_notes(&mut self, repo_path: &str, count: usize) -> (r: Vec<MessageData>)
        requires
            old(self).wf(),
        ensures
            removal(*old(self), *final(self), repo_path@, count as nat, r@),
    {
        let mut popped: Vec<MessageData> = Vec::new();
        match self.find_index(repo_path) {
            None => {
                proof {
                    assert(popped@ =~= Seq::<MessageData>::empty().subrange(0, 0).reverse());
                    assert(old(self).notes_of(repo_path@).subrange(0, 0) =~= Seq::<MessageData>::empty());
                }
                popped
            },
            Some(i) => {
                proof {
                    old(self).lemma_index(i as int);
                }
                let mut entry = self.repos.remove(i);
                let ghost notes = entry.messages@;
                let n = entry.messages.len();
                let k = if count >= n { n } else { count };
                let mut j: usize = 0;
                while j < k
                    invariant
                        notes == old(self).notes_of(repo_path@),
                        n == notes.len(),
                        k <= n,
                        j <= k,
                        entry.path@ == repo_path@,
                        entry.messages@ == notes.subrange(0, n - j),
                        popped@.len() == j,
                        forall|t: int| 0 <= t < j ==> #[trigger] popped@[t] == notes[n - 1 - t],
                    decreases k - j,
                {
                    let m = entry.messages.pop().unwrap();
                    popped.push(m);
                    j += 1;
                    proof {
                        assert(entry.messages@ =~= notes.subrange(0, n - j));
                    }
                }
                proof {
                    assert(popped@ =~= notes.subrange(n - k, n as int).reverse());
                }
                if k < n {
                    let ghost e = entry;
                    self.repos.insert(i, entry);
                    proof {
                        assert(self.entries() =~= old(self).entries().update(i as int, e));
                        old(self).lemma_update_frame(self, i as int, e);
                    }
                } else {
                    proof {
                        old(self).lemma_remove_frame(self, i as int);
                        assert(notes.subrange(0, 0) =~= Seq::<MessageData>::empty());
                    }
                }
                popped
            },
        }
    }

    /// Appends a note stamped with the current time to the history of
    /// `repo_path`, creating the entry when the path has none yet.
    pub fn put_note(&mut self, repo_path: &str, note: String)
        requires
            old(self).wf(),
        ensures
            addition(*old(self), *final(self), repo_path@, note@),
    {
        let date = current_datetime();
        self.put_note_dated(repo_path, note, date);
    }

    /// The most recent note of `repo_path`, if it has any.
    pub fn latest_note(&self, repo_path: &str) -> (r: Option<&MessageData>)
        requires
            self.wf(),
        ensures
            r is Some == self.has_repo(repo_path@),
            r matches Some(m) ==> *m == self.notes_of(repo_path@).last(),
    {
        match self.repo_data(repo_path) {
            Some(d) => d.last_message(),
            None => None,
        }
    }

    /// Every note of `repo_path`, oldest first; empty when it has none.
    pub fn all_notes(&self, repo_path: &str) -> (r: Vec<&MessageData>)
        requires
            self.wf(),
        ensures
            r@.len() == self.notes_of(repo_path@).len(),
            forall|i: int| 0 <= i < r@.len() ==> *#[trigger] r@[i] == self.notes_of(repo_path@)[i],
    {
        let mut out: Vec<&MessageData> = Vec::new();
        match self.repo_data(repo_path) {
            Some(d) => {
                let mut i: usize = 0;
                while i < d.messages.len()
                    invariant
                        i <= d.messages@.len(),
                        d.notes() == self.notes_of(repo_path@),
                        out@.len() == i,
                        forall|t: int| 0 <= t < i ==> *#[trigger] out@[t] == d.messages@[t],
                    decreases d.messages@.len() - i,
                {
                    out.push(&d.messages[i]);
                    i += 1;
                }
            },
            None => {},
        }
        out
    }

    /// The entries, in order of creation.
    pub fn repos(&self) -> (r: &Vec<RepoData>)
        ensures
            r@ == self.entries(),
    {
        &self.repos
    }

    /// Builds a store from entries read back from storage: accepted exactly when
    /// no two entries share a path and every entry has at least one note.
    pub fn from_repos(repos: Vec<RepoData>) -> (r: Option<Config>)
        ensures
            r is Some == entries_wf(repos@),
            r matches Some(c) ==> c.entries() == repos@,
    {
        let n = repos.len();
        let mut i: usize = 0;
        while i < n
            invariant
                n == repos@.len(),
                i <= n,
                forall|a: int| 0 <= a < i ==> #[trigger] repos@[a].notes().len() > 0,
                forall|a: int, b: int|
                    0 <= a < i && 0 <= b < n && a != b ==> #[trigger] repos@[a].path_view()
                        != #[trigger] repos@[b].path_view(),
            decreases n - i,
        {
            if repos[i].messages.len() == 0 {
                proof {
                    assert(repos@[i as int].notes().len() == 0);
                }
                return None;
            }
            let mut j: usize = 0;
            while j < n
                invariant
                    n == repos@.len(),
                    i < n,
                    j <= n,
                    forall|b: int|
                        0 <= b < j && b != i ==> repos@[i as int].path_view()
                            != #[trigger] repos@[b].path_view(),
                decreases n - j,
            {
                if j != i && repos[i].path == repos[j].path {
                    proof {
                        assert(repos@[i as int].path_view() == repos@[j as int].path_view());
                    }
                    return None;
                }
                j += 1;
            }
            i += 1;
        }
        Some(Config { repos })
    }
}

} // verus!
