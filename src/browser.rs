//! The browser's state machine: current directory, sorted listing, cursor
//! and marks. It never touches the file system: the caller reads a directory
//! when an [`Action`] asks for it and hands the listing back.
use vstd::prelude::*;
use vstd::arithmetic::div_mod::*;
use crate::listing::{sort_entries, sorted_entries, views, Entry, EntryView};
use crate::selection::Selection;

verus! {

/// A key as the browser sees it.
pub enum Key {
    Char(char),
    Up,
    Down,
    Backspace,
    Enter,
    Esc,
    Other,
}

/// What the caller is to do after an input.
pub enum Action {
    /// Nothing beyond redrawing.
    Nothing,
    /// Leave the browser.
    Quit,
    /// Read the current directory again and pass it to `reload_entries`.
    Reload,
    /// Read this directory and pass it to `change_dir`.
    ChangeDir(String),
    /// Open this file in the external editor.
    Open(String),
}

/// The mathematical value of an [`App`].
pub struct AppView {
    pub cwd: Seq<char>,
    pub entries: Seq<EntryView>,
    pub cursor: Option<usize>,
    pub selection: Set<Seq<char>>,
}

/// The cursor is absent exactly when the listing is empty, and otherwise
/// points into it.
pub open spec fn cursor_valid(cursor: Option<usize>, len: nat) -> bool {
    match cursor {
        None => len == 0,
        Some(i) => i < len,
    }
}

/// Where a cursor at `start` lands after moving `delta` places in a listing
/// of `len` entries, wrapping round at either end.
pub open spec fn moved(start: int, delta: int, len: int) -> int {
    (start + delta) % len
}

/// The cursor after a reload into `len` entries: absent on an empty listing,
/// the first entry when there was none, else the old place, held within the
/// new listing.
pub open spec fn reload_cursor(old: Option<usize>, len: nat) -> Option<usize> {
    if len == 0 {
        None
    } else {
        match old {
            None => Some(0),
            Some(i) => if i < len {
                Some(i)
            } else {
                Some((len - 1) as usize)
            },
        }
    }
}

/// The cursor of a fresh listing of `len` entries.
pub open spec fn first_cursor(len: nat) -> Option<usize> {
    if len == 0 {
        None
    } else {
        Some(0)
    }
}

/// `s` with `p` marked if it was not, unmarked if it was.
pub open spec fn toggled(s: Set<Seq<char>>, p: Seq<char>) -> Set<Seq<char>> {
    if s.contains(p) {
        s.remove(p)
    } else {
        s.insert(p)
    }
}

/// `q` is `p` with something taken off its end.
pub open spec fn is_proper_prefix(q: Seq<char>, p: Seq<char>) -> bool {
    q.len() < p.len() && q == p.take(q.len() as int)
}

/// `p` holds a character that is neither a separator nor a dot, so it has a
/// component that names something.
pub open spec fn has_named_component(p: Seq<char>) -> bool {
    exists|i: int| 0 <= i < p.len() && p[i] != '/' && p[i] != '.'
}

/// `p` is a root: one or more separators and nothing else.
pub open spec fn is_root(p: Seq<char>) -> bool {
    p.len() > 0 && forall|i: int| 0 <= i < p.len() ==> p[i] == '/'
}

/// `p` is `q`, a separator and a last component `n` written plainly: `q`
/// ends in neither a separator nor a dot, and `n` is not `.` and holds no
/// separator.
pub open spec fn plain_child(p: Seq<char>, q: Seq<char>) -> bool {
    exists|n: Seq<char>|
        #![trigger q + seq!['/'] + n]
        p == q + seq!['/'] + n && q.len() > 0 && q.last() != '/' && q.last() != '.' && n.len()
            > 0 && n != seq!['.'] && !n.contains('/')
}

/// The parent directory of a path under Unix path rules (the browser starts
/// `sh`, so it runs on Unix only).
pub uninterp spec fn parent_of(p: Seq<char>) -> Option<Seq<char>>;

/// Relies on `std::path::Path::parent` under Unix path rules: the path
/// without its last component, a part of the path's own text; `None` only for
/// a root or the empty path, so a path with a named component has a parent;
/// and the plain `q/n` gives `q`.
#[verifier::external_body]
fn parent_path(p: &str) -> (r: Option<String>)
    ensures
        match r {
            Some(q) => parent_of(p@) == Some(q@),
            None => parent_of(p@) is None,
        },
        r matches Some(q) ==> is_proper_prefix(q@, p@),
        is_root(p@) || p@.len() == 0 ==> r is None,
        has_named_component(p@) ==> r is Some,
        r matches Some(x) ==> forall|q: Seq<char>| #[trigger] plain_child(p@, q) ==> x@ == q,
{
    match std::path::Path::new(p).parent() {
        Some(q) => Some(q.to_string_lossy().into_owned()),
        None => None,
    }
}

/// The browser's state.
pub struct App {
    cwd: String,
    entries: Vec<Entry>,
    cursor: Option<usize>,
    selection: Selection,
}

impl View for App {
    type V = AppView;

    closed spec fn view(&self) -> AppView {
        AppView {
            cwd: self.cwd@,
            entries: views(self.entries@),
            cursor: self.cursor,
            selection: self.selection@,
        }
    }
}

impl App {
    /// The marks hold no path twice.
    pub closed spec fn inner_wf(&self) -> bool {
        self.selection.wf() && self.entries@.len() == views(self.entries@).len()
    }

    /// The state's invariant.
    pub open spec fn wf(&self) -> bool {
        self.inner_wf() && cursor_valid(self@.cursor, self@.entries.len())
    }

    proof fn lemma_view(&self)
        ensures
            self@.cwd == self.cwd@,
            self@.entries == views(self.entries@),
            self@.entries.len() == self.entries@.len(),
            self@.cursor == self.cursor,
            self@.selection == self.selection@,
    {
    }

    /// A browser in `cwd`, showing `listing` (the entries read from `cwd`)
    /// in listing order, with the cursor on the first entry and nothing
    /// marked.
    pub fn new(cwd: String, listing: Vec<Entry>) -> (r: App)
        ensures
            r.wf(),
            r@.cwd == cwd@,
            r@.entries == sorted_entries(views(listing@)),
            r@.cursor == first_cursor(r@.entries.len()),
            r@.selection == Set::<Seq<char>>::empty(),
    {
        let entries = sort_entries(listing);
        let cursor = if entries.len() == 0 {
            None
        } else {
            Some(0)
        };
        let r = App { cwd, entries, cursor, selection: Selection::new() };
        proof {
            r.lemma_view();
        }
        r
    }

    /// The current directory.
    pub fn cwd(&self) -> (r: &String)
        ensures
            r@ == self@.cwd,
    {
        proof {
            self.lemma_view();
        }
        &self.cwd
    }

    /// The entries of the current directory, in listing order.
    pub fn entries(&self) -> (r: &Vec<Entry>)
        ensures
            views(r@) == self@.entries,
    {
        proof {
            self.lemma_view();
        }
        &self.entries
    }

    /// The marked paths.
    pub fn selection(&self) -> (r: &Selection)
        ensures
            r@ == self@.selection,
    {
        proof {
            self.lemma_view();
        }
        &self.selection
    }

    /// How many paths are marked.
    pub fn selected_count(&self) -> (r: usize)
        requires
            self.wf(),
        ensures
            r == self@.selection.len(),
    {
        proof {
            self.lemma_view();
        }
        self.selection.count()
    }

    /// Whether `p` is marked.
    pub fn is_marked(&self, p: &String) -> (r: bool)
        ensures
            r == self@.selection.contains(p@),
    {
        proof {
            self.lemma_view();
        }
        self.selection.contains(p)
    }

    /// The cursor's position.
    pub fn selected_index(&self) -> (r: Option<usize>)
        ensures
            r == self@.cursor,
    {
        proof {
            self.lemma_view();
        }
        self.cursor
    }

    /// The entry under the cursor.
    pub fn selected_entry(&self) -> (r: Option<&Entry>)
        requires
            self.wf(),
        ensures
            match self@.cursor {
                None => r is None,
                Some(i) => r matches Some(e) && e@ == self@.entries[i as int],
            },
    {
        proof {
            self.lemma_view();
        }
        match self.cursor {
            None => None,
            Some(i) => Some(&self.entries[i]),
        }
    }

    /// Replaces the listing with `listing`, read anew from the current
    /// directory. Marks are kept, also those of paths no longer listed.
    pub fn reload_entries(&mut self, listing: Vec<Entry>)
        requires
            old(self).wf(),
        ensures
            final(self).wf(),
            final(self)@.cwd == old(self)@.cwd,
            final(self)@.entries == sorted_entries(views(listing@)),
            final(self)@.cursor == reload_cursor(old(self)@.cursor, final(self)@.entries.len()),
            final(self)@.selection == old(self)@.selection,
    {
        proof {
            self.lemma_view();
        }
        self.entries = sort_entries(listing);
        let len = self.entries.len();
        self.cursor = if len == 0 {
            None
        } else {
            match self.cursor {
                None => Some(0),
                Some(i) => if i < len {
                    Some(i)
                } else {
                    Some(len - 1)
                },
            }
        };
        proof {
            self.lemma_view();
        }
    }

    /// Makes `dir` the current directory, showing `listing` (the entries
    /// read from `dir`) with the cursor on the first entry. Marks are kept.
    pub fn change_dir(&mut self, dir: String, listing: Vec<Entry>)
        requires
            old(self).wf(),
        ensures
            final(self).wf(),
            final(self)@.cwd == dir@,
            final(self)@.entries == sorted_entries(views(listing@)),
            final(self)@.cursor == first_cursor(final(self)@.entries.len()),
            final(self)@.selection == old(self)@.selection,
    {
        proof {
            self.lemma_view();
        }
        self.cwd = dir;
        self.entries = sort_entries(listing);
        self.cursor = if self.entries.len() == 0 {
            None
        } else {
            Some(0)
        };
        proof {
            self.lemma_view();
        }
    }

    /// Moves the cursor `delta` places, wrapping round at either end; on an
    /// empty listing the cursor stays absent.
    pub fn move_by(&mut self, delta: isize)
        requires
            old(self).wf(),
        ensures
            final(self).wf(),
            final(self)@.cwd == old(self)@.cwd,
            final(self)@.entries == old(self)@.entries,
            final(self)@.selection == old(self)@.selection,
            old(self)@.entries.len() == 0 ==> final(self)@.cursor is None,
            old(self)@.entries.len() > 0 ==> final(self)@.cursor == Some(
                moved(
                    match old(self)@.cursor {
                        Some(i) => i as int,
                        None => 0,
                    },
                    delta as int,
                    old(self)@.entries.len() as int,
                ) as usize,
            ),
    {
        proof {
            self.lemma_view();
        }
        let len = self.entries.len();
        if len == 0 {
            self.cursor = None;
            proof {
                self.lemma_view();
            }
            return;
        }
        let start: usize = match self.cursor {
            Some(i) => i,
            None => 0,
        };
        let idx: usize;
        if delta >= 0 {
            let d: usize = (delta as usize) % len;
            if d < len - start {
                idx = start + d;
            } else {
                idx = d - (len - start);
            }
            proof {
                lemma_add_mod_noop_right(start as int, delta as int, len as int);
                if d < len - start {
                    lemma_fundamental_div_mod_converse_mod(start + d, len as int, 0, idx as int);
                } else {
                    lemma_fundamental_div_mod_converse_mod(start + d, len as int, 1, idx as int);
                }
            }
        } else {
            let neg: usize = ((-(delta + 1)) as usize) + 1;
            let d: usize = neg % len;
            if d <= start {
                idx = start - d;
            } else {
                idx = len - (d - start);
            }
            proof {
                lemma_sub_mod_noop_right(start as int, neg as int, len as int);
                assert(start as int + delta as int == start as int - neg as int);
                if d <= start {
                    lemma_fundamental_div_mod_converse_mod(start - d, len as int, 0, idx as int);
                } else {
                    lemma_fundamental_div_mod_converse_mod(start - d, len as int, -1, idx as int);
                }
            }
        }
        self.cursor = Some(idx);
        proof {
            self.lemma_view();
        }
    }

    /// Moves the cursor to the next entry, from the last to the first.
    pub fn next(&mut self)
        requires
            old(self).wf(),
        ensures
            final(self).wf(),
            final(self)@.cwd == old(self)@.cwd,
            final(self)@.entries == old(self)@.entries,
            final(self)@.selection == old(self)@.selection,
            old(self)@.entries.len() == 0 ==> final(self)@.cursor is None,
            old(self)@.entries.len() > 0 ==> final(self)@.cursor == Some(
                moved(
                    match old(self)@.cursor {
                        Some(i) => i as int,
                        None => 0,
                    },
                    1,
                    old(self)@.entries.len() as int,
                ) as usize,
            ),
    {
        self.move_by(1);
    }

    /// Moves the cursor to the previous entry, from the first to the last.
    pub fn prev(&mut self)
        requires
            old(self).wf(),
        ensures
            final(self).wf(),
            final(self)@.cwd == old(self)@.cwd,
            final(self)@.entries == old(self)@.entries,
            final(self)@.selection == old(self)@.selection,
            old(self)@.entries.len() == 0 ==> final(self)@.cursor is None,
            old(self)@.entries.len() > 0 ==> final(self)@.cursor == Some(
                moved(
                    match old(self)@.cursor {
                        Some(i) => i as int,
                        None => 0,
                    },
                    -1,
                    old(self)@.entries.len() as int,
                ) as usize,
            ),
    {
        self.move_by(-1);
    }

    /// Marks the path under the cursor if it was not marked, unmarks it if it
    /// was; nothing happens without a cursor.
    pub fn toggle_mark(&mut self)
        requires
            old(self).wf(),
        ensures
            final(self).wf(),
            final(self)@.cwd == old(self)@.cwd,
            final(self)@.entries == old(self)@.entries,
            final(self)@.cursor == old(self)@.cursor,
            final(self)@.selection == match old(self)@.cursor {
                None => old(self)@.selection,
                Some(i) => toggled(old(self)@.selection, old(self)@.entries[i as int].path),
            },
    {
        proof {
            self.lemma_view();
        }
        match self.cursor {
            None => {},
            Some(i) => {
                let p = self.entries[i].path.clone();
                self.selection.toggle(p);
            },
        }
        proof {
            self.lemma_view();
        }
    }

    /// What opening the entry under the cursor asks for: a directory is
    /// entered, a file goes to the editor, and without a cursor nothing
    /// happens.
    pub fn enter(&self) -> (r: Action)
        requires
            self.wf(),
        ensures
            match self@.cursor {
                None => r is Nothing,
                Some(i) => if self@.entries[i as int].is_dir {
                    r matches Action::ChangeDir(d) && d@ == self@.entries[i as int].path
                } else {
                    r matches Action::Open(f) && f@ == self@.entries[i as int].path
                },
            },
    {
        proof {
            self.lemma_view();
        }
        match self.cursor {
            None => Action::Nothing,
            Some(i) => {
                let e = &self.entries[i];
                if e.is_dir {
                    Action::ChangeDir(e.path.clone())
                } else {
                    Action::Open(e.path.clone())
                }
            },
        }
    }

    /// What going up one directory asks for: the parent of the current
    /// directory, or nothing at a root.
    pub fn up_dir(&self) -> (r: Action)
        ensures
            match parent_of(self@.cwd) {
                Some(q) => r matches Action::ChangeDir(d) && d@ == q && is_proper_prefix(q, self@.cwd),
                None => r is Nothing,
            },
            is_root(self@.cwd) || self@.cwd.len() == 0 ==> r is Nothing,
            has_named_component(self@.cwd) ==> r is ChangeDir,
            forall|q: Seq<char>| #[trigger]
                plain_child(self@.cwd, q) ==> (r matches Action::ChangeDir(d) && d@ == q),
    {
        proof {
            self.lemma_view();
        }
        proof {
            let p = self@.cwd;
            assert forall|q: Seq<char>| #[trigger] plain_child(p, q) implies has_named_component(p) by {
                let n = choose|n: Seq<char>|
                    #![trigger q + seq!['/'] + n]
                    p == q + seq!['/'] + n && q.len() > 0 && q.last() != '/' && q.last() != '.'
                        && n.len() > 0 && n != seq!['.'] && !n.contains('/');
                assert(p[q.len() - 1] == q.last());
            }
        }
        match parent_path(self.cwd.as_str()) {
            Some(q) => Action::ChangeDir(q),
            None => Action::Nothing,
        }
    }

    /// Applies a key press: `q` or Esc quits, Down or `j` and Up or `k` move,
    /// Backspace goes up, `r` reloads, space toggles the mark and Enter opens.
    /// Any other key does nothing.
    pub fn handle_key(&mut self, key: Key) -> (r: Action)
        requires
            old(self).wf(),
        ensures
            final(self).wf(),
            match key {
                Key::Char('q') | Key::Esc => r is Quit && *final(self) == *old(self),
                Key::Down | Key::Char('j') => r is Nothing && final(self)@.cwd == old(self)@.cwd
                    && final(self)@.entries == old(self)@.entries && final(self)@.selection
                    == old(self)@.selection && (old(self)@.entries.len() > 0
                    ==> final(self)@.cursor == Some(
                    moved(old(self)@.cursor.unwrap_or(0) as int, 1, old(self)@.entries.len() as int)
                        as usize,
                )),
                Key::Up | Key::Char('k') => r is Nothing && final(self)@.cwd == old(self)@.cwd
                    && final(self)@.entries == old(self)@.entries && final(self)@.selection
                    == old(self)@.selection && (old(self)@.entries.len() > 0
                    ==> final(self)@.cursor == Some(
                    moved(old(self)@.cursor.unwrap_or(0) as int, -1, old(self)@.entries.len() as int)
                        as usize,
                )),
                Key::Backspace => *final(self) == *old(self) && match parent_of(old(self)@.cwd) {
                    Some(q) => r matches Action::ChangeDir(d) && d@ == q,
                    None => r is Nothing,
                },
                Key::Char('r') => r is Reload && *final(self) == *old(self),
                Key::Char(' ') => r is Nothing && final(self)@.cwd == old(self)@.cwd
                    && final(self)@.entries == old(self)@.entries && final(self)@.cursor
                    == old(self)@.cursor && final(self)@.selection == match old(self)@.cursor {
                    None => old(self)@.selection,
                    Some(i) => toggled(old(self)@.selection, old(self)@.entries[i as int].path),
                },
                Key::Enter => *final(self) == *old(self) && match old(self)@.cursor {
                    None => r is Nothing,
                    Some(i) => if old(self)@.entries[i as int].is_dir {
                        r matches Action::ChangeDir(d) && d@ == old(self)@.entries[i as int].path
                    } else {
                        r matches Action::Open(f) && f@ == old(self)@.entries[i as int].path
                    },
                },
                _ => r is Nothing && *final(self) == *old(self),
            },
    {
        match key {
            Key::Char('q') | Key::Esc => Action::Quit,
            Key::Down | Key::Char('j') => {
                self.next();
                Action::Nothing
            },
            Key::Up | Key::Char('k') => {
                self.prev();
                Action::Nothing
            },
            Key::Backspace => self.up_dir(),
            Key::Char('r') => Action::Reload,
            Key::Char(' ') => {
                self.toggle_mark();
                Action::Nothing
            },
            Key::Enter => self.enter(),
            _ => Action::Nothing,
        }
    }
} // impl App

/// In a listing of `len` entries, moving back one place from the first entry
/// lands on the last, and moving on one place from the last lands on the
/// first.
pub proof fn lemma_move_wraps(len: int)
    requires
        len > 0,
    ensures
        moved(0, -1, len) == len - 1,
        moved(len - 1, 1, len) == 0,
{
    lemma_fundamental_div_mod_converse_mod(-1, len, -1, len - 1);
    lemma_fundamental_div_mod_converse_mod(len, len, 1, 0);
}

/// Toggling the same path twice leaves the marks as they were.
pub proof fn lemma_toggle_twice(s: Set<Seq<char>>, p: Seq<char>)
    ensures
        toggled(toggled(s, p), p) == s,
{
    assert(toggled(toggled(s, p), p) =~= s);
}

} // verus!
