use vstd::prelude::*;

use crate::engine::{
    child_path, child_path_string, close_dir, close_dir_spec, max_len, open_entry,
    open_entry_allowed, open_entry_ok, open_entry_spec, tree_of,
};
use crate::order::{
    pair_le, pair_le_total_ordering, pair_leq, par_sort_pairs, par_sort_strings, str_le_total_ordering,
    str_leq,
};
use crate::text::str_equal;

verus! {

/// The listing of directories: for a directory's path, the names of its entries.
pub struct DirMap {
    entries: Vec<(String, Vec<String>)>,
}

pub open spec fn dir_entries_map(entries: Seq<(String, Vec<String>)>) -> Map<Seq<char>, Seq<Seq<char>>>
    decreases entries.len(),
{
    if entries.len() == 0 {
        Map::empty()
    } else {
        dir_entries_map(entries.drop_last()).insert(
            entries.last().0@,
            entries.last().1.deep_view(),
        )
    }
}

impl View for DirMap {
    type V = Map<Seq<char>, Seq<Seq<char>>>;

    closed spec fn view(&self) -> Map<Seq<char>, Seq<Seq<char>>> {
        dir_entries_map(self.entries@)
    }
}

proof fn lemma_dir_entries_skip(entries: Seq<(String, Vec<String>)>, i: int, key: Seq<char>)
    requires
        0 <= i <= entries.len(),
        forall|j: int| i <= j < entries.len() ==> entries[j].0@ != key,
    ensures
        dir_entries_map(entries).contains_key(key) == dir_entries_map(entries.take(i)).contains_key(
            key,
        ),
        dir_entries_map(entries).contains_key(key) ==> dir_entries_map(entries)[key]
            == dir_entries_map(entries.take(i))[key],
    decreases entries.len(),
{
    if i < entries.len() {
        assert(entries.drop_last().take(i) =~= entries.take(i));
        lemma_dir_entries_skip(entries.drop_last(), i, key);
    } else {
        assert(entries.take(i) =~= entries);
    }
}

proof fn lemma_dir_entries_concat(a: Seq<(String, Vec<String>)>, b: Seq<(String, Vec<String>)>)
    ensures
        dir_entries_map(a + b) == dir_entries_map(a).union_prefer_right(dir_entries_map(b)),
    decreases b.len(),
{
    if b.len() == 0 {
        assert(a + b =~= a);
        assert(dir_entries_map(a).union_prefer_right(Map::empty()) =~= dir_entries_map(a));
    } else {
        lemma_dir_entries_concat(a, b.drop_last());
        assert((a + b).drop_last() =~= a + b.drop_last());
        assert(dir_entries_map(a + b) =~= dir_entries_map(a).union_prefer_right(
            dir_entries_map(b),
        ));
    }
}

impl DirMap {
    /// An empty listing.
    pub fn new() -> (m: Self)
        ensures
            m@ == Map::<Seq<char>, Seq<Seq<char>>>::empty(),
    {
        DirMap { entries: Vec::new() }
    }

    /// Records (or replaces) the entries of the directory `path`.
    pub fn insert(&mut self, path: String, children: Vec<String>)
        ensures
            final(self)@ == old(self)@.insert(path@, children.deep_view()),
    {
        self.entries.push((path, children));
        proof {
            assert(self.entries@.drop_last() =~= old(self).entries@);
        }
    }

    /// Moves every directory of `other` into this listing; where both list a directory,
    /// `other`'s entries win. `other` is left empty.
    pub fn append(&mut self, other: &mut DirMap)
        ensures
            final(self)@ == old(self)@.union_prefer_right(old(other)@),
            final(other)@ == Map::<Seq<char>, Seq<Seq<char>>>::empty(),
    {
        proof {
            lemma_dir_entries_concat(self.entries@, other.entries@);
        }
        self.entries.append(&mut other.entries);
    }

    /// The entries of the directory `path`, if it was listed.
    pub fn get(&self, path: &str) -> (children: Option<&Vec<String>>)
        ensures
            match children {
                Some(c) => self@.contains_key(path@) && c.deep_view() == self@[path@],
                None => !self@.contains_key(path@),
            },
    {
        let mut i = self.entries.len();
        while i > 0
            invariant
                0 <= i <= self.entries@.len(),
                forall|j: int| i <= j < self.entries@.len() ==> self.entries@[j].0@ != path@,
            decreases i,
        {
            if str_equal(self.entries[i - 1].0.as_str(), path) {
                proof {
                    let es = self.entries@;
                    lemma_dir_entries_skip(es, i as int, path@);
                    assert(es.take(i as int).drop_last() =~= es.take(i - 1));
                }
                return Some(&self.entries[i - 1].1);
            }
            i = i - 1;
        }
        proof {
            lemma_dir_entries_skip(self.entries@, 0, path@);
            assert(self.entries@.take(0) =~= seq![]);
        }
        None
    }
}

/// The entries recorded for `path`, or none.
pub open spec fn dir_children(m: Map<Seq<char>, Seq<Seq<char>>>, path: Seq<char>) -> Seq<Seq<char>> {
    if m.contains_key(path) {
        m[path]
    } else {
        Seq::empty()
    }
}

/// The entries of `path` on both sides, together, in descending order (duplicates kept).
pub open spec fn joined_paths(
    path: Seq<char>,
    old_files: Map<Seq<char>, Seq<Seq<char>>>,
    new_files: Map<Seq<char>, Seq<Seq<char>>>,
) -> Seq<Seq<char>> {
    (dir_children(old_files, path) + dir_children(new_files, path)).sort_by(str_leq()).reverse()
}

fn extend_cloned(dst: &mut Vec<String>, src: &Vec<String>)
    ensures
        final(dst).deep_view() == old(dst).deep_view() + src.deep_view(),
{
    let mut i: usize = 0;
    while i < src.len()
        invariant
            0 <= i <= src@.len(),
            dst.deep_view() == old(dst).deep_view() + src.deep_view().take(i as int),
        decreases src@.len() - i,
    {
        let ghost before = dst.deep_view();
        dst.push(src[i].clone());
        proof {
            assert(dst.deep_view() =~= before.push(src@[i as int]@));
            assert(src.deep_view().take(i + 1) =~= src.deep_view().take(i as int).push(
                src@[i as int]@,
            ));
            assert(dst.deep_view() =~= old(dst).deep_view() + src.deep_view().take(i + 1));
        }
        i = i + 1;
    }
    proof {
        assert(src.deep_view().take(i as int) =~= src.deep_view());
    }
}

/// The same strings in the opposite order.
pub fn reversed(v: Vec<String>) -> (r: Vec<String>)
    ensures
        r.deep_view() == v.deep_view().reverse(),
{
    let mut v = v;
    let ghost orig = v.deep_view();
    let mut r: Vec<String> = Vec::new();
    while v.len() > 0
        invariant
            orig.len() == v@.len() + r@.len(),
            v.deep_view() == orig.take(v@.len() as int),
            r.deep_view() == orig.skip(v@.len() as int).reverse(),
        decreases v@.len(),
    {
        let ghost n = v@.len();
        let ghost prev_r = r.deep_view();
        proof {
            assert(v.deep_view()[n - 1] == orig[n - 1]);
        }
        let x = v.pop().unwrap();
        r.push(x);
        proof {
            assert(r.deep_view() =~= prev_r.push(orig[n - 1]));
            assert(v.deep_view() =~= orig.take(n - 1));
            assert(r.deep_view() =~= orig.skip(n - 1).reverse());
        }
    }
    proof {
        assert(orig.skip(0) =~= orig);
    }
    r
}

/// The entries of the directory `path` in the old and the new listing together, in
/// descending order; an entry on both sides comes twice.
pub fn get_joined_paths(path: &str, old_files: &DirMap, new_files: &DirMap) -> (paths: Vec<String>)
    ensures
        paths.deep_view() == joined_paths(path@, old_files@, new_files@),
{
    let mut result: Vec<String> = Vec::new();
    match old_files.get(path) {
        Some(x) => extend_cloned(&mut result, x),
        None => {},
    }
    match new_files.get(path) {
        Some(y) => extend_cloned(&mut result, y),
        None => {},
    }
    let ghost both = dir_children(old_files@, path@) + dir_children(new_files@, path@);
    proof {
        assert(result.deep_view() =~= both);
    }
    par_sort_strings(&mut result);
    proof {
        str_le_total_ordering();
        both.lemma_sort_by_ensures(str_leq());
        vstd::seq_lib::lemma_sorted_unique(result.deep_view(), both.sort_by(str_leq()), str_leq());
    }
    reversed(result)
}

/// Which row of the file list is selected (if any), and the first row it shows.
#[derive(Clone, Copy, Debug, PartialEq, Eq, Structural)]
pub struct ListSelection {
    pub selected: Option<usize>,
    pub offset: usize,
}

impl Default for ListSelection {
    fn default() -> (s: Self)
        ensures
            s.selected is None,
            s.offset == 0,
    {
        ListSelection { selected: None, offset: 0 }
    }
}

/// The selection after moving down one row (to the first where nothing was selected).
pub open spec fn selection_next(s: ListSelection) -> ListSelection {
    ListSelection {
        selected: Some(
            match s.selected {
                Some(i) => if i < usize::MAX {
                    (i + 1) as usize
                } else {
                    i
                },
                None => 0usize,
            },
        ),
        offset: s.offset,
    }
}

/// The selection after moving up one row (to the last possible where nothing was
/// selected).
pub open spec fn selection_previous(s: ListSelection) -> ListSelection {
    ListSelection {
        selected: Some(
            match s.selected {
                Some(i) => if i > 0 {
                    (i - 1) as usize
                } else {
                    0usize
                },
                None => usize::MAX,
            },
        ),
        offset: s.offset,
    }
}

/// Moving the selection down one row and then up one row comes back to the row selected
/// before (unless it was the last possible row); moving up from the first row stays there;
/// moving down with nothing selected selects the first row; the scroll offset is kept.
pub proof fn selection_moves_one_row(s: ListSelection, i: usize)
    ensures
        s.selected == Some(i) && i < usize::MAX ==> selection_previous(selection_next(s)) == s,
        s.selected == Some(i) && i < usize::MAX ==> selection_next(s).selected == Some(
            (i + 1) as usize,
        ),
        s.selected == Some(i) && i > 0 ==> selection_previous(s).selected == Some(
            (i - 1) as usize,
        ),
        s.selected == Some(0usize) ==> selection_previous(s) == s,
        s.selected is None ==> selection_next(s).selected == Some(0usize),
        selection_next(s).offset == s.offset && selection_previous(s).offset == s.offset,
{
}

impl ListSelection {
    /// The selected row, if any.
    pub fn selected(&self) -> (i: Option<usize>)
        ensures
            i == self.selected,
    {
        self.selected
    }

    /// Selects `index`; selecting nothing also scrolls back to the top.
    pub fn select(&mut self, index: Option<usize>)
        ensures
            final(self).selected == index,
            final(self).offset == if index is None {
                0
            } else {
                old(self).offset
            },
    {
        self.selected = index;
        if index.is_none() {
            self.offset = 0;
        }
    }

    /// Selects the first row.
    pub fn select_first(&mut self)
        ensures
            final(self).selected == Some(0usize),
            final(self).offset == old(self).offset,
    {
        self.select(Some(0));
    }

    /// Selects the next row, or the first one where nothing is selected.
    pub fn select_next(&mut self)
        ensures
            *final(self) == selection_next(*old(self)),
    {
        let next = match self.selected {
            Some(i) => if i < usize::MAX {
                i + 1
            } else {
                i
            },
            None => 0,
        };
        self.select(Some(next));
    }

    /// Selects the previous row, or the last possible one where nothing is selected.
    pub fn select_previous(&mut self)
        ensures
            *final(self) == selection_previous(*old(self)),
    {
        let previous = match self.selected {
            Some(i) => if i > 0 {
                i - 1
            } else {
                0
            },
            None => usize::MAX,
        };
        self.select(Some(previous));
    }
}

/// A key that the file browser reacts to.
#[derive(Clone, Copy, Debug, PartialEq, Eq, Structural)]
pub enum Key {
    Esc,
    Enter,
    Up,
    Down,
    Left,
    Right,
    Tab,
    PageUp,
    PageDown,
    Char(char),
    Other,
}

/// `x + 1` for the keys that move one step further (`j` or page down scroll the file,
/// right arrow scrolls the names), `x - 1` (not below 0) for the keys that move back.
pub open spec fn key_step(x: usize, forward: bool, back: bool) -> usize {
    if forward {
        (x + 1) as usize
    } else if back {
        if x > 0 {
            (x - 1) as usize
        } else {
            0
        }
    } else {
        x
    }
}

pub open spec fn scrolls_file_down(key: Key) -> bool {
    key == Key::Char('j') || key == Key::PageDown
}

pub open spec fn scrolls_file_up(key: Key) -> bool {
    key == Key::Char('k') || key == Key::PageUp
}

/// Page up scrolls the file up one row (not past the top) and page down one row down, just
/// as `k` and `j` do; the arrow keys leave the file where it is.
pub proof fn page_keys_scroll_like_k_and_j(x: usize)
    requires
        x < usize::MAX,
    ensures
        key_step(x, scrolls_file_down(Key::PageUp), scrolls_file_up(Key::PageUp)) == (if x > 0 {
            x - 1
        } else {
            0
        }),
        key_step(x, scrolls_file_down(Key::Char('k')), scrolls_file_up(Key::Char('k'))) == (if x
            > 0 {
            x - 1
        } else {
            0
        }),
        key_step(x, scrolls_file_down(Key::PageDown), scrolls_file_up(Key::PageDown)) == x + 1,
        key_step(x, scrolls_file_down(Key::Char('j')), scrolls_file_up(Key::Char('j'))) == x + 1,
        key_step(x, scrolls_file_down(Key::Up), scrolls_file_up(Key::Up)) == x,
        key_step(x, scrolls_file_down(Key::Down), scrolls_file_up(Key::Down)) == x,
{
}

/// Everything the file browser knows: the two roots and their listings, the rows of the
/// file list, the open directories, the selection, the file shown and how far it and the
/// file names are scrolled.
pub struct TuiState {
    pub old_root: String,
    pub new_root: String,
    pub current_file: Option<String>,
    pub old_files: DirMap,
    pub new_files: DirMap,
    pub file_display: Vec<(String, String)>,
    pub bottom_status: String,
    pub file_name_offset: usize,
    pub file_scroll_offset: usize,
    pub state: ListSelection,
    pub exit: bool,
    pub open_files: Vec<String>,
    pub hide_sidebar: bool,
}

impl TuiState {
    /// A browser over the given listings and rows. With the sidebar hidden (two files
    /// compared), the first row is the file shown from the start.
    pub fn new(
        old_root: String,
        new_root: String,
        old_files: DirMap,
        new_files: DirMap,
        file_display: Vec<(String, String)>,
        bottom_status: String,
        hide_sidebar: bool,
    ) -> (s: Self)
        ensures
            s.old_root == old_root,
            s.new_root == new_root,
            s.old_files == old_files,
            s.new_files == new_files,
            s.file_display == file_display,
            s.bottom_status == bottom_status,
            s.hide_sidebar == hide_sidebar,
            s.file_name_offset == 0,
            s.file_scroll_offset == 0,
            s.state.selected is None,
            s.state.offset == 0,
            !s.exit,
            s.open_files@.len() == 0,
            match s.current_file {
                Some(f) => hide_sidebar && file_display@.len() > 0 && f@ == child_path(
                    file_display@[0].0@,
                    file_display@[0].1@,
                ),
                None => !hide_sidebar || file_display@.len() == 0,
            },
    {
        let starting_file = if hide_sidebar && file_display.len() > 0 {
            Some(child_path_string(file_display[0].0.as_str(), file_display[0].1.as_str()))
        } else {
            None
        };
        TuiState {
            old_root,
            new_root,
            current_file: starting_file,
            old_files,
            new_files,
            file_display,
            bottom_status,
            file_name_offset: 0,
            file_scroll_offset: 0,
            state: ListSelection::default(),
            exit: false,
            open_files: Vec::new(),
            hide_sidebar,
        }
    }

    /// The open directories and the rows of the file list.
    pub open spec fn tree(&self) -> crate::engine::TreeView {
        tree_of(self.open_files.deep_view(), self.file_display.deep_view())
    }

    /// Whether choosing the selected row can proceed: opening a directory inserts rows
    /// after the selected row, which must then exist.
    pub fn can_open_selected(&self) -> (ok: bool)
        ensures
            ok == open_entry_ok(self.tree(), self.state.selected, self.old_files@, self.new_files@),
    {
        open_entry_allowed(
            self.state.selected,
            &self.old_files,
            &self.new_files,
            &self.file_display,
            &self.open_files,
        )
    }

    /// Chooses the selected row: closes an open directory, opens a closed one that has
    /// entries, and otherwise shows the file there.
    pub fn open_file_or_dir(&mut self)
        requires
            open_entry_ok(old(self).tree(), old(self).state.selected, old(self).old_files@, old(self).new_files@),
        ensures
            ({
                let (t, f) = open_entry_spec(
                    old(self).tree(),
                    old(self).state.selected,
                    old(self).old_root@,
                    old(self).new_root@,
                    old(self).old_files@,
                    old(self).new_files@,
                );
                &&& final(self).tree() == t
                &&& match f {
                    Some(p) => final(self).current_file matches Some(c) && c@ == p,
                    None => final(self).current_file == old(self).current_file,
                }
            }),
            final(self).old_root == old(self).old_root,
            final(self).new_root == old(self).new_root,
            final(self).old_files == old(self).old_files,
            final(self).new_files == old(self).new_files,
            final(self).bottom_status == old(self).bottom_status,
            final(self).file_name_offset == old(self).file_name_offset,
            final(self).file_scroll_offset == old(self).file_scroll_offset,
            final(self).state == old(self).state,
            final(self).exit == old(self).exit,
            final(self).hide_sidebar == old(self).hide_sidebar,
    {
        let file = open_entry(
            self.state.selected,
            self.old_root.as_str(),
            self.new_root.as_str(),
            &self.old_files,
            &self.new_files,
            &mut self.file_display,
            &mut self.open_files,
        );
        match file {
            Some(f) => {
                self.current_file = Some(f);
            },
            None => {},
        }
    }

    /// Closes the open directory `path` whose entries are `children` (see
    /// `engine::close_dir`).
    pub fn close_dir(&mut self, path: &str, children: &[String])
        requires
            old(self).open_files.deep_view().contains(path@),
        ensures
            final(self).tree() == close_dir_spec(
                old(self).tree(),
                path@,
                children.deep_view(),
                old(self).old_files@,
                old(self).new_files@,
                max_len(old(self).open_files.deep_view()),
            ),
            final(self).old_root == old(self).old_root,
            final(self).new_root == old(self).new_root,
            final(self).current_file == old(self).current_file,
            final(self).old_files == old(self).old_files,
            final(self).new_files == old(self).new_files,
            final(self).bottom_status == old(self).bottom_status,
            final(self).file_name_offset == old(self).file_name_offset,
            final(self).file_scroll_offset == old(self).file_scroll_offset,
            final(self).state == old(self).state,
            final(self).exit == old(self).exit,
            final(self).hide_sidebar == old(self).hide_sidebar,
    {
        close_dir(
            &mut self.open_files,
            path,
            children,
            &self.old_files,
            &self.new_files,
            &mut self.file_display,
        );
    }

    /// Reacts to a key: Esc quits; Enter scrolls the file back to the top and chooses the
    /// selected row; up and down move the selection; left and right scroll the file names;
    /// `k`/page up and `j`/page down scroll the file; Tab shows or hides the sidebar.
    pub fn handle_key(&mut self, key: Key)
        requires
            key == Key::Enter ==> open_entry_ok(
                old(self).tree(),
                old(self).state.selected,
                old(self).old_files@,
                old(self).new_files@,
            ),
            key == Key::Right ==> old(self).file_name_offset < usize::MAX,
            scrolls_file_down(key) ==> old(self).file_scroll_offset < usize::MAX,
        ensures
            final(self).exit == (old(self).exit || key == Key::Esc),
            final(self).file_name_offset == key_step(
                old(self).file_name_offset,
                key == Key::Right,
                key == Key::Left,
            ),
            final(self).file_scroll_offset == if key == Key::Enter {
                0
            } else {
                key_step(old(self).file_scroll_offset, scrolls_file_down(key), scrolls_file_up(key))
            },
            key == Key::PageUp || key == Key::Char('k') ==> final(self).file_scroll_offset == (
            if old(self).file_scroll_offset > 0 {
                old(self).file_scroll_offset - 1
            } else {
                0
            }),
            key == Key::PageDown || key == Key::Char('j') ==> final(self).file_scroll_offset
                == old(self).file_scroll_offset + 1,
            key == Key::Right ==> final(self).file_name_offset == old(self).file_name_offset + 1,
            key == Key::Left ==> final(self).file_name_offset == (if old(self).file_name_offset > 0 {
                old(self).file_name_offset - 1
            } else {
                0
            }),
            key != Key::Right && key != Key::Left ==> final(self).file_name_offset == old(
                self,
            ).file_name_offset,
            final(self).state == if key == Key::Up {
                selection_previous(old(self).state)
            } else if key == Key::Down {
                selection_next(old(self).state)
            } else {
                old(self).state
            },
            final(self).hide_sidebar == (old(self).hide_sidebar != (key == Key::Tab)),
            key == Key::Enter ==> ({
                let (t, f) = open_entry_spec(
                    old(self).tree(),
                    old(self).state.selected,
                    old(self).old_root@,
                    old(self).new_root@,
                    old(self).old_files@,
                    old(self).new_files@,
                );
                &&& final(self).tree() == t
                &&& match f {
                    Some(p) => final(self).current_file matches Some(c) && c@ == p,
                    None => final(self).current_file == old(self).current_file,
                }
            }),
            key != Key::Enter ==> final(self).tree() == old(self).tree()
                && final(self).current_file == old(self).current_file,
            final(self).old_root == old(self).old_root,
            final(self).new_root == old(self).new_root,
            final(self).old_files == old(self).old_files,
            final(self).new_files == old(self).new_files,
            final(self).bottom_status == old(self).bottom_status,
    {
        match key {
            Key::Esc => {
                self.exit = true;
            },
            Key::Enter => {
                self.file_scroll_offset = 0;
                self.open_file_or_dir();
            },
            Key::Up => {
                self.state.select_previous();
            },
            Key::Down => {
                self.state.select_next();
            },
            Key::Right => {
                self.file_name_offset = self.file_name_offset + 1;
            },
            Key::Left => {
                if self.file_name_offset > 0 {
                    self.file_name_offset = self.file_name_offset - 1;
                }
            },
            Key::Char('k') | Key::PageUp => {
                if self.file_scroll_offset > 0 {
                    self.file_scroll_offset = self.file_scroll_offset - 1;
                }
            },
            Key::Char('j') | Key::PageDown => {
                self.file_scroll_offset = self.file_scroll_offset + 1;
            },
            Key::Tab => {
                self.hide_sidebar = !self.hide_sidebar;
            },
            _ => {},
        }
    }
}

/// `rows` with every row whose name came before left out.
pub open spec fn first_names(rows: Seq<(Seq<char>, Seq<char>)>) -> Seq<(Seq<char>, Seq<char>)>
    decreases rows.len(),
{
    if rows.len() == 0 {
        rows
    } else {
        let r = first_names(rows.drop_last());
        if exists|i: int| 0 <= i < r.len() && r[i].1 == rows.last().1 {
            r
        } else {
            r.push(rows.last())
        }
    }
}

/// The rows under `root` for the entries `names`.
pub open spec fn root_rows(root: Seq<char>, names: Seq<Seq<char>>) -> Seq<(Seq<char>, Seq<char>)> {
    names.map_values(|x: Seq<char>| (root, x))
}

/// The first rows of the file list: the entries of both roots, each name once (the old
/// root's first), in descending order.
pub open spec fn initial_rows(
    old_root: Seq<char>,
    old_files: Map<Seq<char>, Seq<Seq<char>>>,
    new_root: Seq<char>,
    new_files: Map<Seq<char>, Seq<Seq<char>>>,
) -> Seq<(Seq<char>, Seq<char>)> {
    first_names(
        root_rows(old_root, dir_children(old_files, old_root)) + root_rows(
            new_root,
            dir_children(new_files, new_root),
        ),
    ).sort_by(pair_leq()).reverse()
}

proof fn lemma_first_names(rows: Seq<(Seq<char>, Seq<char>)>)
    ensures
        forall|i: int, j: int|
            0 <= i < j < first_names(rows).len() ==> first_names(rows)[i].1 != first_names(
                rows,
            )[j].1,
        forall|k: int|
            #![trigger rows[k]]
            0 <= k < rows.len() ==> exists|i: int|
                0 <= i < first_names(rows).len() && #[trigger] first_names(rows)[i].1 == rows[k].1,
        forall|i: int|
            0 <= i < first_names(rows).len() ==> rows.contains(#[trigger] first_names(rows)[i]),
    decreases rows.len(),
{
    if rows.len() > 0 {
        let prev = rows.drop_last();
        lemma_first_names(prev);
        let r = first_names(prev);
        let f = first_names(rows);
        assert forall|k: int| #![trigger rows[k]] 0 <= k < rows.len() implies exists|i: int|
            0 <= i < f.len() && #[trigger] f[i].1 == rows[k].1 by {
            if k < prev.len() {
                assert(prev[k] == rows[k]);
                let i = choose|i: int| 0 <= i < r.len() && #[trigger] r[i].1 == prev[k].1;
                assert(f[i] == r[i]);
            } else if !(exists|i: int| 0 <= i < r.len() && r[i].1 == rows.last().1) {
                assert(f[r.len() as int] == rows.last());
            } else {
                let i = choose|i: int| 0 <= i < r.len() && r[i].1 == rows.last().1;
                assert(f[i] == r[i]);
            }
        }
        assert forall|i: int| 0 <= i < f.len() implies rows.contains(#[trigger] f[i]) by {
            if i < r.len() {
                assert(f[i] == r[i]);
                let k = choose|k: int| 0 <= k < prev.len() && prev[k] == r[i];
                assert(rows[k] == prev[k]);
            } else {
                assert(rows[rows.len() - 1] == f[i]);
            }
        }
    }
}

/// Each row that `first_names` keeps is the first row of its name.
proof fn lemma_first_names_first(rows: Seq<(Seq<char>, Seq<char>)>)
    ensures
        forall|i: int|
            0 <= i < first_names(rows).len() ==> exists|k: int|
                0 <= k < rows.len() && rows[k] == #[trigger] first_names(rows)[i] && forall|m: int|
                    0 <= m < k ==> rows[m].1 != first_names(rows)[i].1,
    decreases rows.len(),
{
    if rows.len() > 0 {
        let prev = rows.drop_last();
        lemma_first_names_first(prev);
        let r = first_names(prev);
        let f = first_names(rows);
        let last = rows.last();
        assert forall|i: int| 0 <= i < r.len() implies exists|k: int|
            0 <= k < rows.len() && rows[k] == #[trigger] r[i] && forall|m: int|
                0 <= m < k ==> rows[m].1 != r[i].1 by {
            let k = choose|k: int|
                0 <= k < prev.len() && prev[k] == #[trigger] r[i] && forall|m: int|
                    0 <= m < k ==> prev[m].1 != r[i].1;
            assert(rows[k] == prev[k]);
            assert forall|m: int| 0 <= m < k implies rows[m].1 != r[i].1 by {
                assert(rows[m] == prev[m]);
            }
        }
        if exists|j: int| 0 <= j < r.len() && r[j].1 == last.1 {
            assert(f == r);
        } else {
            assert(f == r.push(last));
            lemma_first_names(prev);
            let k = rows.len() - 1;
            assert forall|m: int| 0 <= m < k implies rows[m].1 != last.1 by {
                assert(rows[m] == prev[m]);
                if rows[m].1 == last.1 {
                    let j = choose|j: int| 0 <= j < r.len() && #[trigger] r[j].1 == prev[m].1;
                    assert(r[j].1 == last.1);
                }
            }
            assert forall|i: int| 0 <= i < f.len() implies exists|k: int|
                0 <= k < rows.len() && rows[k] == #[trigger] f[i] && forall|m: int|
                    0 <= m < k ==> rows[m].1 != f[i].1 by {
                if i < r.len() {
                    assert(f[i] == r[i]);
                } else {
                    assert(rows[k] == f[i]);
                }
            }
        }
    }
}

proof fn lemma_initial_rows_order(
    old_root: Seq<char>,
    old_files: Map<Seq<char>, Seq<Seq<char>>>,
    new_root: Seq<char>,
    new_files: Map<Seq<char>, Seq<Seq<char>>>,
)
    ensures
        ({
            let rows = initial_rows(old_root, old_files, new_root, new_files);
            let oc = dir_children(old_files, old_root);
            &&& forall|i: int| 0 <= i < rows.len() && oc.contains(#[trigger] rows[i].1) ==> rows[i].0 == old_root
            &&& forall|i: int, j: int| 0 <= i < j < rows.len() ==> pair_le(rows[j], rows[i])
        }),
{
    let oc = dir_children(old_files, old_root);
    let nc = dir_children(new_files, new_root);
    let both = root_rows(old_root, oc) + root_rows(new_root, nc);
    let f = first_names(both);
    lemma_first_names_first(both);
    pair_le_total_ordering();
    f.lemma_sort_by_ensures(pair_leq());
    let srt = f.sort_by(pair_leq());
    let rows = srt.reverse();
    assert forall|i: int| 0 <= i < srt.len() implies f.contains(#[trigger] srt[i]) by {
        srt.to_multiset_ensures();
        f.to_multiset_ensures();
        assert(srt.contains(srt[i]));
        assert(srt.to_multiset().count(srt[i]) > 0);
    }
    assert forall|i: int| 0 <= i < rows.len() && oc.contains(#[trigger] rows[i].1) implies rows[i].0
        == old_root by {
        let x = rows[i];
        assert(x == srt[srt.len() - 1 - i]);
        assert(f.contains(x));
        let a = choose|a: int| 0 <= a < f.len() && f[a] == x;
        let k = choose|k: int|
            0 <= k < both.len() && both[k] == #[trigger] f[a] && forall|m: int|
                0 <= m < k ==> both[m].1 != f[a].1;
        let p = choose|p: int| 0 <= p < oc.len() && oc[p] == x.1;
        assert(both[p] == (old_root, oc[p]));
        assert(k <= p);
        assert(both[k] == (old_root, oc[k]));
    }
    assert forall|i: int, j: int| 0 <= i < j < rows.len() implies pair_le(rows[j], rows[i]) by {
        assert(rows[i] == srt[srt.len() - 1 - i]);
        assert(rows[j] == srt[srt.len() - 1 - j]);
        assert(pair_leq()(srt[srt.len() - 1 - j], srt[srt.len() - 1 - i]));
    }
}

/// The first rows of the file list name every entry of either root exactly once: their
/// names are pairwise distinct, each entry listed under the old or the new root is among
/// them, and each row is an entry of the root it stands under.
pub proof fn initial_rows_name_each_entry_once(
    old_root: Seq<char>,
    old_files: Map<Seq<char>, Seq<Seq<char>>>,
    new_root: Seq<char>,
    new_files: Map<Seq<char>, Seq<Seq<char>>>,
)
    ensures
        ({
            let rows = initial_rows(old_root, old_files, new_root, new_files);
            let oc = dir_children(old_files, old_root);
            let nc = dir_children(new_files, new_root);
            &&& forall|i: int, j: int| 0 <= i < j < rows.len() ==> rows[i].1 != rows[j].1
            &&& forall|n: Seq<char>|
                oc.contains(n) || nc.contains(n) ==> exists|i: int|
                    0 <= i < rows.len() && #[trigger] rows[i].1 == n
            &&& forall|i: int|
                0 <= i < rows.len() ==> (#[trigger] rows[i].0 == old_root && oc.contains(rows[i].1))
                    || (rows[i].0 == new_root && nc.contains(rows[i].1))
            &&& forall|i: int| 0 <= i < rows.len() && oc.contains(#[trigger] rows[i].1) ==> rows[i].0 == old_root
            &&& forall|i: int, j: int| 0 <= i < j < rows.len() ==> pair_le(rows[j], rows[i])
        }),
{
    let oc = dir_children(old_files, old_root);
    let nc = dir_children(new_files, new_root);
    let both = root_rows(old_root, oc) + root_rows(new_root, nc);
    let f = first_names(both);
    lemma_first_names(both);
    pair_le_total_ordering();
    f.lemma_sort_by_ensures(pair_leq());
    let srt = f.sort_by(pair_leq());
    let rows = srt.reverse();
    assert(rows == initial_rows(old_root, old_files, new_root, new_files));
    // The rows without their order: each row of `f` once.
    assert(f.no_duplicates()) by {
        assert forall|i: int, j: int| 0 <= i < f.len() && 0 <= j < f.len() && i != j implies f[i]
            != f[j] by {
            if i < j {
                assert(f[i].1 != f[j].1);
            } else {
                assert(f[j].1 != f[i].1);
            }
        }
    }
    f.lemma_multiset_has_no_duplicates();
    assert forall|x: (Seq<char>, Seq<char>)| srt.to_multiset().contains(x) implies srt.to_multiset().count(x)
        == 1 by {}
    srt.lemma_multiset_has_no_duplicates_conv();
    assert forall|i: int| 0 <= i < srt.len() implies f.contains(#[trigger] srt[i]) by {
        srt.to_multiset_ensures();
        f.to_multiset_ensures();
        assert(srt.contains(srt[i]));
    }
    assert forall|i: int, j: int| 0 <= i < j < rows.len() implies rows[i].1 != rows[j].1 by {
        let a = rows[i];
        let b = rows[j];
        assert(a == srt[srt.len() - 1 - i]);
        assert(b == srt[srt.len() - 1 - j]);
        assert(a != b);
        assert(f.contains(a));
        assert(f.contains(b));
        let ia = choose|k: int| 0 <= k < f.len() && f[k] == a;
        let ib = choose|k: int| 0 <= k < f.len() && f[k] == b;
        if ia < ib {
            assert(f[ia].1 != f[ib].1);
        } else {
            assert(f[ib].1 != f[ia].1);
        }
    }
    assert forall|n: Seq<char>| oc.contains(n) || nc.contains(n) implies exists|i: int|
        0 <= i < rows.len() && #[trigger] rows[i].1 == n by {
        let k = if oc.contains(n) {
            let m = choose|m: int| 0 <= m < oc.len() && oc[m] == n;
            assert(both[m] == (old_root, n));
            m
        } else {
            let m = choose|m: int| 0 <= m < nc.len() && nc[m] == n;
            assert(both[oc.len() + m] == (new_root, n));
            oc.len() + m
        };
        assert(both[k].1 == n);
        let i = choose|i: int| 0 <= i < f.len() && #[trigger] f[i].1 == both[k].1;
        f.to_multiset_ensures();
        srt.to_multiset_ensures();
        assert(f.contains(f[i]));
        assert(f.to_multiset().count(f[i]) > 0);
        assert(srt.to_multiset().count(f[i]) > 0);
        assert(srt.contains(f[i]));
        let j = choose|j: int| 0 <= j < srt.len() && srt[j] == f[i];
        assert(rows[srt.len() - 1 - j] == srt[j]);
    }
    lemma_initial_rows_order(old_root, old_files, new_root, new_files);
    assert forall|i: int| 0 <= i < rows.len() implies (#[trigger] rows[i].0 == old_root && oc.contains(
        rows[i].1,
    )) || (rows[i].0 == new_root && nc.contains(rows[i].1)) by {
        let x = rows[i];
        assert(x == srt[srt.len() - 1 - i]);
        assert(f.contains(x));
        let a = choose|a: int| 0 <= a < f.len() && f[a] == x;
        assert(both.contains(f[a]));
        let k = choose|k: int| 0 <= k < both.len() && both[k] == x;
        if k < oc.len() {
            assert(both[k] == (old_root, oc[k]));
        } else {
            assert(both[k] == (new_root, nc[k - oc.len()]));
        }
    }
}

fn push_root_rows(rows: &mut Vec<(String, String)>, root: &str, names: &Vec<String>)
    ensures
        final(rows).deep_view() == old(rows).deep_view() + root_rows(root@, names.deep_view()),
{
    let mut i: usize = 0;
    while i < names.len()
        invariant
            0 <= i <= names@.len(),
            rows.deep_view() == old(rows).deep_view() + root_rows(root@, names.deep_view().take(i as int)),
        decreases names@.len() - i,
    {
        let ghost before = rows.deep_view();
        rows.push((String::from_str(root), names[i].clone()));
        proof {
            assert(rows.deep_view() =~= before.push((root@, names@[i as int]@)));
            assert(root_rows(root@, names.deep_view().take(i + 1)) =~= root_rows(
                root@,
                names.deep_view().take(i as int),
            ).push((root@, names@[i as int]@)));
        }
        i = i + 1;
    }
    proof {
        assert(names.deep_view().take(i as int) =~= names.deep_view());
    }
}

fn has_name(rows: &Vec<(String, String)>, name: &str) -> (found: bool)
    ensures
        found == exists|i: int| 0 <= i < rows.deep_view().len() && rows.deep_view()[i].1 == name@,
{
    let mut i: usize = 0;
    while i < rows.len()
        invariant
            0 <= i <= rows@.len(),
            forall|j: int| 0 <= j < i ==> rows.deep_view()[j].1 != name@,
        decreases rows@.len() - i,
    {
        if str_equal(rows[i].1.as_str(), name) {
            proof {
                assert(rows.deep_view()[i as int].1 == name@);
            }
            return true;
        }
        i = i + 1;
    }
    false
}

/// The same rows in the opposite order.
fn reversed_rows(v: Vec<(String, String)>) -> (r: Vec<(String, String)>)
    ensures
        r.deep_view() == v.deep_view().reverse(),
{
    let mut v = v;
    let ghost orig = v.deep_view();
    let mut r: Vec<(String, String)> = Vec::new();
    while v.len() > 0
        invariant
            orig.len() == v@.len() + r@.len(),
            v.deep_view() == orig.take(v@.len() as int),
            r.deep_view() == orig.skip(v@.len() as int).reverse(),
        decreases v@.len(),
    {
        let ghost n = v@.len();
        let ghost prev_r = r.deep_view();
        proof {
            assert(v.deep_view()[n - 1] == orig[n - 1]);
        }
        let x = v.pop().unwrap();
        r.push(x);
        proof {
            assert(r.deep_view() =~= prev_r.push(orig[n - 1]));
            assert(v.deep_view() =~= orig.take(n - 1));
            assert(r.deep_view() =~= orig.skip(n - 1).reverse());
        }
    }
    proof {
        assert(orig.skip(0) =~= orig);
    }
    r
}

/// The first rows of the file list for two listed roots: the entries of the old root and
/// then of the new root, each name once (its first row kept), in descending order.
pub fn initial_file_display(
    old_root: &str,
    old_files: &DirMap,
    new_root: &str,
    new_files: &DirMap,
) -> (rows: Vec<(String, String)>)
    ensures
        rows.deep_view() == initial_rows(old_root@, old_files@, new_root@, new_files@),
{
    let mut all: Vec<(String, String)> = Vec::new();
    let empty: Vec<String> = Vec::new();
    match old_files.get(old_root) {
        Some(x) => push_root_rows(&mut all, old_root, x),
        None => push_root_rows(&mut all, old_root, &empty),
    }
    match new_files.get(new_root) {
        Some(y) => push_root_rows(&mut all, new_root, y),
        None => push_root_rows(&mut all, new_root, &empty),
    }
    let ghost both = root_rows(old_root@, dir_children(old_files@, old_root@)) + root_rows(
        new_root@,
        dir_children(new_files@, new_root@),
    );
    proof {
        assert(empty.deep_view() =~= Seq::<Seq<char>>::empty());
        assert(all.deep_view() =~= both);
    }
    let mut rows: Vec<(String, String)> = Vec::new();
    let mut i: usize = 0;
    while i < all.len()
        invariant
            0 <= i <= all@.len(),
            all.deep_view() == both,
            rows.deep_view() == first_names(both.take(i as int)),
        decreases all@.len() - i,
    {
        proof {
            assert(both.take(i + 1).drop_last() =~= both.take(i as int));
            assert(both.take(i + 1).last() == (all@[i as int].0@, all@[i as int].1@));
        }
        if !has_name(&rows, all[i].1.as_str()) {
            let ghost before = rows.deep_view();
            rows.push((all[i].0.clone(), all[i].1.clone()));
            proof {
                assert(rows.deep_view() =~= before.push((all@[i as int].0@, all@[i as int].1@)));
            }
        }
        i = i + 1;
    }
    let ghost firsts = first_names(both);
    proof {
        assert(both.take(i as int) =~= both);
    }
    par_sort_pairs(&mut rows);
    proof {
        pair_le_total_ordering();
        firsts.lemma_sort_by_ensures(pair_leq());
        vstd::seq_lib::lemma_sorted_unique(rows.deep_view(), firsts.sort_by(pair_leq()), pair_leq());
    }
    reversed_rows(rows)
}

/// The joined entries of a directory are the entries of both sides, each as often as it
/// occurs there (duplicates kept), in descending order.
pub proof fn joined_paths_sorted_descending(
    path: Seq<char>,
    old_files: Map<Seq<char>, Seq<Seq<char>>>,
    new_files: Map<Seq<char>, Seq<Seq<char>>>,
)
    ensures
        ({
            let joined = joined_paths(path, old_files, new_files);
            &&& joined.to_multiset() == (dir_children(old_files, path) + dir_children(new_files, path)).to_multiset()
            &&& forall|i: int, j: int|
                0 <= i < j < joined.len() ==> crate::order::str_le(joined[j], joined[i])
        }),
{
    let both = dir_children(old_files, path) + dir_children(new_files, path);
    str_le_total_ordering();
    both.lemma_sort_by_ensures(str_leq());
    let sorted = both.sort_by(str_leq());
    sorted.lemma_reverse_to_multiset();
    let joined = sorted.reverse();
    assert forall|i: int, j: int| 0 <= i < j < joined.len() implies crate::order::str_le(
        joined[j],
        joined[i],
    ) by {
        assert(joined[j] == sorted[sorted.len() - 1 - j]);
        assert(joined[i] == sorted[sorted.len() - 1 - i]);
        assert(str_leq()(sorted[sorted.len() - 1 - j], sorted[sorted.len() - 1 - i]));
    }
}

} // verus!
