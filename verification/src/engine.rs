use vstd::prelude::*;

use crate::diff::{
    compute_styled_lines, hunks_from_patch, hunks_view, lemma_starts_in_fit, patch_hunks,
    styled_panes, styled_view, StyledLine,
};
use crate::patch::{patch_applies, text_lines};
pub use crate::state::get_joined_paths;
use crate::state::{joined_paths, DirMap};
use crate::text::{
    split_on,
    count_char, count_char_in, is_white_space, leading_white_space, remove_first_occurrence,
    remove_first_occurrence_string, str_equal, trim, trim_start, trim_start_string,
    trim_string,
};

verus! {

/// The open directories and the rows of the file list.
pub struct TreeView {
    pub open: Seq<Seq<char>>,
    pub display: Seq<(Seq<char>, Seq<char>)>,
}

/// The path of the entry `name` (with the indentation of the file list) below `dir`.
pub open spec fn child_path(dir: Seq<char>, name: Seq<char>) -> Seq<char> {
    dir + seq!['/'] + trim_start(name)
}

/// The index of the first occurrence of `x` in `s` (the length of `s` where there is none).
pub open spec fn first_index(s: Seq<Seq<char>>, x: Seq<char>) -> int
    decreases s.len(),
{
    if s.len() == 0 {
        0
    } else if s[0] == x {
        0
    } else {
        1 + first_index(s.drop_first(), x)
    }
}

/// `s` without the first occurrence of `x`.
pub open spec fn remove_first(s: Seq<Seq<char>>, x: Seq<char>) -> Seq<Seq<char>> {
    let i = first_index(s, x);
    if i < s.len() {
        s.remove(i)
    } else {
        s
    }
}

/// The rows of the file list without those below `dir` whose (trimmed) name is one of
/// `children`.
pub open spec fn keep_rows(
    display: Seq<(Seq<char>, Seq<char>)>,
    dir: Seq<char>,
    children: Seq<Seq<char>>,
) -> Seq<(Seq<char>, Seq<char>)>
    decreases display.len(),
{
    if display.len() == 0 {
        display
    } else {
        let rest = keep_rows(display.drop_last(), dir, children);
        let e = display.last();
        if e.0 == dir && children.contains(trim(e.1)) {
            rest
        } else {
            rest.push(e)
        }
    }
}

/// Closing the children of `dir`, one after the other: each child that is an open
/// directory is closed (with its own children) before the next child is looked at.
pub open spec fn close_children_spec(
    t: TreeView,
    dir: Seq<char>,
    children: Seq<Seq<char>>,
    old_files: Map<Seq<char>, Seq<Seq<char>>>,
    new_files: Map<Seq<char>, Seq<Seq<char>>>,
    bound: nat,
) -> TreeView
    decreases bound - dir.len(), 0nat, children.len(),
{
    if children.len() == 0 {
        t
    } else {
        let t1 = close_children_spec(t, dir, children.drop_last(), old_files, new_files, bound);
        let full = child_path(dir, children.last());
        if t1.open.contains(full) && full.len() <= bound {
            close_dir_spec(t1, full, joined_paths(full, old_files, new_files), old_files, new_files, bound)
        } else {
            t1
        }
    }
}

/// Closing the open directory `dir`: its open children are closed first, then the rows of
/// its children leave the file list and `dir` stops being open.
pub open spec fn close_dir_spec(
    t: TreeView,
    dir: Seq<char>,
    children: Seq<Seq<char>>,
    old_files: Map<Seq<char>, Seq<Seq<char>>>,
    new_files: Map<Seq<char>, Seq<Seq<char>>>,
    bound: nat,
) -> TreeView
    decreases bound - dir.len(), 1nat, 0nat,
{
    let t1 = close_children_spec(t, dir, children, old_files, new_files, bound);
    TreeView { open: remove_first(t1.open, dir), display: keep_rows(t1.display, dir, children) }
}

/// The length of the longest string in `s`.
pub open spec fn max_len(s: Seq<Seq<char>>) -> nat
    decreases s.len(),
{
    if s.len() == 0 {
        0
    } else {
        let m = max_len(s.drop_last());
        if s.last().len() > m {
            s.last().len()
        } else {
            m
        }
    }
}

proof fn lemma_max_len(s: Seq<Seq<char>>)
    ensures
        forall|i: int| 0 <= i < s.len() ==> s[i].len() <= max_len(s),
    decreases s.len(),
{
    if s.len() > 0 {
        lemma_max_len(s.drop_last());
        assert forall|i: int| 0 <= i < s.len() implies s[i].len() <= max_len(s) by {
            if i < s.len() - 1 {
                assert(s[i] == s.drop_last()[i]);
            }
        }
    }
}

proof fn lemma_first_index(s: Seq<Seq<char>>, x: Seq<char>, i: int)
    requires
        0 <= i <= s.len(),
        forall|j: int| 0 <= j < i ==> s[j] != x,
        i == s.len() || s[i] == x,
    ensures
        first_index(s, x) == i,
    decreases i,
{
    if i > 0 {
        lemma_first_index(s.drop_first(), x, i - 1);
    }
}

proof fn lemma_first_index_bound(s: Seq<Seq<char>>, x: Seq<char>)
    ensures
        0 <= first_index(s, x) <= s.len(),
        first_index(s, x) < s.len() <==> s.contains(x),
        first_index(s, x) < s.len() ==> s[first_index(s, x)] == x,
        forall|j: int| 0 <= j < first_index(s, x) ==> s[j] != x,
    decreases s.len(),
{
    if s.len() > 0 && s[0] != x {
        lemma_first_index_bound(s.drop_first(), x);
        if s.contains(x) {
            let k = choose|k: int| 0 <= k < s.len() && s[k] == x;
            assert(s.drop_first()[k - 1] == x);
        }
        if first_index(s, x) < s.len() {
            assert(s[first_index(s, x)] == s.drop_first()[first_index(s.drop_first(), x)]);
        }
        assert forall|j: int| 0 <= j < first_index(s, x) implies s[j] != x by {
            if j > 0 {
                assert(s[j] == s.drop_first()[j - 1]);
            }
        }
    }
}

/// Removing shorter or other strings leaves `x` (of length at most that of `dir`) where
/// it was: the first occurrence of `dir` is the only string that closing `dir` removes
/// from the open directories apart from longer ones.
proof fn lemma_remove_first_keeps(s: Seq<Seq<char>>, x: Seq<char>, y: Seq<char>)
    requires
        s.contains(y),
        x != y,
    ensures
        remove_first(s, x).contains(y),
        remove_first(s, x).len() <= s.len(),
        forall|z: Seq<char>| remove_first(s, x).contains(z) ==> s.contains(z),
{
    lemma_first_index_bound(s, x);
    let i = first_index(s, x);
    if i < s.len() {
        let k = choose|k: int| 0 <= k < s.len() && s[k] == y;
        if k < i {
            assert(s.remove(i)[k] == y);
        } else {
            assert(k != i);
            assert(s.remove(i)[k - 1] == y);
        }
        assert forall|z: Seq<char>| remove_first(s, x).contains(z) implies s.contains(z) by {
            let m = choose|m: int| 0 <= m < s.remove(i).len() && s.remove(i)[m] == z;
            if m < i {
                assert(s[m] == z);
            } else {
                assert(s[m + 1] == z);
            }
        }
    }
}

proof fn lemma_remove_first_sub(s: Seq<Seq<char>>, x: Seq<char>)
    ensures
        forall|z: Seq<char>| remove_first(s, x).contains(z) ==> s.contains(z),
{
    lemma_first_index_bound(s, x);
    let i = first_index(s, x);
    if i < s.len() {
        assert forall|z: Seq<char>| remove_first(s, x).contains(z) implies s.contains(z) by {
            let m = choose|m: int| 0 <= m < s.remove(i).len() && s.remove(i)[m] == z;
            if m < i {
                assert(s[m] == z);
            } else {
                assert(s[m + 1] == z);
            }
        }
    }
}

/// Closing keeps every open directory whose path is not longer than `dir`'s other than
/// `dir` itself, and opens nothing.
proof fn lemma_close_keeps(
    t: TreeView,
    dir: Seq<char>,
    children: Seq<Seq<char>>,
    old_files: Map<Seq<char>, Seq<Seq<char>>>,
    new_files: Map<Seq<char>, Seq<Seq<char>>>,
    bound: nat,
    closing_dir: bool,
)
    ensures
        closing_dir ==> forall|y: Seq<char>|
            #![trigger t.open.contains(y)]
            t.open.contains(y) && y.len() <= dir.len() && y != dir ==> close_dir_spec(
                t,
                dir,
                children,
                old_files,
                new_files,
                bound,
            ).open.contains(y),
        closing_dir ==> forall|z: Seq<char>|
            close_dir_spec(t, dir, children, old_files, new_files, bound).open.contains(z)
                ==> t.open.contains(z),
        !closing_dir ==> forall|y: Seq<char>|
            #![trigger t.open.contains(y)]
            t.open.contains(y) && y.len() <= dir.len() ==> close_children_spec(
                t,
                dir,
                children,
                old_files,
                new_files,
                bound,
            ).open.contains(y),
        !closing_dir ==> forall|z: Seq<char>|
            close_children_spec(t, dir, children, old_files, new_files, bound).open.contains(z)
                ==> t.open.contains(z),
    decreases bound - dir.len(), if closing_dir {
        1nat
    } else {
        0nat
    }, children.len(),
{
    if closing_dir {
        lemma_close_keeps(t, dir, children, old_files, new_files, bound, false);
        let t1 = close_children_spec(t, dir, children, old_files, new_files, bound);
        lemma_remove_first_sub(t1.open, dir);
        assert forall|y: Seq<char>|
            #![trigger t.open.contains(y)]
            t.open.contains(y) && y.len() <= dir.len() && y != dir implies close_dir_spec(
            t,
            dir,
            children,
            old_files,
            new_files,
            bound,
        ).open.contains(y) by {
            lemma_remove_first_keeps(t1.open, dir, y);
        }
    } else if children.len() > 0 {
        lemma_close_keeps(t, dir, children.drop_last(), old_files, new_files, bound, false);
        let t1 = close_children_spec(t, dir, children.drop_last(), old_files, new_files, bound);
        let full = child_path(dir, children.last());
        if t1.open.contains(full) && full.len() <= bound {
            let ch = joined_paths(full, old_files, new_files);
            lemma_close_keeps(t1, full, ch, old_files, new_files, bound, true);
        }
    }
}

/// Whether `s` is one of the strings in `v`.
pub fn contains_str(v: &[String], s: &str) -> (found: bool)
    ensures
        found == v.deep_view().contains(s@),
{
    let mut i: usize = 0;
    while i < v.len()
        invariant
            0 <= i <= v@.len(),
            forall|j: int| 0 <= j < i ==> v@[j]@ != s@,
        decreases v@.len() - i,
    {
        if str_equal(v[i].as_str(), s) {
            proof {
                assert(v.deep_view()[i as int] == s@);
            }
            return true;
        }
        i = i + 1;
    }
    proof {
        assert forall|j: int| 0 <= j < v.deep_view().len() implies v.deep_view()[j] != s@ by {
            assert(v.deep_view()[j] == v@[j]@);
        }
    }
    false
}

/// The index of the first occurrence of `s` in `v`, which holds it.
fn position_of(v: &Vec<String>, s: &str) -> (i: usize)
    requires
        v.deep_view().contains(s@),
    ensures
        i == first_index(v.deep_view(), s@),
        i < v@.len(),
{
    let ghost dv = v.deep_view();
    let mut i: usize = 0;
    while i < v.len()
        invariant
            0 <= i <= v@.len(),
            dv == v.deep_view(),
            dv.contains(s@),
            forall|j: int| 0 <= j < i ==> dv[j] != s@,
        decreases v@.len() - i,
    {
        if str_equal(v[i].as_str(), s) {
            proof {
                lemma_first_index(dv, s@, i as int);
            }
            return i;
        }
        i = i + 1;
    }
    proof {
        let k = choose|k: int| 0 <= k < dv.len() && dv[k] == s@;
        assert(false);
    }
    0
}

/// The path of the entry `name` below `dir`, as `format!("{}/{}", dir, name.trim_start())`.
pub fn child_path_string(dir: &str, name: &str) -> (full: String)
    ensures
        full@ == child_path(dir@, name@),
{
    let trimmed = trim_start_string(name);
    let mut full = String::from_str(dir);
    full.append("/");
    proof {
        reveal_strlit("/");
    }
    full.append(trimmed.as_str());
    full
}

fn keep_rows_exec(display: &Vec<(String, String)>, dir: &str, children: &[String]) -> (kept: Vec<
    (String, String),
>)
    ensures
        kept.deep_view() == keep_rows(display.deep_view(), dir@, children.deep_view()),
{
    let ghost dv = display.deep_view();
    let mut kept: Vec<(String, String)> = Vec::new();
    let mut j: usize = 0;
    while j < display.len()
        invariant
            0 <= j <= display@.len(),
            dv == display.deep_view(),
            kept.deep_view() == keep_rows(dv.take(j as int), dir@, children.deep_view()),
        decreases display@.len() - j,
    {
        proof {
            assert(dv.take(j + 1).drop_last() =~= dv.take(j as int));
            assert(dv.take(j + 1).last() == dv[j as int]);
            assert(dv[j as int] == (display@[j as int].0@, display@[j as int].1@));
        }
        let entry = &display[j];
        let trimmed = trim_string(entry.1.as_str());
        let below_dir = str_equal(entry.0.as_str(), dir);
        if !(below_dir && contains_str(children, trimmed.as_str())) {
            let ghost before = kept.deep_view();
            kept.push((entry.0.clone(), entry.1.clone()));
            proof {
                assert(kept.deep_view() =~= before.push(dv[j as int]));
            }
        }
        j = j + 1;
    }
    proof {
        assert(dv.take(j as int) =~= dv);
    }
    kept
}

pub open spec fn tree_of(open: Seq<Seq<char>>, display: Seq<(Seq<char>, Seq<char>)>) -> TreeView {
    TreeView { open, display }
}

fn close_dir_rec(
    open_files: &mut Vec<String>,
    path: &str,
    children: &[String],
    old_files: &DirMap,
    new_files: &DirMap,
    file_display: &mut Vec<(String, String)>,
    Ghost(bound): Ghost<nat>,
)
    requires
        old(open_files).deep_view().contains(path@),
        forall|i: int| 0 <= i < old(open_files)@.len() ==> old(open_files)@[i]@.len() <= bound,
    ensures
        tree_of(final(open_files).deep_view(), final(file_display).deep_view()) == close_dir_spec(
            tree_of(old(open_files).deep_view(), old(file_display).deep_view()),
            path@,
            children.deep_view(),
            old_files@,
            new_files@,
            bound,
        ),
    decreases bound - path@.len(), 1nat, 0nat,
{
    let ghost t0 = tree_of(open_files.deep_view(), file_display.deep_view());
    let ghost cs = children.deep_view();
    proof {
        assert(cs.take(0) =~= seq![]);
        assert forall|i: int| 0 <= i < t0.open.len() implies t0.open[i].len() <= bound by {
            assert(t0.open[i] == open_files@[i]@);
        }
    }
    let mut i: usize = 0;
    while i < children.len()
        invariant
            0 <= i <= children@.len(),
            cs == children.deep_view(),
            tree_of(open_files.deep_view(), file_display.deep_view()) == close_children_spec(
                t0,
                path@,
                cs.take(i as int),
                old_files@,
                new_files@,
                bound,
            ),
            t0.open.contains(path@),
            forall|k: int| 0 <= k < t0.open.len() ==> t0.open[k].len() <= bound,
        decreases children@.len() - i,
    {
        proof {
            assert(cs.take(i + 1).drop_last() =~= cs.take(i as int));
            assert(cs.take(i + 1).last() == children@[i as int]@);
            lemma_close_keeps(t0, path@, cs.take(i as int), old_files@, new_files@, bound, false);
        }
        let full_path = child_path_string(path, children[i].as_str());
        if contains_str(open_files.as_slice(), full_path.as_str()) {
            let child_dirs = get_joined_paths(full_path.as_str(), old_files, new_files);
            proof {
                assert(open_files.deep_view().contains(full_path@));
                assert(t0.open.contains(full_path@));
                assert forall|k: int| 0 <= k < open_files@.len() implies open_files@[k]@.len()
                    <= bound by {
                    assert(open_files.deep_view()[k] == open_files@[k]@);
                    assert(t0.open.contains(open_files@[k]@));
                }
            }
            close_dir_rec(
                open_files,
                full_path.as_str(),
                child_dirs.as_slice(),
                old_files,
                new_files,
                file_display,
                Ghost(bound),
            );
        }
        i = i + 1;
    }
    proof {
        assert(cs.take(i as int) =~= cs);
        lemma_close_keeps(t0, path@, cs, old_files@, new_files@, bound, false);
    }
    let kept = keep_rows_exec(file_display, path, children);
    *file_display = kept;
    let ind = position_of(open_files, path);
    open_files.remove(ind);
    proof {
        assert(open_files.deep_view() =~= remove_first(
            close_children_spec(t0, path@, cs, old_files@, new_files@, bound).open,
            path@,
        ));
    }
}

/// Closes the open directory `path`: its open child directories are closed first (in the
/// order of `children`, each with its own entries), then the rows below `path` whose
/// trimmed name is one of `children` leave the file list, and the first occurrence of
/// `path` leaves the open directories.
pub fn close_dir(
    open_files: &mut Vec<String>,
    path: &str,
    children: &[String],
    old_files: &DirMap,
    new_files: &DirMap,
    file_display: &mut Vec<(String, String)>,
)
    requires
        old(open_files).deep_view().contains(path@),
    ensures
        tree_of(final(open_files).deep_view(), final(file_display).deep_view()) == close_dir_spec(
            tree_of(old(open_files).deep_view(), old(file_display).deep_view()),
            path@,
            children.deep_view(),
            old_files@,
            new_files@,
            max_len(old(open_files).deep_view()),
        ),
{
    let ghost bound = max_len(open_files.deep_view());
    proof {
        lemma_max_len(open_files.deep_view());
        assert forall|i: int| 0 <= i < open_files@.len() implies open_files@[i]@.len() <= bound by {
            assert(open_files.deep_view()[i] == open_files@[i]@);
        }
    }
    close_dir_rec(open_files, path, children, old_files, new_files, file_display, Ghost(bound));
}

/// The row that the selection points at (the first where nothing is selected), or an
/// empty row where the selection is past the end of the file list.
pub open spec fn selected_row(display: Seq<(Seq<char>, Seq<char>)>, selected: Option<usize>) -> (
    Seq<char>,
    Seq<char>,
) {
    let i = match selected {
        Some(i) => i as int,
        None => 0,
    };
    if i < display.len() {
        display[i]
    } else {
        (Seq::empty(), Seq::empty())
    }
}

/// The path of the selected row.
pub open spec fn selected_path(display: Seq<(Seq<char>, Seq<char>)>, selected: Option<usize>) -> Seq<
    char,
> {
    let row = selected_row(display, selected);
    child_path(row.0, row.1)
}

/// `s` with every string after its first occurrence left out.
pub open spec fn first_occurrences(s: Seq<Seq<char>>) -> Seq<Seq<char>>
    decreases s.len(),
{
    if s.len() == 0 {
        s
    } else {
        let r = first_occurrences(s.drop_last());
        if r.contains(s.last()) {
            r
        } else {
            r.push(s.last())
        }
    }
}

/// The entries of a directory as the file list opens them: joined from both sides, in
/// descending order, each name once.
pub open spec fn open_children(
    path: Seq<char>,
    old_files: Map<Seq<char>, Seq<Seq<char>>>,
    new_files: Map<Seq<char>, Seq<Seq<char>>>,
) -> Seq<Seq<char>> {
    first_occurrences(joined_paths(path, old_files, new_files))
}

/// Two spaces of indentation for each `/` in `path` once the first occurrence of the old
/// root and then of the new root are taken out of it.
pub open spec fn indent_for(path: Seq<char>, old_root: Seq<char>, new_root: Seq<char>) -> Seq<char> {
    let depth = count_char(
        remove_first_occurrence(remove_first_occurrence(path, old_root), new_root),
        '/',
    );
    Seq::new(2 * depth, |i: int| ' ')
}

/// The rows that opening `path` adds: one per child, indented, in the reverse of the
/// children's order.
pub open spec fn opened_rows(path: Seq<char>, children: Seq<Seq<char>>, indent: Seq<char>) -> Seq<
    (Seq<char>, Seq<char>),
> {
    children.reverse().map_values(|x: Seq<char>| (path, indent + x))
}

/// Choosing the selected row: a directory with entries is closed if it is open and opened
/// (its rows inserted after the selected row) if it is not; anything else is a file to
/// show, which comes back.
pub open spec fn open_entry_spec(
    t: TreeView,
    selected: Option<usize>,
    old_root: Seq<char>,
    new_root: Seq<char>,
    old_files: Map<Seq<char>, Seq<Seq<char>>>,
    new_files: Map<Seq<char>, Seq<Seq<char>>>,
) -> (TreeView, Option<Seq<char>>) {
    let path = selected_path(t.display, selected);
    let children = open_children(path, old_files, new_files);
    if children.len() > 0 {
        if t.open.contains(path) {
            (close_dir_spec(t, path, children, old_files, new_files, max_len(t.open)), None)
        } else {
            let at = match selected {
                Some(i) => i as int,
                None => 0,
            } + 1;
            (
                TreeView {
                    open: t.open.push(path),
                    display: t.display.take(at) + opened_rows(
                        path,
                        children,
                        indent_for(path, old_root, new_root),
                    ) + t.display.skip(at),
                },
                None,
            )
        }
    } else {
        (t, Some(path))
    }
}

/// Opening a closed directory with entries at row `i` (the selected row, or the first
/// row where none is selected): the directory becomes open; rows `0..=i` stay in place;
/// rows `i + 1 ..= i + n` are its `n` entries, below it and indented, in the reverse of
/// their order; and the rows that were after row `i` follow, shifted down by `n`.
pub proof fn opening_inserts_entries_below(
    t: TreeView,
    selected: Option<usize>,
    old_root: Seq<char>,
    new_root: Seq<char>,
    old_files: Map<Seq<char>, Seq<Seq<char>>>,
    new_files: Map<Seq<char>, Seq<Seq<char>>>,
)
    requires
        open_entry_ok(t, selected, old_files, new_files),
        open_children(selected_path(t.display, selected), old_files, new_files).len() > 0,
        !t.open.contains(selected_path(t.display, selected)),
    ensures
        ({
            let i = match selected {
                Some(i) => i as int,
                None => 0,
            };
            let path = selected_path(t.display, selected);
            let children = open_children(path, old_files, new_files);
            let n = children.len() as int;
            let indent = indent_for(path, old_root, new_root);
            let (r, f) = open_entry_spec(t, selected, old_root, new_root, old_files, new_files);
            &&& f is None
            &&& r.open == t.open.push(path)
            &&& r.display.len() == t.display.len() + n
            &&& forall|k: int| 0 <= k <= i ==> r.display[k] == t.display[k]
            &&& forall|k: int|
                i < k <= i + n ==> #[trigger] r.display[k] == (path, indent + children[i + n - k])
            &&& forall|k: int| i + n < k < t.display.len() + n ==> #[trigger] r.display[k] == t.display[k - n]
        }),
{
    let i = match selected {
        Some(i) => i as int,
        None => 0,
    };
    let path = selected_path(t.display, selected);
    let children = open_children(path, old_files, new_files);
    let n = children.len() as int;
    let indent = indent_for(path, old_root, new_root);
    let rows = opened_rows(path, children, indent);
    let d = t.display.take(i + 1) + rows + t.display.skip(i + 1);
    assert forall|k: int| 0 <= k <= i implies d[k] == t.display[k] by {}
    assert forall|k: int| i < k <= i + n implies #[trigger] d[k] == (path, indent + children[i + n - k]) by {
        assert(d[k] == rows[k - i - 1]);
        assert(rows[k - i - 1] == (path, indent + children.reverse()[k - i - 1]));
    }
    assert forall|k: int| i + n < k < t.display.len() + n implies #[trigger] d[k] == t.display[k - n] by {
        assert(d[k] == t.display.skip(i + 1)[k - n - i - 1]);
    }
}

/// Opening the selected directory inserts its rows after the selected row, which must
/// then be a row of the file list.
pub open spec fn open_entry_ok(
    t: TreeView,
    selected: Option<usize>,
    old_files: Map<Seq<char>, Seq<Seq<char>>>,
    new_files: Map<Seq<char>, Seq<Seq<char>>>,
) -> bool {
    let path = selected_path(t.display, selected);
    let i = match selected {
        Some(i) => i as int,
        None => 0,
    };
    open_children(path, old_files, new_files).len() > 0 && !t.open.contains(path) ==> i < t.display.len()
}

/// The strings of `v`, each once, in the order of their first occurrence.
pub fn first_occurrences_of(v: &Vec<String>) -> (r: Vec<String>)
    ensures
        r.deep_view() == first_occurrences(v.deep_view()),
{
    let ghost dv = v.deep_view();
    let mut r: Vec<String> = Vec::new();
    let mut i: usize = 0;
    while i < v.len()
        invariant
            0 <= i <= v@.len(),
            dv == v.deep_view(),
            r.deep_view() == first_occurrences(dv.take(i as int)),
        decreases v@.len() - i,
    {
        proof {
            assert(dv.take(i + 1).drop_last() =~= dv.take(i as int));
            assert(dv.take(i + 1).last() == v@[i as int]@);
        }
        if !contains_str(r.as_slice(), v[i].as_str()) {
            let ghost before = r.deep_view();
            r.push(v[i].clone());
            proof {
                assert(r.deep_view() =~= before.push(v@[i as int]@));
            }
        }
        i = i + 1;
    }
    proof {
        assert(dv.take(i as int) =~= dv);
    }
    r
}

/// The indentation of rows opened below `path`.
fn indent_string(path: &str, old_root: &str, new_root: &str) -> (indent: String)
    ensures
        indent@ == indent_for(path@, old_root@, new_root@),
{
    let without_old = remove_first_occurrence_string(path, old_root);
    let without_roots = remove_first_occurrence_string(without_old.as_str(), new_root);
    let depth = count_char_in(without_roots.as_str(), '/');
    let mut indent = String::new();
    let mut k: usize = 0;
    while k < depth
        invariant
            0 <= k <= depth,
            indent@ == Seq::new(2 * k as nat, |i: int| ' '),
        decreases depth - k,
    {
        indent.append("  ");
        proof {
            reveal_strlit("  ");
            assert(indent@ =~= Seq::new(2 * (k + 1) as nat, |i: int| ' '));
        }
        k = k + 1;
    }
    indent
}

/// Chooses the selected row of the file list (the first where nothing is selected; an
/// empty row past the end): closes the directory there if it is open, opens it if it has
/// entries (inserting a row for each after the selected row and marking it open), and
/// otherwise gives back its path as the file to show.
pub fn open_entry(
    selected: Option<usize>,
    old_root: &str,
    new_root: &str,
    old_files: &DirMap,
    new_files: &DirMap,
    file_display: &mut Vec<(String, String)>,
    open_files: &mut Vec<String>,
) -> (file: Option<String>)
    requires
        open_entry_ok(
            tree_of(old(open_files).deep_view(), old(file_display).deep_view()),
            selected,
            old_files@,
            new_files@,
        ),
    ensures
        ({
            let (t, f) = open_entry_spec(
                tree_of(old(open_files).deep_view(), old(file_display).deep_view()),
                selected,
                old_root@,
                new_root@,
                old_files@,
                new_files@,
            );
            &&& tree_of(final(open_files).deep_view(), final(file_display).deep_view()) == t
            &&& match file {
                Some(p) => f == Some(p@),
                None => f is None,
            }
        }),
{
    let ghost t0 = tree_of(open_files.deep_view(), file_display.deep_view());
    let sel: usize = match selected {
        Some(i) => i,
        None => 0,
    };
    let full_path = if sel < file_display.len() {
        child_path_string(file_display[sel].0.as_str(), file_display[sel].1.as_str())
    } else {
        child_path_string("", "")
    };
    proof {
        reveal_strlit("");
        if sel < file_display@.len() {
            assert(t0.display[sel as int] == (file_display@[sel as int].0@, file_display@[sel as int].1@));
        }
        assert(full_path@ == selected_path(t0.display, selected));
    }
    let joined = get_joined_paths(full_path.as_str(), old_files, new_files);
    let children = first_occurrences_of(&joined);
    if children.len() > 0 {
        if contains_str(open_files.as_slice(), full_path.as_str()) {
            close_dir(open_files, full_path.as_str(), children.as_slice(), old_files, new_files, file_display);
            return None;
        }
        let indent = indent_string(full_path.as_str(), old_root, new_root);
        let ghost cs = children.deep_view();
        let ghost at = sel + 1;
        let mut i: usize = 0;
        proof {
            assert(cs.take(0).reverse().map_values(|x: Seq<char>| (full_path@, indent@ + x)) =~= seq![]);
            assert(t0.display =~= t0.display.take(at) + seq![] + t0.display.skip(at));
        }
        while i < children.len()
            invariant
                0 <= i <= children@.len(),
                cs == children.deep_view(),
                at == sel + 1,
                at <= t0.display.len() <= usize::MAX,
                file_display.deep_view() == t0.display.take(at) + cs.take(i as int).reverse().map_values(
                    |x: Seq<char>| (full_path@, indent@ + x),
                ) + t0.display.skip(at),
            decreases children@.len() - i,
        {
            let mut row_name = String::new();
            row_name.append(indent.as_str());
            row_name.append(children[i].as_str());
            let ghost before = file_display.deep_view();
            assert(file_display@.len() == before.len());
            file_display.insert(sel + 1, (full_path.clone(), row_name));
            proof {
                let f = |x: Seq<char>| (full_path@, indent@ + x);
                assert(file_display.deep_view() =~= before.insert(at, (full_path@, indent@ + cs[i as int])));
                assert(cs.take(i + 1).reverse() =~= seq![cs[i as int]] + cs.take(i as int).reverse());
                assert(cs.take(i + 1).reverse().map_values(f) =~= seq![(full_path@, indent@ + cs[i as int])]
                    + cs.take(i as int).reverse().map_values(f));
                assert(file_display.deep_view() =~= t0.display.take(at) + cs.take(i + 1).reverse().map_values(f)
                    + t0.display.skip(at));
            }
            i = i + 1;
        }
        proof {
            assert(cs.take(i as int) =~= cs);
        }
        let ghost before_open = open_files.deep_view();
        open_files.push(full_path);
        proof {
            assert(open_files.deep_view() =~= before_open.push(selected_path(t0.display, selected)));
        }
        return None;
    }
    Some(full_path)
}

/// Chooses the selected row of the browser (see `open_entry`); a file to show becomes the
/// current file.
pub fn open_file_or_dir(state: &mut crate::tui::TuiState)
    requires
        open_entry_ok(old(state).tree(), old(state).state.selected, old(state).old_files@, old(state).new_files@),
    ensures
        ({
            let (t, f) = open_entry_spec(
                old(state).tree(),
                old(state).state.selected,
                old(state).old_root@,
                old(state).new_root@,
                old(state).old_files@,
                old(state).new_files@,
            );
            &&& final(state).tree() == t
            &&& match f {
                Some(p) => final(state).current_file matches Some(c) && c@ == p,
                None => final(state).current_file == old(state).current_file,
            }
        }),
        final(state).old_root == old(state).old_root,
        final(state).new_root == old(state).new_root,
        final(state).old_files == old(state).old_files,
        final(state).new_files == old(state).new_files,
        final(state).bottom_status == old(state).bottom_status,
        final(state).file_name_offset == old(state).file_name_offset,
        final(state).file_scroll_offset == old(state).file_scroll_offset,
        final(state).state == old(state).state,
        final(state).exit == old(state).exit,
{
    let file = open_entry(
        state.state.selected,
        state.old_root.as_str(),
        state.new_root.as_str(),
        &state.old_files,
        &state.new_files,
        &mut state.file_display,
        &mut state.open_files,
    );
    match file {
        Some(f) => {
            state.current_file = Some(f);
        },
        None => {},
    }
}

/// The rows that the old and the new pane show for a file whose old and new texts are
/// given (read from the two files that `diff::diff_file_paths` names, or the message of the
/// error that reading one gave), scrolled as the browser is, `height` rows high.
pub fn get_file_diff(
    state: &crate::tui::TuiState,
    old_file_content: &str,
    new_file_content: &str,
    height: usize,
) -> (panes: (Vec<StyledLine>, Vec<StyledLine>))
    requires
        state.file_scroll_offset + height <= usize::MAX,
    ensures
        (styled_view(panes.0@), styled_view(panes.1@)) == styled_panes(
            old_file_content@,
            patch_hunks(old_file_content@, new_file_content@),
            state.file_scroll_offset as int,
            height as int,
        ),
        patch_applies(
            text_lines(old_file_content@),
            text_lines(new_file_content@),
            patch_hunks(old_file_content@, new_file_content@),
        ),
{
    let hunks = hunks_from_patch(old_file_content, new_file_content);
    proof {
        crate::patch::lemma_applies_starts_in(old_file_content@, hunks_view(hunks@));
        lemma_starts_in_fit(split_on(old_file_content@, '\n'), hunks_view(hunks@));
    }
    compute_styled_lines(old_file_content, hunks.as_slice(), state.file_scroll_offset, height)
}

/// The rows of the file list that do not lie below `dir` (their directory does not start
/// with `dir`), in their order.
pub open spec fn rows_outside(display: Seq<(Seq<char>, Seq<char>)>, dir: Seq<char>) -> Seq<
    (Seq<char>, Seq<char>),
>
    decreases display.len(),
{
    if display.len() == 0 {
        display
    } else {
        let rest = rows_outside(display.drop_last(), dir);
        if dir.is_prefix_of(display.last().0) {
            rest
        } else {
            rest.push(display.last())
        }
    }
}

proof fn lemma_prefix_trans(a: Seq<char>, b: Seq<char>, c: Seq<char>)
    requires
        a.is_prefix_of(b),
        b.is_prefix_of(c),
    ensures
        a.is_prefix_of(c),
{
    assert forall|i: int| 0 <= i < a.len() implies a[i] == c[i] by {
        assert(a[i] == b[i]);
    }
}

proof fn lemma_outside_keep_rows(
    display: Seq<(Seq<char>, Seq<char>)>,
    dir: Seq<char>,
    children: Seq<Seq<char>>,
)
    ensures
        rows_outside(keep_rows(display, dir, children), dir) == rows_outside(display, dir),
    decreases display.len(),
{
    if display.len() > 0 {
        lemma_outside_keep_rows(display.drop_last(), dir, children);
        let rest = keep_rows(display.drop_last(), dir, children);
        let e = display.last();
        if !(e.0 == dir && children.contains(trim(e.1))) {
            assert(rest.push(e).drop_last() =~= rest);
        } else {
            assert(dir.is_prefix_of(e.0));
        }
    }
}

proof fn lemma_outside_nested(display: Seq<(Seq<char>, Seq<char>)>, dir: Seq<char>, inner: Seq<char>)
    requires
        dir.is_prefix_of(inner),
    ensures
        rows_outside(rows_outside(display, inner), dir) == rows_outside(display, dir),
    decreases display.len(),
{
    if display.len() > 0 {
        lemma_outside_nested(display.drop_last(), dir, inner);
        let e = display.last();
        let rest = rows_outside(display.drop_last(), inner);
        if !inner.is_prefix_of(e.0) {
            assert(rest.push(e).drop_last() =~= rest);
        } else {
            lemma_prefix_trans(dir, inner, e.0);
        }
    }
}

proof fn lemma_close_outside(
    t: TreeView,
    dir: Seq<char>,
    children: Seq<Seq<char>>,
    old_files: Map<Seq<char>, Seq<Seq<char>>>,
    new_files: Map<Seq<char>, Seq<Seq<char>>>,
    bound: nat,
    closing_dir: bool,
)
    ensures
        closing_dir ==> rows_outside(
            close_dir_spec(t, dir, children, old_files, new_files, bound).display,
            dir,
        ) == rows_outside(t.display, dir),
        closing_dir ==> forall|y: Seq<char>|
            #![trigger t.open.contains(y)]
            t.open.contains(y) && !dir.is_prefix_of(y) ==> close_dir_spec(
                t,
                dir,
                children,
                old_files,
                new_files,
                bound,
            ).open.contains(y),
        !closing_dir ==> rows_outside(
            close_children_spec(t, dir, children, old_files, new_files, bound).display,
            dir,
        ) == rows_outside(t.display, dir),
        !closing_dir ==> forall|y: Seq<char>|
            #![trigger t.open.contains(y)]
            t.open.contains(y) && !dir.is_prefix_of(y) ==> close_children_spec(
                t,
                dir,
                children,
                old_files,
                new_files,
                bound,
            ).open.contains(y),
    decreases bound - dir.len(), if closing_dir {
        1nat
    } else {
        0nat
    }, children.len(),
{
    if closing_dir {
        lemma_close_outside(t, dir, children, old_files, new_files, bound, false);
        let t1 = close_children_spec(t, dir, children, old_files, new_files, bound);
        lemma_outside_keep_rows(t1.display, dir, children);
        assert forall|y: Seq<char>|
            #![trigger t.open.contains(y)]
            t.open.contains(y) && !dir.is_prefix_of(y) implies close_dir_spec(
            t,
            dir,
            children,
            old_files,
            new_files,
            bound,
        ).open.contains(y) by {
            assert(dir.is_prefix_of(dir));
            lemma_remove_first_keeps(t1.open, dir, y);
        }
    } else if children.len() > 0 {
        lemma_close_outside(t, dir, children.drop_last(), old_files, new_files, bound, false);
        let t1 = close_children_spec(t, dir, children.drop_last(), old_files, new_files, bound);
        let full = child_path(dir, children.last());
        if t1.open.contains(full) && full.len() <= bound {
            let ch = joined_paths(full, old_files, new_files);
            lemma_close_outside(t1, full, ch, old_files, new_files, bound, true);
            assert(dir.is_prefix_of(full));
            let t2 = close_dir_spec(t1, full, ch, old_files, new_files, bound);
            lemma_outside_nested(t2.display, dir, full);
            lemma_outside_nested(t1.display, dir, full);
            assert forall|y: Seq<char>|
                #![trigger t.open.contains(y)]
                t.open.contains(y) && !dir.is_prefix_of(y) implies t2.open.contains(y) by {
                if full.is_prefix_of(y) {
                    lemma_prefix_trans(dir, full, y);
                }
            }
        }
    }
}

/// Closing a directory leaves every row of the file list that does not lie below it, in
/// its order, and every open directory that does not lie below it, open: rows and
/// directories of the same name elsewhere are not touched.
pub proof fn close_dir_keeps_outside(
    t: TreeView,
    dir: Seq<char>,
    children: Seq<Seq<char>>,
    old_files: Map<Seq<char>, Seq<Seq<char>>>,
    new_files: Map<Seq<char>, Seq<Seq<char>>>,
    bound: nat,
)
    ensures
        rows_outside(close_dir_spec(t, dir, children, old_files, new_files, bound).display, dir)
            == rows_outside(t.display, dir),
        forall|y: Seq<char>|
            t.open.contains(y) && !dir.is_prefix_of(y) ==> close_dir_spec(
                t,
                dir,
                children,
                old_files,
                new_files,
                bound,
            ).open.contains(y),
{
    lemma_close_outside(t, dir, children, old_files, new_files, bound, true);
}

proof fn lemma_remove_first_distinct(s: Seq<Seq<char>>, x: Seq<char>)
    requires
        s.no_duplicates(),
    ensures
        remove_first(s, x).no_duplicates(),
        !remove_first(s, x).contains(x),
{
    lemma_first_index_bound(s, x);
    let i = first_index(s, x);
    if i < s.len() {
        let r = s.remove(i);
        assert forall|a: int, b: int| 0 <= a < b < r.len() implies r[a] != r[b] by {
            let a2 = if a < i { a } else { a + 1 };
            let b2 = if b < i { b } else { b + 1 };
            assert(r[a] == s[a2] && r[b] == s[b2]);
        }
        if r.contains(x) {
            let m = choose|m: int| 0 <= m < r.len() && r[m] == x;
            let m2 = if m < i { m } else { m + 1 };
            assert(s[m2] == x);
        }
    }
}

proof fn lemma_close_distinct(
    t: TreeView,
    dir: Seq<char>,
    children: Seq<Seq<char>>,
    old_files: Map<Seq<char>, Seq<Seq<char>>>,
    new_files: Map<Seq<char>, Seq<Seq<char>>>,
    bound: nat,
    closing_dir: bool,
)
    requires
        t.open.no_duplicates(),
    ensures
        closing_dir ==> close_dir_spec(t, dir, children, old_files, new_files, bound).open.no_duplicates(),
        !closing_dir ==> close_children_spec(t, dir, children, old_files, new_files, bound).open.no_duplicates(),
    decreases bound - dir.len(), if closing_dir {
        1nat
    } else {
        0nat
    }, children.len(),
{
    if closing_dir {
        lemma_close_distinct(t, dir, children, old_files, new_files, bound, false);
        let t1 = close_children_spec(t, dir, children, old_files, new_files, bound);
        lemma_remove_first_distinct(t1.open, dir);
    } else if children.len() > 0 {
        lemma_close_distinct(t, dir, children.drop_last(), old_files, new_files, bound, false);
        let t1 = close_children_spec(t, dir, children.drop_last(), old_files, new_files, bound);
        let full = child_path(dir, children.last());
        if t1.open.contains(full) && full.len() <= bound {
            let ch = joined_paths(full, old_files, new_files);
            lemma_close_distinct(t1, full, ch, old_files, new_files, bound, true);
        }
    }
}

proof fn lemma_keep_rows_drops(display: Seq<(Seq<char>, Seq<char>)>, dir: Seq<char>, children: Seq<Seq<char>>)
    ensures
        forall|i: int|
            0 <= i < keep_rows(display, dir, children).len() ==> !(#[trigger] keep_rows(
                display,
                dir,
                children,
            )[i].0 == dir && children.contains(trim(keep_rows(display, dir, children)[i].1))),
    decreases display.len(),
{
    if display.len() > 0 {
        lemma_keep_rows_drops(display.drop_last(), dir, children);
        let rest = keep_rows(display.drop_last(), dir, children);
        let k = keep_rows(display, dir, children);
        assert forall|i: int| 0 <= i < k.len() implies !(#[trigger] k[i].0 == dir
            && children.contains(trim(k[i].1))) by {
            if i < rest.len() {
                assert(k[i] == rest[i]);
            }
        }
    }
}

/// Closing an open directory (where no directory is open twice) leaves it closed, keeps
/// every other directory open at most once, and leaves no row in the file list for one of
/// its entries directly below it.
pub proof fn close_dir_closes_it(
    t: TreeView,
    dir: Seq<char>,
    children: Seq<Seq<char>>,
    old_files: Map<Seq<char>, Seq<Seq<char>>>,
    new_files: Map<Seq<char>, Seq<Seq<char>>>,
    bound: nat,
)
    requires
        t.open.no_duplicates(),
    ensures
        ({
            let r = close_dir_spec(t, dir, children, old_files, new_files, bound);
            &&& !r.open.contains(dir)
            &&& r.open.no_duplicates()
            &&& forall|i: int|
                0 <= i < r.display.len() ==> !(#[trigger] r.display[i].0 == dir
                    && children.contains(trim(r.display[i].1)))
        }),
{
    lemma_close_distinct(t, dir, children, old_files, new_files, bound, false);
    let t1 = close_children_spec(t, dir, children, old_files, new_files, bound);
    lemma_remove_first_distinct(t1.open, dir);
    lemma_close_distinct(t, dir, children, old_files, new_files, bound, true);
    lemma_keep_rows_drops(t1.display, dir, children);
}

/// The entries of directory `q` that closing `dir` with the entries `children` walks:
/// `children` for `dir` itself, the entries of both sides for any other directory.
pub open spec fn closing_kids(
    q: Seq<char>,
    dir: Seq<char>,
    children: Seq<Seq<char>>,
    old_files: Map<Seq<char>, Seq<Seq<char>>>,
    new_files: Map<Seq<char>, Seq<Seq<char>>>,
) -> Seq<Seq<char>> {
    if q == dir {
        children
    } else {
        joined_paths(q, old_files, new_files)
    }
}

/// In `r`, directory `q` is fully closed: none of its entries `kids` is an open directory,
/// and no row of the file list is one of them below `q`.
pub open spec fn fully_closed(r: TreeView, q: Seq<char>, kids: Seq<Seq<char>>) -> bool {
    &&& forall|c: Seq<char>| #[trigger] kids.contains(c) ==> !r.open.contains(child_path(q, c))
    &&& forall|i: int|
        0 <= i < r.display.len() && #[trigger] r.display[i].0 == q ==> !kids.contains(
            trim(r.display[i].1),
        )
}

/// Every directory that was open in `t` and is not in `r` is fully closed in `r`.
pub open spec fn closes_fully(
    t: TreeView,
    r: TreeView,
    dir: Seq<char>,
    children: Seq<Seq<char>>,
    old_files: Map<Seq<char>, Seq<Seq<char>>>,
    new_files: Map<Seq<char>, Seq<Seq<char>>>,
) -> bool {
    forall|q: Seq<char>|
        #[trigger] t.open.contains(q) && !r.open.contains(q) ==> fully_closed(
            r,
            q,
            closing_kids(q, dir, children, old_files, new_files),
        )
}

/// `r` keeps only open directories and rows that `t` has.
pub open spec fn shrinks(t: TreeView, r: TreeView) -> bool {
    &&& forall|z: Seq<char>| #[trigger] r.open.contains(z) ==> t.open.contains(z)
    &&& forall|x: (Seq<char>, Seq<char>)| #[trigger] r.display.contains(x) ==> t.display.contains(x)
}

proof fn lemma_fully_closed_shrinks(r: TreeView, r2: TreeView, q: Seq<char>, kids: Seq<Seq<char>>)
    requires
        fully_closed(r, q, kids),
        shrinks(r, r2),
    ensures
        fully_closed(r2, q, kids),
{
    assert forall|i: int| 0 <= i < r2.display.len() && #[trigger] r2.display[i].0 == q implies !kids.contains(
        trim(r2.display[i].1),
    ) by {
        assert(r2.display.contains(r2.display[i]));
        let j = choose|j: int| 0 <= j < r.display.len() && r.display[j] == r2.display[i];
        assert(r.display[j].0 == q);
    }
}

proof fn lemma_keep_rows_sub(display: Seq<(Seq<char>, Seq<char>)>, dir: Seq<char>, children: Seq<Seq<char>>)
    ensures
        forall|x: (Seq<char>, Seq<char>)| #[trigger] keep_rows(display, dir, children).contains(x)
            ==> display.contains(x),
    decreases display.len(),
{
    if display.len() > 0 {
        lemma_keep_rows_sub(display.drop_last(), dir, children);
        let rest = keep_rows(display.drop_last(), dir, children);
        assert forall|x: (Seq<char>, Seq<char>)| #[trigger] keep_rows(display, dir, children).contains(x)
            implies display.contains(x) by {
            let k = keep_rows(display, dir, children);
            let i = choose|i: int| 0 <= i < k.len() && k[i] == x;
            if i < rest.len() {
                assert(k[i] == rest[i]);
                assert(rest.contains(x));
                let j = choose|j: int| 0 <= j < display.drop_last().len() && display.drop_last()[j] == x;
                assert(display[j] == x);
            } else {
                assert(display[display.len() - 1] == x);
            }
        }
    }
}

proof fn lemma_close_fully(
    t: TreeView,
    dir: Seq<char>,
    children: Seq<Seq<char>>,
    old_files: Map<Seq<char>, Seq<Seq<char>>>,
    new_files: Map<Seq<char>, Seq<Seq<char>>>,
    bound: nat,
    closing_dir: bool,
)
    requires
        t.open.no_duplicates(),
        forall|z: Seq<char>| #[trigger] t.open.contains(z) ==> z.len() <= bound,
    ensures
        closing_dir ==> {
            let r = close_dir_spec(t, dir, children, old_files, new_files, bound);
            &&& shrinks(t, r)
            &&& closes_fully(t, r, dir, children, old_files, new_files)
        },
        !closing_dir ==> {
            let r = close_children_spec(t, dir, children, old_files, new_files, bound);
            &&& shrinks(t, r)
            &&& closes_fully(t, r, dir, children, old_files, new_files)
            &&& t.open.contains(dir) ==> r.open.contains(dir)
            &&& forall|c: Seq<char>|
                #[trigger] children.contains(c) ==> !r.open.contains(child_path(dir, c))
        },
    decreases bound - dir.len(), if closing_dir {
        1nat
    } else {
        0nat
    }, children.len(),
{
    lemma_close_keeps(t, dir, children, old_files, new_files, bound, closing_dir);
    if closing_dir {
        lemma_close_fully(t, dir, children, old_files, new_files, bound, false);
        let t1 = close_children_spec(t, dir, children, old_files, new_files, bound);
        let r = close_dir_spec(t, dir, children, old_files, new_files, bound);
        lemma_remove_first_sub(t1.open, dir);
        lemma_keep_rows_sub(t1.display, dir, children);
        lemma_keep_rows_drops(t1.display, dir, children);
        assert(shrinks(t1, r));
        assert forall|q: Seq<char>| #[trigger] t.open.contains(q) && !r.open.contains(q) implies fully_closed(
            r,
            q,
            closing_kids(q, dir, children, old_files, new_files),
        ) by {
            let ks = closing_kids(q, dir, children, old_files, new_files);
            if !t1.open.contains(q) {
                lemma_fully_closed_shrinks(t1, r, q, ks);
            } else {
                if q != dir {
                    lemma_remove_first_keeps(t1.open, dir, q);
                }
                assert(q == dir);
                assert forall|i: int| 0 <= i < r.display.len() && #[trigger] r.display[i].0 == q implies !ks.contains(
                    trim(r.display[i].1),
                ) by {}
            }
        }
    } else if children.len() > 0 {
        let front = children.drop_last();
        lemma_close_fully(t, dir, front, old_files, new_files, bound, false);
        let t1 = close_children_spec(t, dir, front, old_files, new_files, bound);
        let r = close_children_spec(t, dir, children, old_files, new_files, bound);
        let full = child_path(dir, children.last());
        lemma_close_distinct(t, dir, front, old_files, new_files, bound, false);
        if t1.open.contains(full) && full.len() <= bound {
            let ch = joined_paths(full, old_files, new_files);
            lemma_close_fully(t1, full, ch, old_files, new_files, bound, true);
            close_dir_closes_it(t1, full, ch, old_files, new_files, bound);
            lemma_close_keeps(t1, full, ch, old_files, new_files, bound, true);
            assert(dir.len() < full.len());
        }
        assert(shrinks(t1, r));
        assert forall|q: Seq<char>| #[trigger] t.open.contains(q) && !r.open.contains(q) implies fully_closed(
            r,
            q,
            closing_kids(q, dir, children, old_files, new_files),
        ) by {
            if !t1.open.contains(q) {
                assert(q != dir);
                assert(closing_kids(q, dir, front, old_files, new_files) == closing_kids(
                    q,
                    dir,
                    children,
                    old_files,
                    new_files,
                ));
                lemma_fully_closed_shrinks(t1, r, q, closing_kids(q, dir, children, old_files, new_files));
            } else {
                assert(q != dir);
                let ch = joined_paths(full, old_files, new_files);
                assert(closing_kids(q, full, ch, old_files, new_files) == closing_kids(
                    q,
                    dir,
                    children,
                    old_files,
                    new_files,
                ));
            }
        }
        assert forall|c: Seq<char>| #[trigger] children.contains(c) implies !r.open.contains(
            child_path(dir, c),
        ) by {
            if c != children.last() {
                let k = choose|k: int| 0 <= k < children.len() && children[k] == c;
                assert(front[k] == c);
                assert(front.contains(c));
            }
        }
    }
}

/// Closing an open directory (where no directory is open twice) closes everything below
/// it: the directory and every directory the call closes are fully closed afterwards (none
/// of their entries is still an open directory, and no row for one of their entries stays
/// below them, so every open subdirectory is closed, not only the first); and nothing is
/// opened or added.
pub proof fn close_dir_closes_everything_below(
    t: TreeView,
    dir: Seq<char>,
    children: Seq<Seq<char>>,
    old_files: Map<Seq<char>, Seq<Seq<char>>>,
    new_files: Map<Seq<char>, Seq<Seq<char>>>,
)
    requires
        t.open.no_duplicates(),
        t.open.contains(dir),
    ensures
        ({
            let r = close_dir_spec(t, dir, children, old_files, new_files, max_len(t.open));
            &&& !r.open.contains(dir)
            &&& fully_closed(r, dir, children)
            &&& closes_fully(t, r, dir, children, old_files, new_files)
            &&& shrinks(t, r)
        }),
{
    lemma_max_len(t.open);
    let bound = max_len(t.open);
    assert forall|z: Seq<char>| #[trigger] t.open.contains(z) implies z.len() <= bound by {
        let k = choose|k: int| 0 <= k < t.open.len() && t.open[k] == z;
    }
    lemma_close_fully(t, dir, children, old_files, new_files, bound, true);
    close_dir_closes_it(t, dir, children, old_files, new_files, bound);
}

proof fn lemma_leading_white_space_prepend(w: Seq<char>, x: Seq<char>)
    requires
        forall|i: int| 0 <= i < w.len() ==> is_white_space(w[i]),
    ensures
        leading_white_space(w + x) == w.len() + leading_white_space(x),
    decreases w.len(),
{
    if w.len() > 0 {
        assert((w + x).drop_first() =~= w.drop_first() + x);
        lemma_leading_white_space_prepend(w.drop_first(), x);
    } else {
        assert(w + x =~= x);
    }
}

proof fn lemma_trim_indent(n: nat, x: Seq<char>)
    ensures
        trim(Seq::new(2 * n, |i: int| ' ') + x) == trim(x),
{
    let w = Seq::new(2 * n, |i: int| ' ');
    lemma_leading_white_space_prepend(w, x);
    crate::text::lemma_leading_white_space_bound(x);
    assert(trim_start(w + x) =~= trim_start(x));
}

proof fn lemma_close_children_noop(
    t: TreeView,
    dir: Seq<char>,
    children: Seq<Seq<char>>,
    old_files: Map<Seq<char>, Seq<Seq<char>>>,
    new_files: Map<Seq<char>, Seq<Seq<char>>>,
    bound: nat,
)
    requires
        forall|i: int| 0 <= i < children.len() ==> !t.open.contains(child_path(dir, children[i])),
    ensures
        close_children_spec(t, dir, children, old_files, new_files, bound) == t,
    decreases children.len(),
{
    if children.len() > 0 {
        lemma_close_children_noop(t, dir, children.drop_last(), old_files, new_files, bound);
        assert(children.last() == children[children.len() - 1]);
    }
}

proof fn lemma_keep_rows_concat(
    a: Seq<(Seq<char>, Seq<char>)>,
    b: Seq<(Seq<char>, Seq<char>)>,
    dir: Seq<char>,
    children: Seq<Seq<char>>,
)
    ensures
        keep_rows(a + b, dir, children) == keep_rows(a, dir, children) + keep_rows(b, dir, children),
    decreases b.len(),
{
    if b.len() == 0 {
        assert(a + b =~= a);
        assert(keep_rows(a, dir, children) + keep_rows(b, dir, children) =~= keep_rows(a, dir, children));
    } else {
        assert((a + b).drop_last() =~= a + b.drop_last());
        assert((a + b).last() == b.last());
        lemma_keep_rows_concat(a, b.drop_last(), dir, children);
        let ka = keep_rows(a, dir, children);
        let kb = keep_rows(b.drop_last(), dir, children);
        assert((ka + kb).push(b.last()) =~= ka + kb.push(b.last()));
    }
}

proof fn lemma_keep_rows_all(rows: Seq<(Seq<char>, Seq<char>)>, dir: Seq<char>, children: Seq<Seq<char>>)
    requires
        forall|i: int|
            0 <= i < rows.len() ==> !(rows[i].0 == dir && children.contains(trim(rows[i].1))),
    ensures
        keep_rows(rows, dir, children) == rows,
    decreases rows.len(),
{
    if rows.len() > 0 {
        lemma_keep_rows_all(rows.drop_last(), dir, children);
        assert(rows.drop_last().push(rows.last()) =~= rows);
    }
}

proof fn lemma_keep_rows_none(rows: Seq<(Seq<char>, Seq<char>)>, dir: Seq<char>, children: Seq<Seq<char>>)
    requires
        forall|i: int| 0 <= i < rows.len() ==> rows[i].0 == dir && children.contains(trim(rows[i].1)),
    ensures
        keep_rows(rows, dir, children) == Seq::<(Seq<char>, Seq<char>)>::empty(),
    decreases rows.len(),
{
    if rows.len() > 0 {
        lemma_keep_rows_none(rows.drop_last(), dir, children);
        assert(rows.last() == rows[rows.len() - 1]);
    }
}

/// Choosing a closed directory (whose entries have no white space around their names, none
/// of which is an open directory or already has a row below it) and then choosing it again
/// gives back the file list and the open directories as they were.
pub proof fn open_then_close_restores(
    t: TreeView,
    selected: Option<usize>,
    old_root: Seq<char>,
    new_root: Seq<char>,
    old_files: Map<Seq<char>, Seq<Seq<char>>>,
    new_files: Map<Seq<char>, Seq<Seq<char>>>,
)
    requires
        ({
            let path = selected_path(t.display, selected);
            let children = open_children(path, old_files, new_files);
            let sel = match selected {
                Some(i) => i as int,
                None => 0,
            };
            &&& children.len() > 0
            &&& !t.open.contains(path)
            &&& sel < t.display.len()
            &&& forall|i: int| 0 <= i < children.len() ==> trim(children[i]) == children[i]
            &&& forall|i: int|
                0 <= i < children.len() ==> !t.open.contains(child_path(path, children[i]))
            &&& forall|i: int|
                0 <= i < t.display.len() ==> !(t.display[i].0 == path && children.contains(
                    trim(t.display[i].1),
                ))
        }),
    ensures
        ({
            let (t1, f1) = open_entry_spec(t, selected, old_root, new_root, old_files, new_files);
            let (t2, f2) = open_entry_spec(t1, selected, old_root, new_root, old_files, new_files);
            &&& f1 is None
            &&& f2 is None
            &&& t2 == t
        }),
{
    let path = selected_path(t.display, selected);
    let children = open_children(path, old_files, new_files);
    let sel = match selected {
        Some(i) => i as int,
        None => 0,
    };
    let at = sel + 1;
    let indent = indent_for(path, old_root, new_root);
    let rows = opened_rows(path, children, indent);
    let (t1, f1) = open_entry_spec(t, selected, old_root, new_root, old_files, new_files);
    assert(t1.display == t.display.take(at) + rows + t.display.skip(at));
    assert(t1.display[sel] == t.display[sel]);
    assert(selected_path(t1.display, selected) == path);
    assert(t1.open.contains(path)) by {
        assert(t1.open[t1.open.len() - 1] == path);
    }
    assert forall|i: int| 0 <= i < children.len() implies !t1.open.contains(
        child_path(path, children[i]),
    ) by {
        let c = child_path(path, children[i]);
        assert(c.len() > path.len());
        if t1.open.contains(c) {
            let k = choose|k: int| 0 <= k < t1.open.len() && t1.open[k] == c;
            if k < t.open.len() {
                assert(t.open[k] == c);
            }
        }
    }
    let bound = max_len(t1.open);
    lemma_close_children_noop(t1, path, children, old_files, new_files, bound);
    // the rows inserted by opening are exactly those that closing removes
    let depth = count_char(
        remove_first_occurrence(remove_first_occurrence(path, old_root), new_root),
        '/',
    );
    assert forall|i: int| 0 <= i < rows.len() implies rows[i].0 == path && children.contains(
        trim(rows[i].1),
    ) by {
        let x = children.reverse()[i];
        assert(rows[i] == (path, indent + x));
        lemma_trim_indent(depth, x);
        assert(x == children[children.len() - 1 - i]);
    }
    lemma_keep_rows_none(rows, path, children);
    assert forall|i: int| 0 <= i < t.display.take(at).len() implies !(t.display.take(at)[i].0 == path
        && children.contains(trim(t.display.take(at)[i].1))) by {
        assert(t.display.take(at)[i] == t.display[i]);
    }
    assert forall|i: int| 0 <= i < t.display.skip(at).len() implies !(t.display.skip(at)[i].0 == path
        && children.contains(trim(t.display.skip(at)[i].1))) by {
        assert(t.display.skip(at)[i] == t.display[i + at]);
    }
    lemma_keep_rows_all(t.display.take(at), path, children);
    lemma_keep_rows_all(t.display.skip(at), path, children);
    lemma_keep_rows_concat(t.display.take(at), rows, path, children);
    lemma_keep_rows_concat(t.display.take(at) + rows, t.display.skip(at), path, children);
    assert(t.display.take(at) + Seq::<(Seq<char>, Seq<char>)>::empty() + t.display.skip(at) =~= t.display);
    // the directory leaves the open directories where it was pushed
    lemma_first_index(t1.open, path, t.open.len() as int);
    assert(t1.open.remove(t.open.len() as int) =~= t.open);
}

/// Whether choosing the selected row can proceed: opening a directory inserts rows after
/// the selected row, which must then exist.
pub fn open_entry_allowed(
    selected: Option<usize>,
    old_files: &DirMap,
    new_files: &DirMap,
    file_display: &Vec<(String, String)>,
    open_files: &Vec<String>,
) -> (ok: bool)
    ensures
        ok == open_entry_ok(
            tree_of(open_files.deep_view(), file_display.deep_view()),
            selected,
            old_files@,
            new_files@,
        ),
{
    let ghost t = tree_of(open_files.deep_view(), file_display.deep_view());
    let sel: usize = match selected {
        Some(i) => i,
        None => 0,
    };
    let full_path = if sel < file_display.len() {
        child_path_string(file_display[sel].0.as_str(), file_display[sel].1.as_str())
    } else {
        child_path_string("", "")
    };
    proof {
        reveal_strlit("");
        if sel < file_display@.len() {
            assert(t.display[sel as int] == (file_display@[sel as int].0@, file_display@[sel as int].1@));
        }
        assert(full_path@ == selected_path(t.display, selected));
    }
    let joined = get_joined_paths(full_path.as_str(), old_files, new_files);
    let children = first_occurrences_of(&joined);
    !(children.len() > 0 && !contains_str(open_files.as_slice(), full_path.as_str())) || sel
        < file_display.len()
}

proof fn lemma_contains_push(r: Seq<Seq<char>>, y: Seq<char>, x: Seq<char>)
    ensures
        r.push(y).contains(x) <==> (r.contains(x) || x == y),
{
    if r.push(y).contains(x) {
        let k = choose|k: int| 0 <= k < r.push(y).len() && r.push(y)[k] == x;
        if k < r.len() {
            assert(r[k] == x);
        }
    }
    if r.contains(x) {
        let k = choose|k: int| 0 <= k < r.len() && r[k] == x;
        assert(r.push(y)[k] == x);
    }
    if x == y {
        assert(r.push(y)[r.len() as int] == x);
    }
}

proof fn lemma_first_occurrences(s: Seq<Seq<char>>)
    ensures
        first_occurrences(s).no_duplicates(),
        forall|x: Seq<char>| first_occurrences(s).contains(x) <==> s.contains(x),
    decreases s.len(),
{
    if s.len() > 0 {
        lemma_first_occurrences(s.drop_last());
        let r = first_occurrences(s.drop_last());
        assert(s =~= s.drop_last().push(s.last()));
        assert forall|x: Seq<char>| first_occurrences(s).contains(x) <==> s.contains(x) by {
            lemma_contains_push(s.drop_last(), s.last(), x);
            lemma_contains_push(r, s.last(), x);
        }
        if !r.contains(s.last()) {
            let q = r.push(s.last());
            assert forall|i: int, j: int| 0 <= i < q.len() && 0 <= j < q.len() && i != j implies q[i]
                != q[j] by {
                if i < r.len() && j < r.len() {
                } else if i < r.len() {
                    assert(r.contains(q[i]));
                } else {
                    assert(r.contains(q[j]));
                }
            }
        }
    }
}

/// Opening a directory lists each of its entries once: the names that either side has,
/// without duplicates.
pub proof fn open_children_distinct(
    path: Seq<char>,
    old_files: Map<Seq<char>, Seq<Seq<char>>>,
    new_files: Map<Seq<char>, Seq<Seq<char>>>,
)
    ensures
        open_children(path, old_files, new_files).no_duplicates(),
        forall|x: Seq<char>|
            open_children(path, old_files, new_files).contains(x) <==> (
            crate::state::dir_children(old_files, path) + crate::state::dir_children(new_files, path)).contains(x),
{
    let joined = joined_paths(path, old_files, new_files);
    lemma_first_occurrences(joined);
    crate::state::joined_paths_sorted_descending(path, old_files, new_files);
    let both = crate::state::dir_children(old_files, path) + crate::state::dir_children(new_files, path);
    joined.to_multiset_ensures();
    both.to_multiset_ensures();
    assert forall|x: Seq<char>| joined.contains(x) <==> both.contains(x) by {
        assert(joined.to_multiset().count(x) == both.to_multiset().count(x));
    }
}

} // verus!
