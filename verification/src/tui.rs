use vstd::prelude::*;

use crate::engine::{open_entry_allowed, open_entry_ok, open_entry_spec, tree_of, TreeView};
use vstd::string::StringSliceAdditionalSpecFns;
use vstd::utf8::{
    encode_utf8_valid_utf8, is_char_boundary, is_char_boundary_iff_not_is_continuation_byte,
    is_char_boundary_start_end_of_seq, valid_utf8, valid_utf8_split,
};

use crate::state::{
    key_step, scrolls_file_down, scrolls_file_up, selection_next, selection_previous, DirMap, Key,
    ListSelection,
};

verus! {

/// The state of the file browser without a sidebar switch: the two roots and their
/// listings, the rows of the file list, the open directories, the selection, the file shown
/// and how far it and the file names are scrolled.
pub struct TuiState {
    pub old_root: String,
    pub new_root: String,
    pub current_file: Option<String>,
    pub old_files: DirMap,
    pub new_files: DirMap,
    pub file_display: Vec<(String, String)>,
    pub bottom_status: String,
    pub file_name_offset: usize,
    pub file_scroll_offset: usize,
    pub state: ListSelection,
    pub exit: bool,
    pub open_files: Vec<String>,
}

impl TuiState {
    /// The open directories and the rows of the file list.
    pub open spec fn tree(&self) -> TreeView {
        tree_of(self.open_files.deep_view(), self.file_display.deep_view())
    }

    /// Whether choosing the selected row can proceed: opening a directory inserts rows
    /// after the selected row, which must then exist.
    pub fn can_open_selected(&self) -> (ok: bool)
        ensures
            ok == open_entry_ok(self.tree(), self.state.selected, self.old_files@, self.new_files@),
    {
        open_entry_allowed(
            self.state.selected,
            &self.old_files,
            &self.new_files,
            &self.file_display,
            &self.open_files,
        )
    }

    /// Reacts to a key: Esc quits; Enter scrolls the file back to the top and chooses the
    /// selected row; up and down move the selection; left and right scroll the file names;
    /// `k`/page up and `j`/page down scroll the file.
    pub fn handle_key(&mut self, key: Key)
        requires
            key == Key::Enter ==> open_entry_ok(
                old(self).tree(),
                old(self).state.selected,
                old(self).old_files@,
                old(self).new_files@,
            ),
            key == Key::Right ==> old(self).file_name_offset < usize::MAX,
            scrolls_file_down(key) ==> old(self).file_scroll_offset < usize::MAX,
        ensures
            final(self).exit == (old(self).exit || key == Key::Esc),
            final(self).file_name_offset == key_step(
                old(self).file_name_offset,
                key == Key::Right,
                key == Key::Left,
            ),
            final(self).file_scroll_offset == if key == Key::Enter {
                0
            } else {
                key_step(old(self).file_scroll_offset, scrolls_file_down(key), scrolls_file_up(key))
            },
            key == Key::PageUp || key == Key::Char('k') ==> final(self).file_scroll_offset == (
            if old(self).file_scroll_offset > 0 {
                old(self).file_scroll_offset - 1
            } else {
                0
            }),
            key == Key::PageDown || key == Key::Char('j') ==> final(self).file_scroll_offset
                == old(self).file_scroll_offset + 1,
            key == Key::Right ==> final(self).file_name_offset == old(self).file_name_offset + 1,
            key == Key::Left ==> final(self).file_name_offset == (if old(self).file_name_offset > 0 {
                old(self).file_name_offset - 1
            } else {
                0
            }),
            key != Key::Right && key != Key::Left ==> final(self).file_name_offset == old(
                self,
            ).file_name_offset,
            final(self).state == if key == Key::Up {
                selection_previous(old(self).state)
            } else if key == Key::Down {
                selection_next(old(self).state)
            } else {
                old(self).state
            },
            key == Key::Enter ==> ({
                let (t, f) = open_entry_spec(
                    old(self).tree(),
                    old(self).state.selected,
                    old(self).old_root@,
                    old(self).new_root@,
                    old(self).old_files@,
                    old(self).new_files@,
                );
                &&& final(self).tree() == t
                &&& match f {
                    Some(p) => final(self).current_file matches Some(c) && c@ == p,
                    None => final(self).current_file == old(self).current_file,
                }
            }),
            key != Key::Enter ==> final(self).tree() == old(self).tree()
                && final(self).current_file == old(self).current_file,
            final(self).old_root == old(self).old_root,
            final(self).new_root == old(self).new_root,
            final(self).old_files == old(self).old_files,
            final(self).new_files == old(self).new_files,
            final(self).bottom_status == old(self).bottom_status,
    {
        match key {
            Key::Esc => {
                self.exit = true;
            },
            Key::Enter => {
                self.file_scroll_offset = 0;
                crate::engine::open_file_or_dir(self);
            },
            Key::Up => {
                self.state.select_previous();
            },
            Key::Down => {
                self.state.select_next();
            },
            Key::Right => {
                self.file_name_offset = self.file_name_offset + 1;
            },
            Key::Left => {
                if self.file_name_offset > 0 {
                    self.file_name_offset = self.file_name_offset - 1;
                }
            },
            Key::Char('k') | Key::PageUp => {
                if self.file_scroll_offset > 0 {
                    self.file_scroll_offset = self.file_scroll_offset - 1;
                }
            },
            Key::Char('j') | Key::PageDown => {
                self.file_scroll_offset = self.file_scroll_offset + 1;
            },
            _ => {},
        }
    }
}

/// The byte offsets between which the file list cuts a name out, scrolled `offset` bytes
/// to the right with its right edge at `max_offset`: both clamped to the name's length.
pub open spec fn byte_window(len: int, offset: int, max_offset: int) -> (int, int) {
    (if offset < len { offset } else { len }, if max_offset < len { max_offset } else { len })
}

proof fn lemma_prefix_boundary(bytes: Seq<u8>, start: int, end: int)
    requires
        valid_utf8(bytes),
        0 <= start <= end <= bytes.len(),
        is_char_boundary(bytes, start),
        is_char_boundary(bytes, end),
    ensures
        valid_utf8(bytes.subrange(0, end)),
        is_char_boundary(bytes.subrange(0, end), start),
{
    valid_utf8_split(bytes, end);
    let prefix = bytes.subrange(0, end);
    if start == end {
        is_char_boundary_start_end_of_seq(prefix);
    } else {
        is_char_boundary_iff_not_is_continuation_byte(bytes, start);
        is_char_boundary_iff_not_is_continuation_byte(prefix, start);
    }
}

/// The bytes of `name` from `offset` up to `max_offset`, each clamped to the name's
/// length in bytes. `None` where that range is empty backwards or where one of its ends falls
/// inside a character: a string cannot be cut there.
pub fn name_bytes_window(name: &str, offset: usize, max_offset: usize) -> (shown: Option<&str>)
    ensures
        ({
            let bytes = name.spec_bytes();
            let (start, end) = byte_window(name.len() as int, offset as int, max_offset as int);
            match shown {
                Some(t) => {
                    &&& start <= end
                    &&& is_char_boundary(bytes, start)
                    &&& is_char_boundary(bytes, end)
                    &&& t.spec_bytes() == bytes.subrange(start, end)
                },
                None => !(start <= end && is_char_boundary(bytes, start) && is_char_boundary(
                    bytes,
                    end,
                )),
            }
        }),
{
    let len = name.len();
    let start = if offset < len {
        offset
    } else {
        len
    };
    let end = if max_offset < len {
        max_offset
    } else {
        len
    };
    if start > end || !name.is_char_boundary(start) || !name.is_char_boundary(end) {
        return None;
    }
    proof {
        encode_utf8_valid_utf8(name@);
        lemma_prefix_boundary(name.spec_bytes(), start as int, end as int);
    }
    let (head, _) = name.split_at(end);
    let (_, shown) = head.split_at(start);
    proof {
        assert(shown.spec_bytes() =~= name.spec_bytes().subrange(start as int, end as int));
    }
    Some(shown)
}

} // verus!
