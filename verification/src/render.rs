use vstd::prelude::*;

verus! {

/// The part of a file name that the file list shows when it is scrolled `offset`
/// characters to the right and `max_offset` is the offset just past its right edge: the
/// characters from `offset` up to `max_offset` (or the end of the name); a single
/// character where `max_offset` is not past `offset`; nothing where the name is shorter
/// than `offset`.
pub open spec fn display_slice(name: Seq<char>, offset: int, max_offset: int) -> Seq<char> {
    let n = name.len() as int;
    if offset >= n {
        Seq::empty()
    } else if max_offset > offset {
        name.subrange(offset, if max_offset < n { max_offset } else { n })
    } else {
        name.subrange(offset, offset + 1)
    }
}

/// The visible part of a name is the run of its characters that starts at the offset:
/// nothing past the end of the name; otherwise at least one character, and, where the
/// right edge lies past the offset, every character up to the edge or the end of the name.
pub proof fn visible_part_starts_at_offset(name: Seq<char>, offset: int, max_offset: int)
    requires
        0 <= offset,
    ensures
        offset >= name.len() ==> display_slice(name, offset, max_offset).len() == 0,
        offset < name.len() ==> {
            let d = display_slice(name, offset, max_offset);
            &&& 1 <= d.len()
            &&& offset + d.len() <= name.len()
            &&& d == name.subrange(offset, offset + d.len())
            &&& max_offset > offset ==> offset + d.len() == if max_offset < name.len() {
                max_offset
            } else {
                name.len() as int
            }
        },
{
}

/// Cuts the visible part out of a file name, on character boundaries.
pub fn slice_display_name(name: &str, offset: usize, max_offset: usize) -> (shown: &str)
    ensures
        shown@ == display_slice(name@, offset as int, max_offset as int),
{
    let n = name.unicode_len();
    if offset >= n {
        return name.substring_char(n, n);
    }
    if max_offset > offset {
        let end = if max_offset < n {
            max_offset
        } else {
            n
        };
        name.substring_char(offset, end)
    } else {
        name.substring_char(offset, offset + 1)
    }
}

/// A rectangle of terminal cells.
#[derive(Clone, Copy, Debug, PartialEq, Eq, Structural)]
pub struct Rect {
    pub x: u16,
    pub y: u16,
    pub width: u16,
    pub height: u16,
}

/// Where the file list, the new pane and the old pane go.
#[derive(Clone, Copy, Debug, PartialEq, Eq, Structural)]
pub struct PaneLayout {
    pub files: Rect,
    pub new: Rect,
    pub old: Rect,
}

/// Splits the screen: the file list takes the left third; with the sidebar shown, the new
/// pane takes the top half of the other two thirds and the old pane the bottom half; with
/// it hidden, the new pane takes the left half of the screen and the old pane the right.
pub fn pane_layout(area: Rect, hide_sidebar: bool) -> (layout: PaneLayout)
    requires
        !hide_sidebar ==> area.width * 2 <= u16::MAX,
    ensures
        layout.files == (Rect { width: (area.width / 3) as u16, ..area }),
        !hide_sidebar ==> layout.new == (Rect {
            x: (area.width / 3) as u16,
            y: area.y,
            width: (area.width * 2 / 3) as u16,
            height: (area.height / 2) as u16,
        }),
        !hide_sidebar ==> layout.old == (Rect { y: (area.height / 2) as u16, ..layout.new }),
        hide_sidebar ==> layout.new == (Rect {
            x: 0,
            y: area.y,
            width: (area.width / 2) as u16,
            height: area.height,
        }),
        hide_sidebar ==> layout.old == (Rect { x: (area.width / 2) as u16, ..layout.new }),
{
    let files = Rect { width: area.width / 3, ..area };
    let new = if !hide_sidebar {
        Rect { x: files.width, y: area.y, width: area.width * 2 / 3, height: area.height / 2 }
    } else {
        Rect { x: 0, y: area.y, width: area.width / 2, height: area.height }
    };
    let old = if hide_sidebar {
        Rect { x: area.width / 2, ..new }
    } else {
        Rect { y: area.height / 2, ..new }
    };
    PaneLayout { files, new, old }
}

/// The names that the file list shows: each row's name cut to the part visible when the
/// names are scrolled `file_name_offset` characters and the list is `width` cells wide.
pub fn visible_names(
    file_display: &Vec<(String, String)>,
    file_name_offset: usize,
    width: u16,
) -> (names: Vec<String>)
    requires
        width + file_name_offset <= usize::MAX,
    ensures
        names@.len() == file_display@.len(),
        forall|i: int|
            0 <= i < names@.len() ==> #[trigger] names@[i]@ == display_slice(
                file_display@[i].1@,
                file_name_offset as int,
                width + file_name_offset,
            ),
{
    let max_offset = width as usize + file_name_offset;
    let mut names: Vec<String> = Vec::new();
    let mut i: usize = 0;
    while i < file_display.len()
        invariant
            0 <= i <= file_display@.len(),
            max_offset == width + file_name_offset,
            names@.len() == i,
            forall|j: int|
                0 <= j < i ==> #[trigger] names@[j]@ == display_slice(
                    file_display@[j].1@,
                    file_name_offset as int,
                    max_offset as int,
                ),
        decreases file_display@.len() - i,
    {
        let shown = slice_display_name(file_display[i].1.as_str(), file_name_offset, max_offset);
        names.push(shown.to_owned());
        i = i + 1;
    }
    names
}

} // verus!
