# ripdiff

An interactive terminal tool that compares two directories (or two files) side by side:
a tree of the entries of both sides on the left, and the old and the new version of the
chosen file, aligned line by line, on the right.

## Layout

- `src/` — the verified library, written in Verus:
  - `text.rs`: splitting, trimming and searching strings, with their specifications;
  - `order.rs`: the orders on names and rows, and sorting through rayon;
  - `diff.rs`: hunks of a patch (computed by diffy), the rows where change regions
    begin, the aligned old and new panes, and the cache of computed diffs;
  - `patch.rs`: what it means for hunks to be a patch between two texts, and the law
    that the two panes, padding aside, show the old and the new file;
  - `state.rs`: directory listings, the file list selection, the browser state and
    the key handling;
  - `engine.rs`: opening and closing directories in the file tree, with the laws that
    relate the two;
  - `render.rs`: the screen layout and the visible part of each file name;
  - `tui.rs`: the browser state without a sidebar switch;
  - `walker.rs`: what each directory-walking thread collects.
- `tests/` — tests of the library on concrete values.
- `app/` — the program around the library: argument parsing, directory walking and file
  reading, drawing with ratatui and reading keys with crossterm.

## Usage

```
ripdiff <old_directory|old_file> <new_directory|new_file>
```

Keys: up/down to move, Enter to open a file or directory, left/right to scroll the file
names, k/j or PageUp/PageDown to scroll the diff, Tab to toggle the file list, Esc to
quit.
