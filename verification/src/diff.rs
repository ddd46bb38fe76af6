use vstd::prelude::*;

use crate::patch::{lemma_applies_starts_in, patch_applies, text_lines};
use crate::text::{chars_of, has_prefix, split_lines, split_on, str_equal, string_from_chars};

verus! {

/// The kind of a line inside a hunk of a patch.
#[derive(Clone, Copy, Debug, PartialEq, Eq, Structural)]
pub enum OwnedLineType {
    Context,
    Delete,
    Insert,
}

/// A hunk of a patch, with the line number (1-based) at which it starts in the old text
/// and its lines, each tagged with its kind.
#[derive(Clone, Debug)]
pub struct OwnedHunk {
    pub old_start: usize,
    pub lines: Vec<(OwnedLineType, String)>,
}

/// The mathematical value of a hunk.
pub struct HunkView {
    pub old_start: nat,
    pub lines: Seq<(OwnedLineType, Seq<char>)>,
}

impl View for OwnedHunk {
    type V = HunkView;

    open spec fn view(&self) -> HunkView {
        HunkView {
            old_start: self.old_start as nat,
            lines: self.lines@.map_values(|l: (OwnedLineType, String)| (l.0, l.1@)),
        }
    }
}

/// The views of a sequence of hunks.
pub open spec fn hunks_view(hunks: Seq<OwnedHunk>) -> Seq<HunkView> {
    hunks.map_values(|h: OwnedHunk| h@)
}

/// Zero-based index of the first old line of a hunk (`old_start - 1`, or 0).
pub open spec fn hunk_first_index(old_start: nat) -> nat {
    if old_start > 0 {
        (old_start - 1) as nat
    } else {
        0
    }
}

pub open spec fn pos_part(x: int) -> int {
    if x > 0 {
        x
    } else {
        0
    }
}

/// What the scan over a patch knows at a given point: the display row in the old pane,
/// the index of the next old line, the number of inserted minus deleted lines since the
/// last context line, whether a change region is open, and the change regions found.
pub struct RegionScan {
    pub row: int,
    pub cur: int,
    pub pending: int,
    pub in_region: bool,
    pub offsets: Seq<int>,
}

pub open spec fn region_scan_start() -> RegionScan {
    RegionScan { row: 0, cur: 0, pending: 0, in_region: false, offsets: seq![] }
}

/// One line of a hunk. A context line flushes the padding that the old pane receives
/// when more lines were inserted than deleted; a deleted or inserted line opens a change
/// region if none is open, at the current row.
pub open spec fn region_scan_line(s: RegionScan, t: OwnedLineType) -> RegionScan {
    match t {
        OwnedLineType::Context => RegionScan {
            row: s.row + pos_part(s.pending) + 1,
            cur: s.cur + 1,
            pending: 0,
            in_region: false,
            offsets: s.offsets,
        },
        OwnedLineType::Delete => RegionScan {
            row: s.row + 1,
            cur: s.cur + 1,
            pending: s.pending - 1,
            in_region: true,
            offsets: if s.in_region { s.offsets } else { s.offsets.push(s.row) },
        },
        OwnedLineType::Insert => RegionScan {
            row: s.row,
            cur: s.cur,
            pending: s.pending + 1,
            in_region: true,
            offsets: if s.in_region { s.offsets } else { s.offsets.push(s.row) },
        },
    }
}

pub open spec fn region_scan_lines(
    s: RegionScan,
    lines: Seq<(OwnedLineType, Seq<char>)>,
) -> RegionScan
    decreases lines.len(),
{
    if lines.len() == 0 {
        s
    } else {
        region_scan_line(region_scan_lines(s, lines.drop_last()), lines.last().0)
    }
}

/// Entering a hunk: the unchanged old lines before it take one row each.
pub open spec fn region_scan_enter(s: RegionScan, old_start: nat) -> RegionScan {
    let start = hunk_first_index(old_start) as int;
    RegionScan {
        row: s.row + pos_part(start - s.cur),
        cur: if s.cur < start { start } else { s.cur },
        pending: s.pending,
        in_region: s.in_region,
        offsets: s.offsets,
    }
}

/// Leaving a hunk: pending padding is flushed and any open region is closed.
pub open spec fn region_scan_leave(s: RegionScan) -> RegionScan {
    RegionScan {
        row: s.row + pos_part(s.pending),
        cur: s.cur,
        pending: 0,
        in_region: false,
        offsets: s.offsets,
    }
}

pub open spec fn region_scan_hunk(s: RegionScan, h: HunkView) -> RegionScan {
    region_scan_leave(region_scan_lines(region_scan_enter(s, h.old_start), h.lines))
}

pub open spec fn region_scan_hunks(hunks: Seq<HunkView>) -> RegionScan
    decreases hunks.len(),
{
    if hunks.len() == 0 {
        region_scan_start()
    } else {
        region_scan_hunk(region_scan_hunks(hunks.drop_last()), hunks.last())
    }
}

/// The display rows (in the old pane, counting padding rows) at which the change regions
/// of a patch begin: a change region is a maximal run of deleted and inserted lines.
pub open spec fn change_region_offsets_spec(hunks: Seq<HunkView>) -> Seq<int> {
    region_scan_hunks(hunks).offsets
}

/// The rows and line indices that the scan reaches fit in a `usize`.
pub open spec fn region_scan_fits(hunks: Seq<HunkView>) -> bool {
    &&& region_scan_hunks(hunks).row <= usize::MAX
    &&& region_scan_hunks(hunks).cur <= usize::MAX
}

proof fn lemma_scan_lines_mono(s: RegionScan, lines: Seq<(OwnedLineType, Seq<char>)>, j: int)
    requires
        0 <= j <= lines.len(),
    ensures
        region_scan_lines(s, lines.take(j)).row + pos_part(
            region_scan_lines(s, lines.take(j)).pending,
        ) <= region_scan_lines(s, lines).row + pos_part(region_scan_lines(s, lines).pending),
        region_scan_lines(s, lines.take(j)).cur <= region_scan_lines(s, lines).cur,
    decreases lines.len(),
{
    if j < lines.len() {
        assert(lines.drop_last().take(j) =~= lines.take(j));
        lemma_scan_lines_mono(s, lines.drop_last(), j);
        assert(lines.drop_last() =~= lines.take(lines.len() - 1));
    } else {
        assert(lines.take(j) =~= lines);
    }
}

proof fn lemma_scan_hunks_mono(hunks: Seq<HunkView>, k: int)
    requires
        0 <= k <= hunks.len(),
    ensures
        region_scan_hunks(hunks.take(k)).row <= region_scan_hunks(hunks).row,
        region_scan_hunks(hunks.take(k)).cur <= region_scan_hunks(hunks).cur,
    decreases hunks.len(),
{
    if k < hunks.len() {
        assert(hunks.drop_last().take(k) =~= hunks.take(k));
        lemma_scan_hunks_mono(hunks.drop_last(), k);
        let s = region_scan_hunks(hunks.drop_last());
        let e = region_scan_enter(s, hunks.last().old_start);
        lemma_scan_lines_mono(e, hunks.last().lines, 0);
        assert(hunks.last().lines.take(0) =~= seq![]);
    } else {
        assert(hunks.take(k) =~= hunks);
    }
}

/// The rows at which the change regions of `hunks` start, as displayed in the old pane
/// (one row per unchanged, context or deleted line, plus one padding row per inserted line
/// that has no deleted counterpart).
pub fn change_region_offsets(hunks: &[OwnedHunk]) -> (offsets: Vec<usize>)
    requires
        region_scan_fits(hunks_view(hunks@)),
    ensures
        offsets@.map_values(|x: usize| x as int) == change_region_offsets_spec(hunks_view(hunks@)),
{
    match scan_change_regions(hunks) {
        Some(offsets) => offsets,
        None => Vec::new(),
    }
}

/// How a displayed line is drawn: as it is, as a deleted line, as an inserted line, or as
/// a blank padding row that keeps the two panes aligned.
#[derive(Clone, Copy, Debug, PartialEq, Eq, Structural)]
pub enum LineStyle {
    Plain,
    Removed,
    Added,
    Padding,
}

/// One displayed line of a pane.
#[derive(Clone, Debug)]
pub struct StyledLine {
    pub text: String,
    pub style: LineStyle,
}

impl View for StyledLine {
    type V = (LineStyle, Seq<char>);

    open spec fn view(&self) -> (LineStyle, Seq<char>) {
        (self.style, self.text@)
    }
}

pub open spec fn styled_view(lines: Seq<StyledLine>) -> Seq<(LineStyle, Seq<char>)> {
    lines.map_values(|l: StyledLine| l@)
}

pub open spec fn padding_rows(n: int) -> Seq<(LineStyle, Seq<char>)> {
    Seq::new(pos_part(n) as nat, |i: int| (LineStyle::Padding, seq![' ']))
}

pub open spec fn plain_rows(texts: Seq<Seq<char>>) -> Seq<(LineStyle, Seq<char>)> {
    texts.map_values(|t: Seq<char>| (LineStyle::Plain, t))
}

/// The two panes while a patch is laid out: the rows of the old and the new pane, the
/// index of the next old line, and the inserted minus deleted lines since the last context
/// line.
pub struct PaneScan {
    pub old: Seq<(LineStyle, Seq<char>)>,
    pub new: Seq<(LineStyle, Seq<char>)>,
    pub cur: int,
    pub pending: int,
}

/// One line of a hunk: a context line first pads the shorter pane, then goes to both
/// panes; a deleted line goes to the old pane, an inserted line to the new pane.
pub open spec fn pane_scan_line(s: PaneScan, l: (OwnedLineType, Seq<char>)) -> PaneScan {
    match l.0 {
        OwnedLineType::Context => PaneScan {
            old: s.old + padding_rows(s.pending) + seq![(LineStyle::Plain, l.1)],
            new: s.new + padding_rows(-s.pending) + seq![(LineStyle::Plain, l.1)],
            cur: s.cur + 1,
            pending: 0,
        },
        OwnedLineType::Delete => PaneScan {
            old: s.old.push((LineStyle::Removed, l.1)),
            new: s.new,
            cur: s.cur + 1,
            pending: s.pending - 1,
        },
        OwnedLineType::Insert => PaneScan {
            old: s.old,
            new: s.new.push((LineStyle::Added, l.1)),
            cur: s.cur,
            pending: s.pending + 1,
        },
    }
}

pub open spec fn pane_scan_lines(s: PaneScan, lines: Seq<(OwnedLineType, Seq<char>)>) -> PaneScan
    decreases lines.len(),
{
    if lines.len() == 0 {
        s
    } else {
        pane_scan_line(pane_scan_lines(s, lines.drop_last()), lines.last())
    }
}

/// Entering a hunk: the old lines between the previous hunk and this one go unchanged to
/// both panes.
pub open spec fn pane_scan_enter(s: PaneScan, old_start: nat, text: Seq<Seq<char>>) -> PaneScan {
    let start = hunk_first_index(old_start) as int;
    if s.cur < start {
        PaneScan {
            old: s.old + plain_rows(text.subrange(s.cur, start)),
            new: s.new + plain_rows(text.subrange(s.cur, start)),
            cur: start,
            pending: s.pending,
        }
    } else {
        s
    }
}

/// Leaving a hunk: the shorter pane is padded.
pub open spec fn pane_scan_leave(s: PaneScan) -> PaneScan {
    PaneScan {
        old: s.old + padding_rows(s.pending),
        new: s.new + padding_rows(-s.pending),
        cur: s.cur,
        pending: 0,
    }
}

pub open spec fn pane_scan_hunk(s: PaneScan, h: HunkView, text: Seq<Seq<char>>) -> PaneScan {
    pane_scan_leave(pane_scan_lines(pane_scan_enter(s, h.old_start, text), h.lines))
}

pub open spec fn pane_scan_hunks(text: Seq<Seq<char>>, hunks: Seq<HunkView>) -> PaneScan
    decreases hunks.len(),
{
    if hunks.len() == 0 {
        PaneScan { old: seq![], new: seq![], cur: 0, pending: 0 }
    } else {
        pane_scan_hunk(pane_scan_hunks(text, hunks.drop_last()), hunks.last(), text)
    }
}

/// Every old line that is shown unchanged before a hunk exists in the old text.
pub open spec fn pane_scan_fits(text: Seq<Seq<char>>, hunks: Seq<HunkView>) -> bool
    decreases hunks.len(),
{
    if hunks.len() == 0 {
        true
    } else {
        let s = pane_scan_hunks(text, hunks.drop_last());
        &&& pane_scan_fits(text, hunks.drop_last())
        &&& (hunk_first_index(hunks.last().old_start) <= s.cur || hunk_first_index(
            hunks.last().old_start,
        ) <= text.len())
    }
}

/// The rows of `rows` from `scroll` on, at most `height` of them.
pub open spec fn window<A>(rows: Seq<A>, scroll: int, height: int) -> Seq<A> {
    let lo = if scroll < rows.len() { scroll } else { rows.len() as int };
    let hi = if scroll + height < rows.len() { scroll + height } else { rows.len() as int };
    rows.subrange(lo, hi)
}

/// The old lines from index `cur` to the end (none where `cur` is past the end).
pub open spec fn tail_lines(lines: Seq<Seq<char>>, cur: int) -> Seq<Seq<char>> {
    if 0 <= cur < lines.len() {
        lines.subrange(cur, lines.len() as int)
    } else {
        Seq::empty()
    }
}

/// All rows of the old and the new pane for an old text and the hunks of its patch: the
/// hunks laid out in turn, then the old lines after the last hunk, unchanged, in both
/// panes (without hunks, the whole old text in both panes).
pub open spec fn full_panes(text: Seq<char>, hunks: Seq<HunkView>) -> (Seq<(LineStyle, Seq<char>)>, Seq<(LineStyle, Seq<char>)>) {
    let lines = split_on(text, '\n');
    let s = pane_scan_hunks(lines, hunks);
    let tail = plain_rows(tail_lines(lines, s.cur));
    (s.old + tail, s.new + tail)
}

/// The rows of both panes that a view scrolled to `scroll` and `height` rows high shows.
pub open spec fn styled_panes(text: Seq<char>, hunks: Seq<HunkView>, scroll: int, height: int) -> (Seq<(LineStyle, Seq<char>)>, Seq<(LineStyle, Seq<char>)>) {
    let (old, new) = full_panes(text, hunks);
    (window(old, scroll, height), window(new, scroll, height))
}

proof fn lemma_pane_fits_prefix(text: Seq<Seq<char>>, hunks: Seq<HunkView>, k: int)
    requires
        0 <= k < hunks.len(),
        pane_scan_fits(text, hunks),
    ensures
        ({
            let s = pane_scan_hunks(text, hunks.take(k));
            let start = hunk_first_index(hunks[k].old_start);
            start <= s.cur || start <= text.len()
        }),
    decreases hunks.len(),
{
    if k < hunks.len() - 1 {
        assert(hunks.drop_last().take(k) =~= hunks.take(k));
        lemma_pane_fits_prefix(text, hunks.drop_last(), k);
    } else {
        assert(hunks.drop_last() =~= hunks.take(k));
    }
}

/// Hunks that all start within the old text can be laid out.
pub proof fn lemma_starts_in_fit(text: Seq<Seq<char>>, hunks: Seq<HunkView>)
    requires
        hunks_start_in(text, hunks),
    ensures
        pane_scan_fits(text, hunks),
    decreases hunks.len(),
{
    if hunks.len() > 0 {
        assert(hunks_start_in(text, hunks.drop_last())) by {
            assert forall|k: int| 0 <= k < hunks.drop_last().len() implies hunk_first_index(
                #[trigger] hunks.drop_last()[k].old_start,
            ) <= text.len() by {
                assert(hunks.drop_last()[k] == hunks[k]);
            }
        }
        lemma_starts_in_fit(text, hunks.drop_last());
        assert(hunk_first_index(hunks[hunks.len() - 1].old_start) <= text.len());
    }
}

fn padding_line() -> (line: StyledLine)
    ensures
        line@ == (LineStyle::Padding, seq![' ']),
{
    let text = String::from_str(" ");
    proof {
        reveal_strlit(" ");
    }
    StyledLine { text, style: LineStyle::Padding }
}

fn push_padding(rows: &mut Vec<StyledLine>, n: usize)
    ensures
        styled_view(final(rows)@) == styled_view(old(rows)@) + padding_rows(n as int),
{
    let mut i: usize = 0;
    while i < n
        invariant
            0 <= i <= n,
            styled_view(rows@) == styled_view(old(rows)@) + padding_rows(i as int),
        decreases n - i,
    {
        let line = padding_line();
        let ghost prev = styled_view(rows@);
        rows.push(line);
        proof {
            assert(styled_view(rows@) =~= prev.push((LineStyle::Padding, seq![' '])));
            assert(padding_rows(i as int).push((LineStyle::Padding, seq![' '])) =~= padding_rows(
                i + 1,
            ));
            assert(styled_view(rows@) =~= styled_view(old(rows)@) + padding_rows(i + 1));
        }
        i = i + 1;
    }
}

/// Keeps the rows that a view scrolled to `scroll_offset` and `height` rows high shows.
fn window_rows(rows: Vec<StyledLine>, scroll_offset: usize, height: usize) -> (shown: Vec<
    StyledLine,
>)
    requires
        scroll_offset + height <= usize::MAX,
    ensures
        styled_view(shown@) == window(styled_view(rows@), scroll_offset as int, height as int),
{
    let mut rows = rows;
    let len = rows.len();
    let stop = scroll_offset + height;
    let lo = if scroll_offset < len {
        scroll_offset
    } else {
        len
    };
    let hi = if stop < len {
        stop
    } else {
        len
    };
    let ghost before = rows@;
    rows.truncate(hi);
    let shown = rows.split_off(lo);
    proof {
        assert(styled_view(shown@) =~= window(styled_view(before), scroll_offset as int, height as int));
    }
    shown
}

/// Lays out the old text and its patch as two aligned panes, the unchanged old lines
/// after the last hunk included, and keeps the rows from `scroll_offset` on, at most
/// `height` of them. Without hunks both panes show the old text.
pub fn compute_styled_lines(
    old_content: &str,
    hunks: &[OwnedHunk],
    scroll_offset: usize,
    height: usize,
) -> (panes: (Vec<StyledLine>, Vec<StyledLine>))
    requires
        scroll_offset + height <= usize::MAX,
        pane_scan_fits(split_on(old_content@, '\n'), hunks_view(hunks@)),
    ensures
        (styled_view(panes.0@), styled_view(panes.1@)) == styled_panes(
            old_content@,
            hunks_view(hunks@),
            scroll_offset as int,
            height as int,
        ),
{
    let lines = split_lines(old_content);
    let ghost text = split_on(old_content@, '\n');
    let ghost hv = hunks_view(hunks@);
    let mut old_lines: Vec<StyledLine> = Vec::new();
    let mut new_lines: Vec<StyledLine> = Vec::new();
    let mut current_line_idx: usize = 0;
    let mut k: usize = 0;
    proof {
        assert(hv.take(0) =~= seq![]);
    }
    while k < hunks.len()
        invariant
            0 <= k <= hunks@.len(),
            hv == hunks_view(hunks@),
            lines.deep_view() == text,
            pane_scan_fits(text, hv),
            current_line_idx <= old_lines@.len(),
            ({
                let s = pane_scan_hunks(text, hv.take(k as int));
                &&& styled_view(old_lines@) == s.old
                &&& styled_view(new_lines@) == s.new
                &&& s.cur == current_line_idx
                &&& s.pending == 0
            }),
        decreases hunks@.len() - k,
    {
        let hunk = &hunks[k];
        let ghost s0 = pane_scan_hunks(text, hv.take(k as int));
        let ghost h = hv[k as int];
        proof {
            assert(hv.take(k + 1).drop_last() =~= hv.take(k as int));
            assert(hv.take(k + 1).last() == h);
            assert(h == hunk@);
            lemma_pane_fits_prefix(text, hv, k as int);
        }
        let ghost e = pane_scan_enter(s0, h.old_start, text);
        let start_of_hunk: usize = if hunk.old_start > 0 {
            hunk.old_start - 1
        } else {
            0
        };
        let ghost c0 = current_line_idx as int;
        proof {
            if c0 < start_of_hunk {
                assert(plain_rows(text.subrange(c0, c0)) =~= seq![]);
                assert(styled_view(old_lines@) =~= s0.old + plain_rows(text.subrange(c0, c0)));
                assert(styled_view(new_lines@) =~= s0.new + plain_rows(text.subrange(c0, c0)));
            }
        }
        while current_line_idx < start_of_hunk
            invariant
                0 <= c0 <= current_line_idx,
                c0 < start_of_hunk ==> current_line_idx <= start_of_hunk <= text.len(),
                c0 >= start_of_hunk ==> current_line_idx == c0,
                c0 == s0.cur,
                lines.deep_view() == text,
                current_line_idx <= old_lines@.len(),
                c0 < start_of_hunk ==> styled_view(old_lines@) == s0.old + plain_rows(
                    text.subrange(c0, current_line_idx as int),
                ),
                c0 < start_of_hunk ==> styled_view(new_lines@) == s0.new + plain_rows(
                    text.subrange(c0, current_line_idx as int),
                ),
                c0 >= start_of_hunk ==> styled_view(old_lines@) == s0.old,
                c0 >= start_of_hunk ==> styled_view(new_lines@) == s0.new,
            decreases start_of_hunk - current_line_idx,
        {
            proof {
                assert(c0 < start_of_hunk);
                assert(lines.deep_view()[current_line_idx as int] == lines@[current_line_idx as int]@);
            }
            let ghost prev_old = styled_view(old_lines@);
            let ghost prev_new = styled_view(new_lines@);
            old_lines.push(StyledLine { text: lines[current_line_idx].clone(), style: LineStyle::Plain });
            new_lines.push(StyledLine { text: lines[current_line_idx].clone(), style: LineStyle::Plain });
            proof {
                let c = current_line_idx as int;
                assert(styled_view(old_lines@) =~= prev_old.push((LineStyle::Plain, text[c])));
                assert(styled_view(new_lines@) =~= prev_new.push((LineStyle::Plain, text[c])));
                assert(text.subrange(c0, c + 1) =~= text.subrange(c0, c).push(text[c]));
                assert(plain_rows(text.subrange(c0, c + 1)) =~= plain_rows(text.subrange(c0, c)).push(
                    (LineStyle::Plain, text[c]),
                ));
                assert(styled_view(old_lines@) =~= s0.old + plain_rows(text.subrange(c0, c + 1)));
                assert(styled_view(new_lines@) =~= s0.new + plain_rows(text.subrange(c0, c + 1)));
            }
            current_line_idx = current_line_idx + 1;
        }
        proof {
            assert(h.lines.take(0) =~= seq![]);
        }
        // `ins` and `dels` count the inserted and deleted lines since the last context line.
        let mut ins: usize = 0;
        let mut dels: usize = 0;
        let mut j: usize = 0;
        while j < hunk.lines.len()
            invariant
                0 <= j <= hunk.lines@.len(),
                h == hunk@,
                hunk.lines@.len() == h.lines.len(),
                current_line_idx <= old_lines@.len(),
                ({
                    let s = pane_scan_lines(e, h.lines.take(j as int));
                    &&& styled_view(old_lines@) == s.old
                    &&& styled_view(new_lines@) == s.new
                    &&& s.cur == current_line_idx
                    &&& s.pending == ins - dels
                    &&& ins <= j
                    &&& dels <= j
                }),
            decreases hunk.lines@.len() - j,
        {
            proof {
                assert(h.lines.take(j + 1).drop_last() =~= h.lines.take(j as int));
                assert(h.lines.take(j + 1).last() == h.lines[j as int]);
            }
            let ghost before = pane_scan_lines(e, h.lines.take(j as int));
            let content = &hunk.lines[j].1;
            match hunk.lines[j].0 {
                OwnedLineType::Context => {
                    if ins > dels {
                        push_padding(&mut old_lines, ins - dels);
                    } else if dels > ins {
                        push_padding(&mut new_lines, dels - ins);
                    }
                    proof {
                        assert(padding_rows(0) =~= seq![]);
                        assert(styled_view(old_lines@) =~= before.old + padding_rows(before.pending));
                        assert(styled_view(new_lines@) =~= before.new + padding_rows(-before.pending));
                    }
                    old_lines.push(StyledLine { text: content.clone(), style: LineStyle::Plain });
                    new_lines.push(StyledLine { text: content.clone(), style: LineStyle::Plain });
                    proof {
                        // The length of a vector fits in a `usize`.
                        assert(old_lines@.len() == old_lines.len());
                    }
                    ins = 0;
                    dels = 0;
                    current_line_idx = current_line_idx + 1;
                },
                OwnedLineType::Delete => {
                    old_lines.push(StyledLine { text: content.clone(), style: LineStyle::Removed });
                    proof {
                        assert(old_lines@.len() == old_lines.len());
                    }
                    current_line_idx = current_line_idx + 1;
                    dels = dels + 1;
                },
                OwnedLineType::Insert => {
                    new_lines.push(StyledLine { text: content.clone(), style: LineStyle::Added });
                    ins = ins + 1;
                },
            }
            proof {
                let after = pane_scan_lines(e, h.lines.take(j + 1));
                assert(styled_view(old_lines@) =~= after.old);
                assert(styled_view(new_lines@) =~= after.new);
            }
            j = j + 1;
        }
        proof {
            assert(h.lines.take(j as int) =~= h.lines);
        }
        let ghost lv = pane_scan_lines(e, h.lines);
        if ins > dels {
            push_padding(&mut old_lines, ins - dels);
        } else if dels > ins {
            push_padding(&mut new_lines, dels - ins);
        }
        proof {
            assert(padding_rows(0) =~= seq![]);
            assert(styled_view(old_lines@) =~= lv.old + padding_rows(lv.pending));
            assert(styled_view(new_lines@) =~= lv.new + padding_rows(-lv.pending));
        }
        k = k + 1;
    }
    proof {
        assert(hv.take(k as int) =~= hv);
    }
    // The old lines after the last hunk go unchanged to both panes.
    let ghost s = pane_scan_hunks(text, hv);
    let ghost c0 = current_line_idx as int;
    proof {
        if c0 < text.len() {
            assert(plain_rows(text.subrange(c0, c0)) =~= seq![]);
            assert(styled_view(old_lines@) =~= s.old + plain_rows(text.subrange(c0, c0)));
            assert(styled_view(new_lines@) =~= s.new + plain_rows(text.subrange(c0, c0)));
        }
    }
    while current_line_idx < lines.len()
        invariant
            0 <= c0 <= current_line_idx,
            c0 == s.cur,
            lines.deep_view() == text,
            c0 < text.len() ==> current_line_idx <= text.len(),
            c0 >= text.len() ==> current_line_idx == c0,
            c0 < text.len() ==> styled_view(old_lines@) == s.old + plain_rows(
                text.subrange(c0, current_line_idx as int),
            ),
            c0 < text.len() ==> styled_view(new_lines@) == s.new + plain_rows(
                text.subrange(c0, current_line_idx as int),
            ),
            c0 >= text.len() ==> styled_view(old_lines@) == s.old,
            c0 >= text.len() ==> styled_view(new_lines@) == s.new,
        decreases lines@.len() - current_line_idx,
    {
        proof {
            assert(lines.deep_view()[current_line_idx as int] == lines@[current_line_idx as int]@);
        }
        let ghost prev_old = styled_view(old_lines@);
        let ghost prev_new = styled_view(new_lines@);
        old_lines.push(StyledLine { text: lines[current_line_idx].clone(), style: LineStyle::Plain });
        new_lines.push(StyledLine { text: lines[current_line_idx].clone(), style: LineStyle::Plain });
        proof {
            let c = current_line_idx as int;
            assert(styled_view(old_lines@) =~= prev_old.push((LineStyle::Plain, text[c])));
            assert(styled_view(new_lines@) =~= prev_new.push((LineStyle::Plain, text[c])));
            assert(text.subrange(c0, c + 1) =~= text.subrange(c0, c).push(text[c]));
            assert(plain_rows(text.subrange(c0, c + 1)) =~= plain_rows(text.subrange(c0, c)).push(
                (LineStyle::Plain, text[c]),
            ));
        }
        current_line_idx = current_line_idx + 1;
    }
    proof {
        if c0 >= text.len() {
            assert(plain_rows(tail_lines(text, c0)) =~= seq![]);
            assert(styled_view(old_lines@) =~= s.old + plain_rows(tail_lines(text, c0)));
            assert(styled_view(new_lines@) =~= s.new + plain_rows(tail_lines(text, c0)));
        }
    }
    (window_rows(old_lines, scroll_offset, height), window_rows(new_lines, scroll_offset, height))
}

/// The scan for change regions: the rows at which they start, or `None` where a row or a
/// line index would not fit in a `usize`.
fn scan_change_regions(hunks: &[OwnedHunk]) -> (offsets: Option<Vec<usize>>)
    ensures
        offsets is Some <==> region_scan_fits(hunks_view(hunks@)),
        offsets matches Some(o) ==> o@.map_values(|x: usize| x as int) == change_region_offsets_spec(
            hunks_view(hunks@),
        ),
{
    let ghost hv = hunks_view(hunks@);
    let mut offsets: Vec<usize> = Vec::new();
    let mut row: usize = 0;
    let mut current_line_idx: usize = 0;
    let mut k: usize = 0;
    proof {
        assert(hv.take(0) =~= seq![]);
    }
    while k < hunks.len()
        invariant
            0 <= k <= hunks@.len(),
            hv == hunks_view(hunks@),
            ({
                let s = region_scan_hunks(hv.take(k as int));
                &&& s.row == row
                &&& s.cur == current_line_idx
                &&& s.pending == 0
                &&& !s.in_region
                &&& s.offsets.len() == offsets@.len()
                &&& forall|i: int| 0 <= i < offsets@.len() ==> offsets@[i] as int == s.offsets[i]
            }),
        decreases hunks@.len() - k,
    {
        let hunk = &hunks[k];
        let ghost s0 = region_scan_hunks(hv.take(k as int));
        let ghost h = hv[k as int];
        proof {
            assert(hv.take(k + 1).drop_last() =~= hv.take(k as int));
            assert(hv.take(k + 1).last() == h);
            lemma_scan_hunks_mono(hv, k + 1);
        }
        let ghost fin = region_scan_hunks(hv.take(k + 1));
        let ghost e = region_scan_enter(s0, h.old_start);
        proof {
            assert(h == hunk@);
            lemma_scan_lines_mono(e, h.lines, 0);
            assert(h.lines.take(0) =~= seq![]);
        }
        let start_of_hunk: usize = if hunk.old_start > 0 {
            hunk.old_start - 1
        } else {
            0
        };
        if start_of_hunk > current_line_idx {
            if start_of_hunk - current_line_idx > usize::MAX - row {
                return None;
            }
            row = row + (start_of_hunk - current_line_idx);
            current_line_idx = start_of_hunk;
        }
        let mut ins: usize = 0;
        let mut dels: usize = 0;
        let mut in_region = false;
        let mut j: usize = 0;
        while j < hunk.lines.len()
            invariant
                0 <= j <= hunk.lines@.len(),
                h == hunk@,
                hunk.lines@.len() == h.lines.len(),
                fin == region_scan_leave(region_scan_lines(e, h.lines)),
                hv == hunks_view(hunks@),
                region_scan_fits(hv) ==> fin.row <= usize::MAX && fin.cur <= usize::MAX,
                ({
                    let s = region_scan_lines(e, h.lines.take(j as int));
                    &&& s.row == row
                    &&& s.cur == current_line_idx
                    &&& s.pending == ins - dels
                    &&& ins <= j
                    &&& dels <= j
                    &&& s.in_region == in_region
                    &&& s.offsets.len() == offsets@.len()
                    &&& forall|i: int|
                        0 <= i < offsets@.len() ==> offsets@[i] as int == s.offsets[i]
                }),
            decreases hunk.lines@.len() - j,
        {
            proof {
                assert(h.lines.take(j + 1).drop_last() =~= h.lines.take(j as int));
                assert(h.lines.take(j + 1).last().0 == hunk.lines@[j as int].0);
                lemma_scan_lines_mono(e, h.lines, j + 1);
            }
            match hunk.lines[j].0 {
                OwnedLineType::Context => {
                    let extra: usize = if ins > dels {
                        ins - dels
                    } else {
                        0
                    };
                    if row == usize::MAX || extra > usize::MAX - row - 1
                        || current_line_idx == usize::MAX {
                        proof {
                            let s1 = region_scan_lines(e, h.lines.take(j + 1));
                            assert(s1.row == row + extra + 1);
                            assert(s1.cur == current_line_idx + 1);
                            assert(s1.row <= fin.row && s1.cur <= fin.cur);
                        }
                        return None;
                    }
                    row = row + extra + 1;
                    ins = 0;
                    dels = 0;
                    current_line_idx = current_line_idx + 1;
                    in_region = false;
                },
                OwnedLineType::Delete => {
                    if row == usize::MAX || current_line_idx == usize::MAX {
                        proof {
                            let s1 = region_scan_lines(e, h.lines.take(j + 1));
                            assert(s1.row == row + 1);
                            assert(s1.cur == current_line_idx + 1);
                            assert(s1.row <= fin.row && s1.cur <= fin.cur);
                        }
                        return None;
                    }
                    if !in_region {
                        offsets.push(row);
                        in_region = true;
                    }
                    row = row + 1;
                    current_line_idx = current_line_idx + 1;
                    dels = dels + 1;
                },
                OwnedLineType::Insert => {
                    if !in_region {
                        offsets.push(row);
                        in_region = true;
                    }
                    ins = ins + 1;
                },
            }
            j = j + 1;
        }
        proof {
            assert(h.lines.take(j as int) =~= h.lines);
        }
        if ins > dels {
            if ins - dels > usize::MAX - row {
                return None;
            }
            row = row + (ins - dels);
        }
        k = k + 1;
    }
    proof {
        assert(hv.take(k as int) =~= hv);
    }
        proof {
        assert(offsets@.map_values(|x: usize| x as int) =~= change_region_offsets_spec(hv));
    }
    Some(offsets)
}

/// Whether the rows and line indices of the scan for change regions fit in a `usize`
/// (the condition under which `change_region_offsets` can run).
pub fn change_rows_fit(hunks: &[OwnedHunk]) -> (fits: bool)
    ensures
        fits == region_scan_fits(hunks_view(hunks@)),
{
    scan_change_regions(hunks).is_some()
}

/// The path of `path` below the root it lies in (the old root is tried first), starting
/// with a `/`.
pub open spec fn relative_path(old_root: Seq<char>, new_root: Seq<char>, path: Seq<char>) -> Seq<
    char,
> {
    let rel = if old_root.is_prefix_of(path) {
        path.skip(old_root.len() as int)
    } else if new_root.is_prefix_of(path) {
        path.skip(new_root.len() as int)
    } else {
        path
    };
    if rel.len() > 0 && rel[0] == '/' {
        rel
    } else {
        seq!['/'] + rel
    }
}

/// A path below one root stands for itself and for the same path below the other root:
/// for `path == old_root + r` (or, where it is not below the old root, `new_root + r`) with
/// `r` starting with `/`, the two files are `old_root + r` and `new_root + r`.
pub proof fn file_paths_map_across_roots(old_root: Seq<char>, new_root: Seq<char>, r: Seq<char>)
    requires
        r.len() > 0,
        r[0] == '/',
    ensures
        relative_path(old_root, new_root, old_root + r) == r,
        !old_root.is_prefix_of(new_root + r) ==> relative_path(old_root, new_root, new_root + r)
            == r,
{
    assert(old_root.is_prefix_of(old_root + r));
    assert((old_root + r).skip(old_root.len() as int) =~= r);
    assert(new_root.is_prefix_of(new_root + r));
    assert((new_root + r).skip(new_root.len() as int) =~= r);
}

/// The old and the new file that `path` (below either root, or below neither) stands for.
pub fn diff_file_paths(old_root: &str, new_root: &str, path: &str) -> (files: (String, String))
    ensures
        files.0@ == old_root@ + relative_path(old_root@, new_root@, path@),
        files.1@ == new_root@ + relative_path(old_root@, new_root@, path@),
{
    let path_chars = chars_of(path);
    let old_chars = chars_of(old_root);
    let new_chars = chars_of(new_root);
    let mut rel: String = if has_prefix(&path_chars, &old_chars) {
        string_from_chars(&path_chars, old_chars.len(), path_chars.len())
    } else if has_prefix(&path_chars, &new_chars) {
        string_from_chars(&path_chars, new_chars.len(), path_chars.len())
    } else {
        string_from_chars(&path_chars, 0, path_chars.len())
    };
    proof {
        assert(path@.subrange(0, path@.len() as int) =~= path@);
        assert(path@.subrange(old_root@.len() as int, path@.len() as int) =~= path@.skip(
            old_root@.len() as int,
        ));
        assert(path@.subrange(new_root@.len() as int, path@.len() as int) =~= path@.skip(
            new_root@.len() as int,
        ));
    }
    let rel_chars = chars_of(rel.as_str());
    if !(rel_chars.len() > 0 && rel_chars[0] == '/') {
        let mut slashed = String::from_str("/");
        proof {
            reveal_strlit("/");
        }
        slashed.append(rel.as_str());
        rel = slashed;
    }
    let mut file1 = String::from_str(old_root);
    file1.append(rel.as_str());
    let mut file2 = String::from_str(new_root);
    file2.append(rel.as_str());
    (file1, file2)
}

/// What diffy's `create_patch` yields for an old and a new text, as hunks.
pub uninterp spec fn patch_hunks(old_content: Seq<char>, new_content: Seq<char>) -> Seq<HunkView>;

/// Every hunk starts within the old text: its first old line (`old_start - 1`, or 0) is at
/// most the number of lines that splitting the old text at each `'\n'` gives.
pub open spec fn hunks_start_in(text: Seq<Seq<char>>, hunks: Seq<HunkView>) -> bool {
    forall|k: int| 0 <= k < hunks.len() ==> hunk_first_index(#[trigger] hunks[k].old_start) <= text.len()
}

/// Calls `diffy::create_patch` and converts each of its hunks to an `OwnedHunk`, each line
/// to its kind and text. Claimed: the hunks are a function of the two texts alone; two
/// equal texts give none (the edit script of equal inputs is empty) and two different texts
/// give some (the patch turns the old text into the new one, and diffy's `apply` of a
/// patch without hunks gives back the old text unchanged); and the hunks are a patch between the two texts' lines (each
/// line with its `'\n'`): each hunk's context and deleted lines are the old lines from
/// where it starts, after the previous hunk, and replacing them by its context and inserted
/// lines turns the old lines into the new ones (diffy takes context and inserted lines from
/// the new text and deleted lines from the old one, at the edit script's positions; lines
/// outside the edit script are equal). Not claimed: which of the patches between the two
/// texts diffy picks.
#[verifier::external_body]
pub(crate) fn hunks_from_patch(old_content: &str, new_content: &str) -> (hunks: Vec<OwnedHunk>)
    ensures
        hunks_view(hunks@) == patch_hunks(old_content@, new_content@),
        old_content@ == new_content@ ==> hunks@.len() == 0,
        old_content@ != new_content@ ==> hunks@.len() > 0,
        patch_applies(text_lines(old_content@), text_lines(new_content@), hunks_view(hunks@)),
{
    diffy::create_patch(old_content, new_content).hunks().iter().map(|h| OwnedHunk {
        old_start: h.old_range().start(),
        lines: h.lines().iter().map(|l| match l {
            diffy::Line::Context(c) => (OwnedLineType::Context, c.to_string()),
            diffy::Line::Delete(c) => (OwnedLineType::Delete, c.to_string()),
            diffy::Line::Insert(c) => (OwnedLineType::Insert, c.to_string()),
        }).collect(),
    }).collect()
}

/// What the cache keeps of a file: its old text, the hunks of its patch, and the rows at
/// which its change regions begin.
pub struct DiffCacheEntry {
    pub old_content: String,
    pub hunks: Vec<OwnedHunk>,
    pub change_region_offsets: Vec<usize>,
}

pub struct DiffCacheEntryView {
    pub old_content: Seq<char>,
    pub hunks: Seq<HunkView>,
    pub change_region_offsets: Seq<int>,
}

impl View for DiffCacheEntry {
    type V = DiffCacheEntryView;

    open spec fn view(&self) -> DiffCacheEntryView {
        DiffCacheEntryView {
            old_content: self.old_content@,
            hunks: hunks_view(self.hunks@),
            change_region_offsets: self.change_region_offsets@.map_values(|x: usize| x as int),
        }
    }
}

/// The entry that the cache keeps for an old and a new text.
pub open spec fn cache_entry_for(old_content: Seq<char>, new_content: Seq<char>) -> DiffCacheEntryView {
    DiffCacheEntryView {
        old_content,
        hunks: patch_hunks(old_content, new_content),
        change_region_offsets: change_region_offsets_spec(patch_hunks(old_content, new_content)),
    }
}

/// The diffs computed so far, by the path through which the file was asked for.
pub struct DiffCache {
    entries: Vec<(String, DiffCacheEntry)>,
}

pub open spec fn entries_map(entries: Seq<(String, DiffCacheEntry)>) -> Map<Seq<char>, DiffCacheEntryView>
    decreases entries.len(),
{
    if entries.len() == 0 {
        Map::empty()
    } else {
        entries_map(entries.drop_last()).insert(entries.last().0@, entries.last().1@)
    }
}

impl View for DiffCache {
    type V = Map<Seq<char>, DiffCacheEntryView>;

    closed spec fn view(&self) -> Map<Seq<char>, DiffCacheEntryView> {
        entries_map(self.entries@)
    }
}

proof fn lemma_entries_map_skip(entries: Seq<(String, DiffCacheEntry)>, i: int, key: Seq<char>)
    requires
        0 <= i <= entries.len(),
        forall|j: int| i <= j < entries.len() ==> entries[j].0@ != key,
    ensures
        entries_map(entries).contains_key(key) == entries_map(entries.take(i)).contains_key(key),
        entries_map(entries).contains_key(key) ==> entries_map(entries)[key] == entries_map(
            entries.take(i),
        )[key],
    decreases entries.len(),
{
    if i < entries.len() {
        assert(entries.drop_last().take(i) =~= entries.take(i));
        lemma_entries_map_skip(entries.drop_last(), i, key);
    } else {
        assert(entries.take(i) =~= entries);
    }
}

impl DiffCache {
    /// Every patch kept can be laid out against its old text.
    #[verifier::type_invariant]
    spec fn entries_lay_out(self) -> bool {
        forall|i: int|
            #![trigger self.entries@[i]]
            0 <= i < self.entries@.len() ==> pane_scan_fits(
                split_on(self.entries@[i].1.old_content@, '\n'),
                hunks_view(self.entries@[i].1.hunks@),
            )
    }

    /// An empty cache.
    pub fn new() -> (cache: Self)
        ensures
            cache@ == Map::<Seq<char>, DiffCacheEntryView>::empty(),
    {
        DiffCache { entries: Vec::new() }
    }

    /// The entry kept for `path`, if any.
    pub fn get(&self, path: &str) -> (entry: Option<&DiffCacheEntry>)
        ensures
            match entry {
                Some(e) => {
                    &&& self@.contains_key(path@)
                    &&& e@ == self@[path@]
                    &&& pane_scan_fits(split_on(e@.old_content, '\n'), e@.hunks)
                },
                None => !self@.contains_key(path@),
            },
    {
        let mut i = self.entries.len();
        while i > 0
            invariant
                0 <= i <= self.entries@.len(),
                forall|j: int| i <= j < self.entries@.len() ==> self.entries@[j].0@ != path@,
            decreases i,
        {
            if str_equal(self.entries[i - 1].0.as_str(), path) {
                proof {
                    let es = self.entries@;
                    lemma_entries_map_skip(es, i as int, path@);
                    assert(es.take(i as int).drop_last() =~= es.take(i - 1));
                    use_type_invariant(self);
                    assert(pane_scan_fits(
                        split_on(es[i - 1].1.old_content@, '\n'),
                        hunks_view(es[i - 1].1.hunks@),
                    ));
                }
                return Some(&self.entries[i - 1].1);
            }
            i = i - 1;
        }
        proof {
            lemma_entries_map_skip(self.entries@, 0, path@);
            assert(self.entries@.take(0) =~= seq![]);
        }
        None
    }

    /// Computes the patch from the old to the new text and keeps it for `path`, with the
    /// rows of its change regions. Where those rows would not fit in a `usize`, nothing is
    /// kept and `false` comes back.
    pub fn load(&mut self, path: &str, old_file_content: String, new_file_content: String) -> (loaded: bool)
        ensures
            loaded == region_scan_fits(patch_hunks(old_file_content@, new_file_content@)),
            loaded ==> final(self)@ == old(self)@.insert(
                path@,
                cache_entry_for(old_file_content@, new_file_content@),
            ),
            !loaded ==> final(self)@ == old(self)@,
            old_file_content@ == new_file_content@ ==> loaded && final(self)@[path@].hunks.len()
                == 0,
            loaded && old_file_content@ != new_file_content@ ==> final(self)@[path@].hunks.len()
                > 0,
            loaded ==> patch_applies(
                text_lines(old_file_content@),
                text_lines(new_file_content@),
                final(self)@[path@].hunks,
            ),
    {
        proof {
            use_type_invariant(&*self);
        }
        let hunks = hunks_from_patch(old_file_content.as_str(), new_file_content.as_str());
        proof {
            lemma_applies_starts_in(old_file_content@, hunks_view(hunks@));
            lemma_starts_in_fit(split_on(old_file_content@, '\n'), hunks_view(hunks@));
        }
        let offsets = match scan_change_regions(hunks.as_slice()) {
            Some(offsets) => offsets,
            None => {
                return false;
            },
        };
        let key = String::from_str(path);
        let entry = DiffCacheEntry {
            old_content: old_file_content,
            hunks,
            change_region_offsets: offsets,
        };
        let mut entries: Vec<(String, DiffCacheEntry)> = Vec::new();
        std::mem::swap(&mut entries, &mut self.entries);
        entries.push((key, entry));
        proof {
            assert(entries@.drop_last() =~= old(self).entries@);
            assert forall|i: int| 0 <= i < entries@.len() implies pane_scan_fits(
                split_on(#[trigger] entries@[i].1.old_content@, '\n'),
                hunks_view(entries@[i].1.hunks@),
            ) by {
                if i < entries@.len() - 1 {
                    assert(entries@[i] == old(self).entries@[i]);
                }
            }
        }
        self.entries = entries;
        true
    }
}

/// What has to be read before the panes for `path` can be shown: nothing where its diff is
/// kept already; otherwise the old and the new file that it stands for, and whether the
/// two are the same file (read once, then).
pub fn files_to_read(cache: &DiffCache, old_root: &str, new_root: &str, path: &str) -> (files:
    Option<(String, String, bool)>)
    ensures
        match files {
            None => cache@.contains_key(path@),
            Some((old_file, new_file, same)) => {
                &&& !cache@.contains_key(path@)
                &&& old_file@ == old_root@ + relative_path(old_root@, new_root@, path@)
                &&& new_file@ == new_root@ + relative_path(old_root@, new_root@, path@)
                &&& same == (old_file@ == new_file@)
            },
        },
{
    match cache.get(path) {
        Some(_) => None,
        None => {
            let (old_file, new_file) = diff_file_paths(old_root, new_root, path);
            let same = str_equal(old_file.as_str(), new_file.as_str());
            Some((old_file, new_file, same))
        },
    }
}

/// The rows that the old and the new pane show for the file kept for `path`, scrolled to
/// `scroll_offset` and `height` rows high. `None` where nothing is kept for `path`.
pub fn get_file_diff(path: &str, scroll_offset: usize, height: usize, cache: &DiffCache) -> (panes:
    Option<(Vec<StyledLine>, Vec<StyledLine>)>)
    requires
        scroll_offset + height <= usize::MAX,
    ensures
        match panes {
            Some(p) => {
                &&& cache@.contains_key(path@)
                &&& (styled_view(p.0@), styled_view(p.1@)) == styled_panes(
                    cache@[path@].old_content,
                    cache@[path@].hunks,
                    scroll_offset as int,
                    height as int,
                )
            },
            None => !cache@.contains_key(path@),
        },
{
    match cache.get(path) {
        None => None,
        Some(entry) => {
            Some(
                compute_styled_lines(
                    entry.old_content.as_str(),
                    entry.hunks.as_slice(),
                    scroll_offset,
                    height,
                ),
            )
        },
    }
}

/// What holds of the scan for change regions at every step: the regions found so far
/// start at increasing rows, before the current row; an open region started at most at the
/// current row and its rows reach past its start.
spec fn region_scan_ordered(s: RegionScan) -> bool {
    &&& forall|i: int, j: int| 0 <= i < j < s.offsets.len() ==> s.offsets[i] < s.offsets[j]
    &&& !s.in_region ==> s.pending == 0
    &&& !s.in_region ==> forall|i: int| 0 <= i < s.offsets.len() ==> s.offsets[i] < s.row
    &&& s.in_region ==> {
        &&& s.offsets.len() > 0
        &&& s.offsets.last() <= s.row
        &&& s.offsets.last() < s.row + pos_part(s.pending)
    }
}

proof fn lemma_ordered_lines(s: RegionScan, lines: Seq<(OwnedLineType, Seq<char>)>)
    requires
        region_scan_ordered(s),
    ensures
        region_scan_ordered(region_scan_lines(s, lines)),
        region_scan_lines(s, lines).row >= s.row,
    decreases lines.len(),
{
    if lines.len() > 0 {
        lemma_ordered_lines(s, lines.drop_last());
        let p = region_scan_lines(s, lines.drop_last());
        let q = region_scan_line(p, lines.last().0);
        if !p.in_region && lines.last().0 != OwnedLineType::Context {
            assert forall|i: int, j: int| 0 <= i < j < q.offsets.len() implies q.offsets[i]
                < q.offsets[j] by {
                if j == q.offsets.len() - 1 {
                    assert(q.offsets[j] == p.row);
                }
            }
        }
    }
}

proof fn lemma_ordered_hunks(hunks: Seq<HunkView>)
    ensures
        region_scan_ordered(region_scan_hunks(hunks)),
        !region_scan_hunks(hunks).in_region,
    decreases hunks.len(),
{
    if hunks.len() > 0 {
        lemma_ordered_hunks(hunks.drop_last());
        let s = region_scan_hunks(hunks.drop_last());
        let e = region_scan_enter(s, hunks.last().old_start);
        lemma_ordered_lines(e, hunks.last().lines);
    }
}

/// The change regions of a patch start at strictly increasing rows, so stepping to the
/// first region past the current row reaches every region in turn.
pub proof fn change_region_offsets_increasing(hunks: Seq<HunkView>)
    ensures
        forall|i: int, j: int|
            0 <= i < j < change_region_offsets_spec(hunks).len() ==> change_region_offsets_spec(
                hunks,
            )[i] < change_region_offsets_spec(hunks)[j],
{
    lemma_ordered_hunks(hunks);
}

/// Row `o` of two panes belongs to a change: the old pane shows a deleted line or padding
/// there, the new pane an inserted line or padding, and not both padding.
pub open spec fn change_row(
    old: Seq<(LineStyle, Seq<char>)>,
    new: Seq<(LineStyle, Seq<char>)>,
    o: int,
) -> bool {
    &&& 0 <= o < old.len()
    &&& o < new.len()
    &&& (old[o].0 == LineStyle::Removed || old[o].0 == LineStyle::Padding)
    &&& (new[o].0 == LineStyle::Added || new[o].0 == LineStyle::Padding)
    &&& !(old[o].0 == LineStyle::Padding && new[o].0 == LineStyle::Padding)
}

spec fn scans_agree(ps: PaneScan, rs: RegionScan) -> bool {
    &&& region_scan_ordered(rs)
    &&& rs.row >= 0
    &&& rs.cur >= 0
    &&& ps.cur == rs.cur
    &&& ps.pending == rs.pending
    &&& ps.old.len() == rs.row
    &&& ps.new.len() == rs.row + rs.pending
    &&& forall|i: int|
        0 <= i < rs.offsets.len() && !(rs.in_region && i == rs.offsets.len() - 1) ==> change_row(
            ps.old,
            ps.new,
            #[trigger] rs.offsets[i],
        )
    &&& rs.in_region ==> {
        let o = rs.offsets.last();
        &&& 0 <= o <= ps.new.len()
        &&& o < ps.old.len() ==> ps.old[o].0 == LineStyle::Removed
        &&& o < ps.new.len() ==> ps.new[o].0 == LineStyle::Added
        &&& (o < ps.old.len() || o < ps.new.len())
    }
}

proof fn lemma_change_row_extend(
    old: Seq<(LineStyle, Seq<char>)>,
    new: Seq<(LineStyle, Seq<char>)>,
    old2: Seq<(LineStyle, Seq<char>)>,
    new2: Seq<(LineStyle, Seq<char>)>,
    o: int,
)
    requires
        change_row(old, new, o),
        old.is_prefix_of(old2),
        new.is_prefix_of(new2),
    ensures
        change_row(old2, new2, o),
{
}

proof fn lemma_agree_line(ps: PaneScan, rs: RegionScan, l: (OwnedLineType, Seq<char>))
    requires
        scans_agree(ps, rs),
    ensures
        scans_agree(pane_scan_line(ps, l), region_scan_line(rs, l.0)),
{
    let ps2 = pane_scan_line(ps, l);
    let rs2 = region_scan_line(rs, l.0);
    lemma_ordered_lines(rs, seq![l]);
    assert(seq![l].drop_last() =~= Seq::<(OwnedLineType, Seq<char>)>::empty());
    assert(region_scan_lines(rs, seq![l].drop_last()) == rs);
    assert(seq![l].last() == l);
    assert(region_scan_lines(rs, seq![l]) == rs2);
    assert(ps.old.is_prefix_of(ps2.old));
    assert(ps.new.is_prefix_of(ps2.new));
    assert forall|i: int|
        0 <= i < rs2.offsets.len() && !(rs2.in_region && i == rs2.offsets.len() - 1) implies change_row(
        ps2.old,
        ps2.new,
        #[trigger] rs2.offsets[i],
    ) by {
        assert(rs2.offsets[i] == rs.offsets[i]);
        if !(rs.in_region && i == rs.offsets.len() - 1) {
            lemma_change_row_extend(ps.old, ps.new, ps2.old, ps2.new, rs.offsets[i]);
        } else {
            let o = rs.offsets.last();
            let p = rs.pending;
            assert(o < rs.row + pos_part(p));
            assert(o < ps2.old.len());
            assert(o < ps2.new.len());
        }
    }
}

proof fn lemma_agree_lines(ps: PaneScan, rs: RegionScan, lines: Seq<(OwnedLineType, Seq<char>)>)
    requires
        scans_agree(ps, rs),
    ensures
        scans_agree(pane_scan_lines(ps, lines), region_scan_lines(rs, lines)),
    decreases lines.len(),
{
    if lines.len() > 0 {
        lemma_agree_lines(ps, rs, lines.drop_last());
        lemma_agree_line(
            pane_scan_lines(ps, lines.drop_last()),
            region_scan_lines(rs, lines.drop_last()),
            lines.last(),
        );
    }
}

proof fn lemma_agree_leave(ps: PaneScan, rs: RegionScan)
    requires
        scans_agree(ps, rs),
    ensures
        scans_agree(pane_scan_leave(ps), region_scan_leave(rs)),
{
    let ps2 = pane_scan_leave(ps);
    let rs2 = region_scan_leave(rs);
    assert(ps.old.is_prefix_of(ps2.old));
    assert(ps.new.is_prefix_of(ps2.new));
    assert forall|i: int|
        0 <= i < rs2.offsets.len() && !(rs2.in_region && i == rs2.offsets.len() - 1) implies change_row(
        ps2.old,
        ps2.new,
        #[trigger] rs2.offsets[i],
    ) by {
        if !(rs.in_region && i == rs.offsets.len() - 1) {
            lemma_change_row_extend(ps.old, ps.new, ps2.old, ps2.new, rs.offsets[i]);
        }
    }
}

proof fn lemma_agree_enter(ps: PaneScan, rs: RegionScan, old_start: nat, text: Seq<Seq<char>>)
    requires
        scans_agree(ps, rs),
        !rs.in_region,
        hunk_first_index(old_start) <= ps.cur || hunk_first_index(old_start) <= text.len(),
    ensures
        scans_agree(pane_scan_enter(ps, old_start, text), region_scan_enter(rs, old_start)),
{
    let ps2 = pane_scan_enter(ps, old_start, text);
    let rs2 = region_scan_enter(rs, old_start);
    let start = hunk_first_index(old_start) as int;
    if ps.cur < start {
        assert(text.subrange(ps.cur, start).len() == start - ps.cur);
        assert(ps2.old.len() == ps.old.len() + (start - ps.cur));
        assert(ps2.new.len() == ps.new.len() + (start - ps.cur));
    }
    assert(region_scan_ordered(rs2));
    assert(ps.old.is_prefix_of(ps2.old));
    assert(ps.new.is_prefix_of(ps2.new));
    assert forall|i: int|
        0 <= i < rs2.offsets.len() && !(rs2.in_region && i == rs2.offsets.len() - 1) implies change_row(
        ps2.old,
        ps2.new,
        #[trigger] rs2.offsets[i],
    ) by {
        lemma_change_row_extend(ps.old, ps.new, ps2.old, ps2.new, rs.offsets[i]);
    }
}

proof fn lemma_agree_hunks(text: Seq<Seq<char>>, hunks: Seq<HunkView>)
    requires
        pane_scan_fits(text, hunks),
    ensures
        scans_agree(pane_scan_hunks(text, hunks), region_scan_hunks(hunks)),
        !region_scan_hunks(hunks).in_region,
    decreases hunks.len(),
{
    if hunks.len() == 0 {
        assert(scans_agree(pane_scan_hunks(text, hunks), region_scan_hunks(hunks)));
    } else {
        lemma_agree_hunks(text, hunks.drop_last());
        let ps = pane_scan_hunks(text, hunks.drop_last());
        let rs = region_scan_hunks(hunks.drop_last());
        let h = hunks.last();
        lemma_agree_enter(ps, rs, h.old_start, text);
        lemma_agree_lines(
            pane_scan_enter(ps, h.old_start, text),
            region_scan_enter(rs, h.old_start),
            h.lines,
        );
        lemma_agree_leave(
            pane_scan_lines(pane_scan_enter(ps, h.old_start, text), h.lines),
            region_scan_lines(region_scan_enter(rs, h.old_start), h.lines),
        );
    }
}

/// For each change region, the text of its first deleted line and of its first inserted
/// line, where it has one.
pub type RegionTexts = (Option<Seq<char>>, Option<Seq<char>>);

/// One line of a hunk, where `open` tells whether the line before it in the hunk was
/// deleted or inserted: a deleted or inserted line opens a region with it as the first of
/// its kind, or, in an open region, becomes the first of its kind if there was none.
pub open spec fn texts_line(f: Seq<RegionTexts>, open: bool, l: (OwnedLineType, Seq<char>)) -> Seq<
    RegionTexts,
> {
    match l.0 {
        OwnedLineType::Context => f,
        OwnedLineType::Delete => if !open {
            f.push((Some(l.1), None))
        } else if f.last().0 is None {
            f.update(f.len() - 1, (Some(l.1), f.last().1))
        } else {
            f
        },
        OwnedLineType::Insert => if !open {
            f.push((None, Some(l.1)))
        } else if f.last().1 is None {
            f.update(f.len() - 1, (f.last().0, Some(l.1)))
        } else {
            f
        },
    }
}

pub open spec fn texts_lines(f: Seq<RegionTexts>, lines: Seq<(OwnedLineType, Seq<char>)>) -> Seq<
    RegionTexts,
>
    decreases lines.len(),
{
    if lines.len() == 0 {
        f
    } else {
        texts_line(
            texts_lines(f, lines.drop_last()),
            lines.len() > 1 && lines[lines.len() - 2].0 != OwnedLineType::Context,
            lines.last(),
        )
    }
}

/// The first deleted and the first inserted line of each change region of a patch, in the
/// order of the regions.
pub open spec fn region_texts(hunks: Seq<HunkView>) -> Seq<RegionTexts>
    decreases hunks.len(),
{
    if hunks.len() == 0 {
        Seq::empty()
    } else {
        texts_lines(region_texts(hunks.drop_last()), hunks.last().lines)
    }
}

/// The row that the old pane shows first for a region: its first deleted line, or padding.
pub open spec fn old_first_row(t: Option<Seq<char>>) -> (LineStyle, Seq<char>) {
    match t {
        Some(x) => (LineStyle::Removed, x),
        None => (LineStyle::Padding, seq![' ']),
    }
}

/// The row that the new pane shows first for a region: its first inserted line, or padding.
pub open spec fn new_first_row(t: Option<Seq<char>>) -> (LineStyle, Seq<char>) {
    match t {
        Some(x) => (LineStyle::Added, x),
        None => (LineStyle::Padding, seq![' ']),
    }
}

spec fn texts_agree(ps: PaneScan, rs: RegionScan, f: Seq<RegionTexts>) -> bool {
    &&& scans_agree(ps, rs)
    &&& f.len() == rs.offsets.len()
    &&& forall|i: int|
        0 <= i < f.len() && !(rs.in_region && i == f.len() - 1) ==> {
            &&& ps.old[#[trigger] rs.offsets[i]] == old_first_row(f[i].0)
            &&& ps.new[rs.offsets[i]] == new_first_row(f[i].1)
        }
    &&& rs.in_region ==> {
        let o = rs.offsets.last();
        let t = f.last();
        &&& (t.0 is Some || t.1 is Some)
        &&& t.0 is Some ==> o < ps.old.len() && ps.old[o] == old_first_row(t.0)
        &&& t.0 is None ==> ps.old.len() == o
        &&& t.1 is Some ==> o < ps.new.len() && ps.new[o] == new_first_row(t.1)
        &&& t.1 is None ==> ps.new.len() == o
    }
}

proof fn lemma_texts_line(ps: PaneScan, rs: RegionScan, f: Seq<RegionTexts>, l: (OwnedLineType, Seq<char>))
    requires
        texts_agree(ps, rs, f),
    ensures
        texts_agree(
            pane_scan_line(ps, l),
            region_scan_line(rs, l.0),
            texts_line(f, rs.in_region, l),
        ),
{
    lemma_agree_line(ps, rs, l);
    let ps2 = pane_scan_line(ps, l);
    let rs2 = region_scan_line(rs, l.0);
    let f2 = texts_line(f, rs.in_region, l);
    assert(ps.old.is_prefix_of(ps2.old));
    assert(ps.new.is_prefix_of(ps2.new));
    assert forall|i: int|
        0 <= i < f2.len() && !(rs2.in_region && i == f2.len() - 1) implies {
            &&& ps2.old[#[trigger] rs2.offsets[i]] == old_first_row(f2[i].0)
            &&& ps2.new[rs2.offsets[i]] == new_first_row(f2[i].1)
        } by {
        assert(rs2.offsets[i] == rs.offsets[i]);
        if !(rs.in_region && i == f.len() - 1) {
            assert(f2[i] == f[i]);
            assert(change_row(ps.old, ps.new, rs.offsets[i]));
        } else {
            let o = rs.offsets.last();
            assert(l.0 == OwnedLineType::Context);
            assert(f2 == f);
            if f.last().0 is None {
                assert(ps.new.len() > o);
                assert(ps2.old[o] == padding_rows(rs.pending)[0]);
            }
            if f.last().1 is None {
                assert(ps.old.len() > o);
                assert(ps2.new[o] == padding_rows(-rs.pending)[0]);
            }
        }
    }
}

proof fn lemma_texts_leave(ps: PaneScan, rs: RegionScan, f: Seq<RegionTexts>)
    requires
        texts_agree(ps, rs, f),
    ensures
        texts_agree(pane_scan_leave(ps), region_scan_leave(rs), f),
{
    lemma_agree_leave(ps, rs);
    let ps2 = pane_scan_leave(ps);
    let rs2 = region_scan_leave(rs);
    assert(ps.old.is_prefix_of(ps2.old));
    assert(ps.new.is_prefix_of(ps2.new));
    assert forall|i: int| 0 <= i < f.len() implies {
        &&& ps2.old[#[trigger] rs2.offsets[i]] == old_first_row(f[i].0)
        &&& ps2.new[rs2.offsets[i]] == new_first_row(f[i].1)
    } by {
        if !(rs.in_region && i == f.len() - 1) {
            assert(change_row(ps.old, ps.new, rs.offsets[i]));
        } else {
            let o = rs.offsets.last();
            if f.last().0 is None {
                assert(ps.new.len() > o);
                assert(ps2.old[o] == padding_rows(rs.pending)[0]);
            }
            if f.last().1 is None {
                assert(ps.old.len() > o);
                assert(ps2.new[o] == padding_rows(-rs.pending)[0]);
            }
        }
    }
}

proof fn lemma_texts_lines(
    ps: PaneScan,
    rs: RegionScan,
    f: Seq<RegionTexts>,
    lines: Seq<(OwnedLineType, Seq<char>)>,
)
    requires
        texts_agree(ps, rs, f),
        !rs.in_region,
    ensures
        texts_agree(
            pane_scan_lines(ps, lines),
            region_scan_lines(rs, lines),
            texts_lines(f, lines),
        ),
    decreases lines.len(),
{
    if lines.len() > 0 {
        lemma_texts_lines(ps, rs, f, lines.drop_last());
        lemma_runs_lines(rs, lines.drop_last());
        if lines.len() > 1 {
            assert(lines.drop_last().last() == lines[lines.len() - 2]);
        }
        lemma_texts_line(
            pane_scan_lines(ps, lines.drop_last()),
            region_scan_lines(rs, lines.drop_last()),
            texts_lines(f, lines.drop_last()),
            lines.last(),
        );
    }
}

proof fn lemma_texts_enter(
    ps: PaneScan,
    rs: RegionScan,
    f: Seq<RegionTexts>,
    old_start: nat,
    text: Seq<Seq<char>>,
)
    requires
        texts_agree(ps, rs, f),
        !rs.in_region,
        hunk_first_index(old_start) <= ps.cur || hunk_first_index(old_start) <= text.len(),
    ensures
        texts_agree(pane_scan_enter(ps, old_start, text), region_scan_enter(rs, old_start), f),
{
    lemma_agree_enter(ps, rs, old_start, text);
    let ps2 = pane_scan_enter(ps, old_start, text);
    assert(ps.old.is_prefix_of(ps2.old));
    assert(ps.new.is_prefix_of(ps2.new));
    assert forall|i: int| 0 <= i < f.len() implies {
        &&& ps2.old[#[trigger] rs.offsets[i]] == old_first_row(f[i].0)
        &&& ps2.new[rs.offsets[i]] == new_first_row(f[i].1)
    } by {
        assert(change_row(ps.old, ps.new, rs.offsets[i]));
    }
}

proof fn lemma_texts_hunks(text: Seq<Seq<char>>, hunks: Seq<HunkView>)
    requires
        pane_scan_fits(text, hunks),
    ensures
        texts_agree(pane_scan_hunks(text, hunks), region_scan_hunks(hunks), region_texts(hunks)),
        !region_scan_hunks(hunks).in_region,
    decreases hunks.len(),
{
    if hunks.len() == 0 {
        assert(scans_agree(pane_scan_hunks(text, hunks), region_scan_hunks(hunks)));
    } else {
        lemma_texts_hunks(text, hunks.drop_last());
        let ps = pane_scan_hunks(text, hunks.drop_last());
        let rs = region_scan_hunks(hunks.drop_last());
        let f = region_texts(hunks.drop_last());
        let h = hunks.last();
        lemma_texts_enter(ps, rs, f, h.old_start, text);
        lemma_texts_lines(
            pane_scan_enter(ps, h.old_start, text),
            region_scan_enter(rs, h.old_start),
            f,
            h.lines,
        );
        lemma_texts_leave(
            pane_scan_lines(pane_scan_enter(ps, h.old_start, text), h.lines),
            region_scan_lines(region_scan_enter(rs, h.old_start), h.lines),
            texts_lines(f, h.lines),
        );
    }
}

/// Scrolling to the row of a change region shows that region on the first row of both
/// panes: its first deleted line in the old pane (padding where it deletes nothing), its
/// first inserted line in the new pane (padding where it inserts nothing), and not padding
/// in both.
pub proof fn jump_to_change_region_shows_it_first(
    text: Seq<char>,
    hunks: Seq<HunkView>,
    i: int,
    height: int,
)
    requires
        pane_scan_fits(split_on(text, '\n'), hunks),
        0 <= i < change_region_offsets_spec(hunks).len(),
        height > 0,
    ensures
        ({
            let o = change_region_offsets_spec(hunks)[i];
            let (full_old, full_new) = full_panes(text, hunks);
            let (old, new) = styled_panes(text, hunks, o, height);
            &&& change_row(full_old, full_new, o)
            &&& old.len() > 0
            &&& new.len() > 0
            &&& old[0] == full_old[o]
            &&& new[0] == full_new[o]
            &&& region_texts(hunks).len() == change_region_offsets_spec(hunks).len()
            &&& old[0] == old_first_row(region_texts(hunks)[i].0)
            &&& new[0] == new_first_row(region_texts(hunks)[i].1)
        }),
{
    let lines = split_on(text, '\n');
    lemma_agree_hunks(lines, hunks);
    lemma_texts_hunks(lines, hunks);
    let o = change_region_offsets_spec(hunks)[i];
    let s = pane_scan_hunks(lines, hunks);
    assert(change_row(s.old, s.new, o));
    assert(s.old[o] == old_first_row(region_texts(hunks)[i].0));
    assert(s.new[o] == new_first_row(region_texts(hunks)[i].1));
    if hunks.len() == 0 {
        assert(region_scan_hunks(hunks).offsets.len() == 0);
    }
}

/// Without hunks (as for a file whose old and new texts are equal) the two panes show the
/// same rows.
pub proof fn panes_agree_without_hunks(text: Seq<char>, scroll: int, height: int)
    ensures
        styled_panes(text, Seq::<HunkView>::empty(), scroll, height).0 == styled_panes(
            text,
            Seq::<HunkView>::empty(),
            scroll,
            height,
        ).1,
{
}

proof fn lemma_pane_lines_lengths(s: PaneScan, lines: Seq<(OwnedLineType, Seq<char>)>)
    requires
        s.old.len() - s.new.len() == -s.pending,
    ensures
        pane_scan_lines(s, lines).old.len() - pane_scan_lines(s, lines).new.len()
            == -pane_scan_lines(s, lines).pending,
    decreases lines.len(),
{
    if lines.len() > 0 {
        lemma_pane_lines_lengths(s, lines.drop_last());
    }
}

proof fn lemma_pane_hunks_lengths(text: Seq<Seq<char>>, hunks: Seq<HunkView>)
    ensures
        pane_scan_hunks(text, hunks).old.len() == pane_scan_hunks(text, hunks).new.len(),
        pane_scan_hunks(text, hunks).pending == 0,
    decreases hunks.len(),
{
    if hunks.len() > 0 {
        lemma_pane_hunks_lengths(text, hunks.drop_last());
        let h = hunks.last();
        let e = pane_scan_enter(pane_scan_hunks(text, hunks.drop_last()), h.old_start, text);
        lemma_pane_lines_lengths(e, h.lines);
    }
}

/// The old and the new pane of a file always have the same number of rows, so that they
/// stay aligned however far they are scrolled.
pub proof fn panes_have_equal_length(text: Seq<char>, hunks: Seq<HunkView>)
    ensures
        full_panes(text, hunks).0.len() == full_panes(text, hunks).1.len(),
{
    lemma_pane_hunks_lengths(split_on(text, '\n'), hunks);
}

/// Whether the last of `lines` opens a change region: it is deleted or inserted, and the
/// line before it (if any) is a context line.
pub open spec fn last_opens_region(lines: Seq<(OwnedLineType, Seq<char>)>) -> bool {
    &&& lines.len() > 0
    &&& lines.last().0 != OwnedLineType::Context
    &&& (lines.len() == 1 || lines[lines.len() - 2].0 == OwnedLineType::Context)
}

/// The number of maximal runs of deleted and inserted lines in the lines of a hunk.
pub open spec fn change_runs(lines: Seq<(OwnedLineType, Seq<char>)>) -> nat
    decreases lines.len(),
{
    if lines.len() == 0 {
        0
    } else {
        change_runs(lines.drop_last()) + if last_opens_region(lines) {
            1nat
        } else {
            0nat
        }
    }
}

/// The number of change regions of a patch: the runs of each hunk, added up (a run never
/// reaches from one hunk into the next).
pub open spec fn hunks_change_runs(hunks: Seq<HunkView>) -> nat
    decreases hunks.len(),
{
    if hunks.len() == 0 {
        0
    } else {
        hunks_change_runs(hunks.drop_last()) + change_runs(hunks.last().lines)
    }
}

proof fn lemma_runs_lines(s: RegionScan, lines: Seq<(OwnedLineType, Seq<char>)>)
    requires
        !s.in_region,
    ensures
        region_scan_lines(s, lines).offsets.len() == s.offsets.len() + change_runs(lines),
        region_scan_lines(s, lines).in_region == (lines.len() > 0 && lines.last().0
            != OwnedLineType::Context),
    decreases lines.len(),
{
    if lines.len() > 0 {
        lemma_runs_lines(s, lines.drop_last());
        if lines.len() > 1 {
            assert(lines.drop_last().last() == lines[lines.len() - 2]);
        }
    }
}

proof fn lemma_runs_hunks(hunks: Seq<HunkView>)
    ensures
        region_scan_hunks(hunks).offsets.len() == hunks_change_runs(hunks),
        !region_scan_hunks(hunks).in_region,
    decreases hunks.len(),
{
    if hunks.len() > 0 {
        lemma_runs_hunks(hunks.drop_last());
        let s = region_scan_hunks(hunks.drop_last());
        lemma_runs_lines(region_scan_enter(s, hunks.last().old_start), hunks.last().lines);
    }
}

/// There is one change region, and so one row to jump to, for each maximal run of deleted
/// and inserted lines within a hunk; a patch without such lines has none.
pub proof fn change_region_count(hunks: Seq<HunkView>)
    ensures
        change_region_offsets_spec(hunks).len() == hunks_change_runs(hunks),
{
    lemma_runs_hunks(hunks);
}

} // verus!
