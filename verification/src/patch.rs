use vstd::prelude::*;

use crate::diff::{
    full_panes, hunk_first_index, hunks_start_in, padding_rows, pane_scan_enter, pane_scan_hunks, pane_scan_leave,
    pane_scan_line, pane_scan_lines, plain_rows, tail_lines, HunkView, LineStyle, OwnedLineType,
    PaneScan,
};
use crate::text::split_on;

verus! {

/// A line without its line break, where it ends with one.
pub open spec fn strip_newline(x: Seq<char>) -> Seq<char> {
    if x.len() > 0 && x.last() == '\n' {
        x.drop_last()
    } else {
        x
    }
}

/// Each of `lines` without its line break.
pub open spec fn strip_all(lines: Seq<Seq<char>>) -> Seq<Seq<char>> {
    lines.map_values(|l: Seq<char>| strip_newline(l))
}

/// The lines of a text as a patch counts them: each piece before a `'\n'` with that
/// `'\n'`, then the rest of the text where it is not empty.
pub open spec fn text_lines(s: Seq<char>) -> Seq<Seq<char>> {
    let p = split_on(s, '\n');
    let n = p.len() as int;
    Seq::new((n - 1) as nat, |i: int| p[i].push('\n')) + if p[n - 1].len() > 0 {
        seq![p[n - 1]]
    } else {
        Seq::<Seq<char>>::empty()
    }
}

/// The empty piece that splitting a text at each `'\n'` gives at its end, where the text
/// is empty or ends with a line break; none otherwise.
pub open spec fn final_piece(s: Seq<char>) -> Seq<Seq<char>> {
    let p = split_on(s, '\n');
    if p[p.len() - 1].len() == 0 {
        seq![Seq::<char>::empty()]
    } else {
        Seq::empty()
    }
}

/// The lines of a hunk that stand in the old text: its context and deleted lines.
pub open spec fn old_side(lines: Seq<(OwnedLineType, Seq<char>)>) -> Seq<Seq<char>>
    decreases lines.len(),
{
    if lines.len() == 0 {
        Seq::empty()
    } else {
        let r = old_side(lines.drop_last());
        if lines.last().0 == OwnedLineType::Insert {
            r
        } else {
            r.push(lines.last().1)
        }
    }
}

/// The lines of a hunk that stand in the new text: its context and inserted lines.
pub open spec fn new_side(lines: Seq<(OwnedLineType, Seq<char>)>) -> Seq<Seq<char>>
    decreases lines.len(),
{
    if lines.len() == 0 {
        Seq::empty()
    } else {
        let r = new_side(lines.drop_last());
        if lines.last().0 == OwnedLineType::Delete {
            r
        } else {
            r.push(lines.last().1)
        }
    }
}

/// Applying hunks to the lines of an old text, one after the other: whether each hunk's
/// old side stands in the old lines where the hunk starts, after the previous hunk; the
/// lines produced so far; and the index of the next old line.
pub struct Applied {
    pub ok: bool,
    pub out: Seq<Seq<char>>,
    pub cur: int,
}

pub open spec fn apply_hunks(old_lines: Seq<Seq<char>>, hunks: Seq<HunkView>) -> Applied
    decreases hunks.len(),
{
    if hunks.len() == 0 {
        Applied { ok: true, out: Seq::empty(), cur: 0 }
    } else {
        let a = apply_hunks(old_lines, hunks.drop_last());
        let h = hunks.last();
        let s = hunk_first_index(h.old_start) as int;
        let o = old_side(h.lines);
        Applied {
            ok: a.ok && a.cur <= s && s + o.len() <= old_lines.len() && old_lines.subrange(
                s,
                s + o.len(),
            ) == o,
            out: a.out + old_lines.subrange(a.cur, s) + new_side(h.lines),
            cur: s + o.len(),
        }
    }
}

/// The hunks are a patch from `old_lines` to `new_lines`: they apply in order, and the old
/// lines with each hunk's old side replaced by its new side are the new lines.
pub open spec fn patch_applies(
    old_lines: Seq<Seq<char>>,
    new_lines: Seq<Seq<char>>,
    hunks: Seq<HunkView>,
) -> bool {
    let a = apply_hunks(old_lines, hunks);
    &&& a.ok
    &&& new_lines == a.out + old_lines.subrange(a.cur, old_lines.len() as int)
}

/// The lines a pane shows, padding rows left out and line breaks dropped.
pub open spec fn shown(rows: Seq<(LineStyle, Seq<char>)>) -> Seq<Seq<char>>
    decreases rows.len(),
{
    if rows.len() == 0 {
        Seq::empty()
    } else {
        let r = shown(rows.drop_last());
        if rows.last().0 == LineStyle::Padding {
            r
        } else {
            r.push(strip_newline(rows.last().1))
        }
    }
}

proof fn lemma_split_no_newline(s: Seq<char>)
    ensures
        forall|i: int, j: int|
            0 <= i < split_on(s, '\n').len() && 0 <= j < split_on(s, '\n')[i].len()
                ==> split_on(s, '\n')[i][j] != '\n',
    decreases s.len(),
{
    if s.len() > 0 {
        lemma_split_no_newline(s.drop_last());
        crate::text::lemma_split_on_nonempty(s.drop_last(), '\n');
        let prev = split_on(s.drop_last(), '\n');
        let p = split_on(s, '\n');
        assert forall|i: int, j: int| 0 <= i < p.len() && 0 <= j < p[i].len() implies p[i][j]
            != '\n' by {
            if s.last() != '\n' && i == prev.len() - 1 {
                if j < prev[i].len() {
                    assert(p[i][j] == prev[i][j]);
                }
            } else if i < prev.len() {
                assert(p[i] == prev[i]);
            }
        }
    }
}

proof fn lemma_strip_all_add(a: Seq<Seq<char>>, b: Seq<Seq<char>>)
    ensures
        strip_all(a + b) == strip_all(a) + strip_all(b),
{
    assert(strip_all(a + b) =~= strip_all(a) + strip_all(b));
}

/// Splitting a text at each `'\n'` gives its lines without their line breaks, then the
/// final empty piece where there is one.
pub proof fn lemma_text_lines(s: Seq<char>)
    ensures
        split_on(s, '\n') == strip_all(text_lines(s)) + final_piece(s),
        text_lines(s).len() <= split_on(s, '\n').len(),
        forall|i: int, j: int|
            0 <= i < split_on(s, '\n').len() && 0 <= j < split_on(s, '\n')[i].len()
                ==> split_on(s, '\n')[i][j] != '\n',
{
    crate::text::lemma_split_on_nonempty(s, '\n');
    lemma_split_no_newline(s);
    let p = split_on(s, '\n');
    let n = p.len() as int;
    let t = text_lines(s);
    assert forall|i: int| 0 <= i < n - 1 implies strip_newline(t[i]) == p[i] by {
        assert(t[i] == p[i].push('\n'));
        assert(p[i].push('\n').drop_last() =~= p[i]);
    }
    if p[n - 1].len() > 0 {
        assert(p[n - 1][p[n - 1].len() - 1] != '\n');
        assert(t.len() == n);
        assert(t[n - 1] == p[n - 1]);
        assert(strip_newline(t[n - 1]) == p[n - 1]);
        assert(final_piece(s) =~= Seq::<Seq<char>>::empty());
        assert forall|i: int| 0 <= i < n implies (strip_all(t) + final_piece(s))[i] == p[i] by {
            assert(strip_all(t)[i] == strip_newline(t[i]));
        }
    } else {
        assert(t.len() == n - 1);
        assert(p[n - 1] =~= Seq::<char>::empty());
        assert forall|i: int| 0 <= i < n implies (strip_all(t) + final_piece(s))[i] == p[i] by {
            if i < n - 1 {
                assert(strip_all(t)[i] == strip_newline(t[i]));
            }
        }
    }
    assert(p =~= strip_all(t) + final_piece(s));
}

proof fn lemma_shown_add(a: Seq<(LineStyle, Seq<char>)>, b: Seq<(LineStyle, Seq<char>)>)
    ensures
        shown(a + b) == shown(a) + shown(b),
    decreases b.len(),
{
    if b.len() == 0 {
        assert(a + b =~= a);
        assert(shown(a) + shown(b) =~= shown(a));
    } else {
        lemma_shown_add(a, b.drop_last());
        assert((a + b).drop_last() =~= a + b.drop_last());
        assert((a + b).last() == b.last());
        if b.last().0 != LineStyle::Padding {
            assert(shown(a) + shown(b) =~= (shown(a) + shown(b.drop_last())).push(
                strip_newline(b.last().1),
            ));
        }
    }
}

proof fn lemma_shown_plain(x: Seq<Seq<char>>)
    ensures
        shown(plain_rows(x)) == strip_all(x),
    decreases x.len(),
{
    if x.len() > 0 {
        lemma_shown_plain(x.drop_last());
        assert(plain_rows(x).drop_last() =~= plain_rows(x.drop_last()));
        assert(strip_all(x) =~= strip_all(x.drop_last()).push(strip_newline(x.last())));
    } else {
        assert(strip_all(x) =~= Seq::<Seq<char>>::empty());
    }
}

proof fn lemma_shown_padding(n: int)
    ensures
        shown(padding_rows(n)) == Seq::<Seq<char>>::empty(),
    decreases padding_rows(n).len(),
{
    let r = padding_rows(n);
    if r.len() > 0 {
        assert(r.drop_last() =~= padding_rows(r.len() - 1));
        lemma_shown_padding(r.len() - 1);
    }
}

proof fn lemma_shown_lines(e: PaneScan, lines: Seq<(OwnedLineType, Seq<char>)>)
    ensures
        shown(pane_scan_lines(e, lines).old) == shown(e.old) + strip_all(old_side(lines)),
        shown(pane_scan_lines(e, lines).new) == shown(e.new) + strip_all(new_side(lines)),
        pane_scan_lines(e, lines).cur == e.cur + old_side(lines).len(),
    decreases lines.len(),
{
    if lines.len() == 0 {
        assert(shown(e.old) + strip_all(old_side(lines)) =~= shown(e.old));
        assert(shown(e.new) + strip_all(new_side(lines)) =~= shown(e.new));
    } else {
        lemma_shown_lines(e, lines.drop_last());
        let s = pane_scan_lines(e, lines.drop_last());
        let l = lines.last();
        let os = old_side(lines.drop_last());
        let ns = new_side(lines.drop_last());
        match l.0 {
            OwnedLineType::Context => {
                lemma_shown_add(s.old + padding_rows(s.pending), seq![(LineStyle::Plain, l.1)]);
                lemma_shown_add(s.old, padding_rows(s.pending));
                lemma_shown_padding(s.pending);
                lemma_shown_add(s.new + padding_rows(-s.pending), seq![(LineStyle::Plain, l.1)]);
                lemma_shown_add(s.new, padding_rows(-s.pending));
                lemma_shown_padding(-s.pending);
                assert(seq![(LineStyle::Plain, l.1)].drop_last() =~= Seq::<
                    (LineStyle, Seq<char>),
                >::empty());
                let one = seq![(LineStyle::Plain, l.1)];
                assert(one.len() == 1 && one.last() == (LineStyle::Plain, l.1));
                assert(shown(one.drop_last()) =~= Seq::<Seq<char>>::empty());
                assert(shown(one) =~= seq![strip_newline(l.1)]);
                assert(shown(s.old) + Seq::<Seq<char>>::empty() =~= shown(s.old));
                assert(shown(s.new) + Seq::<Seq<char>>::empty() =~= shown(s.new));
                assert(strip_all(os.push(l.1)) =~= strip_all(os).push(strip_newline(l.1)));
                assert(strip_all(ns.push(l.1)) =~= strip_all(ns).push(strip_newline(l.1)));
            },
            OwnedLineType::Delete => {
                assert(strip_all(os.push(l.1)) =~= strip_all(os).push(strip_newline(l.1)));
                assert(s.old.push((LineStyle::Removed, l.1)).drop_last() =~= s.old);
            },
            OwnedLineType::Insert => {
                assert(strip_all(ns.push(l.1)) =~= strip_all(ns).push(strip_newline(l.1)));
                assert(s.new.push((LineStyle::Added, l.1)).drop_last() =~= s.new);
            },
        }
    }
}

proof fn lemma_shown_hunks(old: Seq<char>, hunks: Seq<HunkView>)
    requires
        apply_hunks(text_lines(old), hunks).ok,
    ensures
        ({
            let p = split_on(old, '\n');
            let a = apply_hunks(text_lines(old), hunks);
            let s = pane_scan_hunks(p, hunks);
            &&& 0 <= a.cur <= text_lines(old).len()
            &&& s.cur == a.cur
            &&& s.pending == 0
            &&& shown(s.old) == p.subrange(0, a.cur)
            &&& shown(s.new) == strip_all(a.out)
        }),
    decreases hunks.len(),
{
    let p = split_on(old, '\n');
    let d = text_lines(old);
    lemma_text_lines(old);
    if hunks.len() == 0 {
        assert(p.subrange(0, 0) =~= Seq::<Seq<char>>::empty());
        assert(strip_all(Seq::<Seq<char>>::empty()) =~= Seq::<Seq<char>>::empty());
    } else {
        lemma_shown_hunks(old, hunks.drop_last());
        let a = apply_hunks(d, hunks.drop_last());
        let s = pane_scan_hunks(p, hunks.drop_last());
        let h = hunks.last();
        let st = hunk_first_index(h.old_start) as int;
        let o = old_side(h.lines);
        let e = pane_scan_enter(s, h.old_start, p);
        // The old lines between the hunks, as the panes show them.
        let gap = p.subrange(a.cur, st);
        assert(strip_all(d.subrange(a.cur, st)) =~= gap) by {
            assert forall|i: int| 0 <= i < gap.len() implies strip_all(d.subrange(a.cur, st))[i]
                == gap[i] by {
                assert(strip_all(d)[a.cur + i] == (strip_all(d) + final_piece(old))[a.cur + i]);
            }
        }
        if s.cur < st {
            lemma_shown_add(s.old, plain_rows(gap));
            lemma_shown_add(s.new, plain_rows(gap));
        } else {
            assert(gap =~= Seq::<Seq<char>>::empty());
        }
        lemma_shown_plain(gap);
        assert(shown(e.old) == p.subrange(0, a.cur) + gap);
        assert(shown(e.new) == strip_all(a.out) + gap);
        assert(p.subrange(0, a.cur) + gap =~= p.subrange(0, st));
        lemma_shown_lines(e, h.lines);
        let l = pane_scan_lines(e, h.lines);
        lemma_shown_add(l.old, padding_rows(l.pending));
        lemma_shown_add(l.new, padding_rows(-l.pending));
        lemma_shown_padding(l.pending);
        lemma_shown_padding(-l.pending);
        assert(shown(l.old) + Seq::<Seq<char>>::empty() =~= shown(l.old));
        assert(shown(l.new) + Seq::<Seq<char>>::empty() =~= shown(l.new));
        // The old side of the hunk is the old lines it starts at.
        assert(strip_all(o) =~= p.subrange(st, st + o.len())) by {
            assert forall|i: int| 0 <= i < o.len() implies strip_all(o)[i] == p[st + i] by {
                assert(o[i] == d.subrange(st, st + o.len())[i]);
                assert(strip_all(d)[st + i] == (strip_all(d) + final_piece(old))[st + i]);
            }
        }
        assert(p.subrange(0, st) + p.subrange(st, st + o.len()) =~= p.subrange(0, st + o.len()));
        lemma_strip_all_add(a.out, gap);
        lemma_strip_all_add(a.out + d.subrange(a.cur, st), new_side(h.lines));
        lemma_strip_all_add(a.out, d.subrange(a.cur, st));
    }
}

/// Whole files side by side: leaving out padding rows and line breaks, the old pane shows
/// the old text split at its line breaks, and the new pane the lines of the new text, then
/// the old text's final empty piece (so the new text split at its line breaks, where both
/// texts end alike).
pub proof fn panes_show_both_files(old: Seq<char>, new: Seq<char>, hunks: Seq<HunkView>)
    requires
        patch_applies(text_lines(old), text_lines(new), hunks),
    ensures
        shown(full_panes(old, hunks).0) == split_on(old, '\n'),
        shown(full_panes(old, hunks).1) == strip_all(text_lines(new)) + final_piece(old),
        final_piece(old) == final_piece(new) ==> shown(full_panes(old, hunks).1) == split_on(
            new,
            '\n',
        ),
{
    let p = split_on(old, '\n');
    let d = text_lines(old);
    lemma_text_lines(old);
    lemma_text_lines(new);
    lemma_shown_hunks(old, hunks);
    let a = apply_hunks(d, hunks);
    let s = pane_scan_hunks(p, hunks);
    let tail = tail_lines(p, s.cur);
    assert(tail =~= p.subrange(a.cur, p.len() as int));
    lemma_shown_add(s.old, plain_rows(tail));
    lemma_shown_add(s.new, plain_rows(tail));
    lemma_shown_plain(tail);
    assert(strip_all(tail) =~= tail) by {
        assert forall|i: int| 0 <= i < tail.len() implies strip_all(tail)[i] == tail[i] by {
            assert(p[a.cur + i] == tail[i]);
            if tail[i].len() > 0 {
                assert(tail[i][tail[i].len() - 1] != '\n');
            }
        }
    }
    assert(p.subrange(0, a.cur) + tail =~= p);
    // The tail is the old lines after the last hunk, then the final piece.
    assert(tail =~= strip_all(d.subrange(a.cur, d.len() as int)) + final_piece(old)) by {
        assert(strip_all(d) + final_piece(old) == p);
        assert(strip_all(d) =~= strip_all(d.subrange(0, a.cur)) + strip_all(
            d.subrange(a.cur, d.len() as int),
        ));
    }
    lemma_strip_all_add(a.out, d.subrange(a.cur, d.len() as int));
    assert(strip_all(a.out) + (strip_all(d.subrange(a.cur, d.len() as int)) + final_piece(old))
        =~= strip_all(text_lines(new)) + final_piece(old));
}

/// Hunks that apply to the lines of a text all start within the text.
pub proof fn lemma_applies_starts_in(old: Seq<char>, hunks: Seq<HunkView>)
    requires
        apply_hunks(text_lines(old), hunks).ok,
    ensures
        hunks_start_in(split_on(old, '\n'), hunks),
    decreases hunks.len(),
{
    lemma_text_lines(old);
    if hunks.len() > 0 {
        lemma_applies_starts_in(old, hunks.drop_last());
        assert forall|k: int| 0 <= k < hunks.len() implies hunk_first_index(
            #[trigger] hunks[k].old_start,
        ) <= split_on(old, '\n').len() by {
            if k < hunks.len() - 1 {
                assert(hunks.drop_last()[k] == hunks[k]);
            }
        }
    }
}

/// The texts of the rows drawn in style `st`, in their order.
pub open spec fn rows_in_style(rows: Seq<(LineStyle, Seq<char>)>, st: LineStyle) -> Seq<Seq<char>>
    decreases rows.len(),
{
    if rows.len() == 0 {
        Seq::empty()
    } else {
        let r = rows_in_style(rows.drop_last(), st);
        if rows.last().0 == st {
            r.push(rows.last().1)
        } else {
            r
        }
    }
}

/// The texts of the lines of kind `t` among the lines of a hunk, in their order.
pub open spec fn lines_of_kind(lines: Seq<(OwnedLineType, Seq<char>)>, t: OwnedLineType) -> Seq<
    Seq<char>,
>
    decreases lines.len(),
{
    if lines.len() == 0 {
        Seq::empty()
    } else {
        let r = lines_of_kind(lines.drop_last(), t);
        if lines.last().0 == t {
            r.push(lines.last().1)
        } else {
            r
        }
    }
}

/// The texts of the lines of kind `t` in all the hunks, hunk after hunk.
pub open spec fn hunks_lines_of_kind(hunks: Seq<HunkView>, t: OwnedLineType) -> Seq<Seq<char>>
    decreases hunks.len(),
{
    if hunks.len() == 0 {
        Seq::empty()
    } else {
        hunks_lines_of_kind(hunks.drop_last(), t) + lines_of_kind(hunks.last().lines, t)
    }
}

proof fn lemma_style_add(a: Seq<(LineStyle, Seq<char>)>, b: Seq<(LineStyle, Seq<char>)>, st: LineStyle)
    ensures
        rows_in_style(a + b, st) == rows_in_style(a, st) + rows_in_style(b, st),
    decreases b.len(),
{
    if b.len() == 0 {
        assert(a + b =~= a);
        assert(rows_in_style(a, st) + rows_in_style(b, st) =~= rows_in_style(a, st));
    } else {
        lemma_style_add(a, b.drop_last(), st);
        assert((a + b).drop_last() =~= a + b.drop_last());
        assert((a + b).last() == b.last());
        if b.last().0 == st {
            assert(rows_in_style(a, st) + rows_in_style(b, st) =~= (rows_in_style(a, st)
                + rows_in_style(b.drop_last(), st)).push(b.last().1));
        }
    }
}

proof fn lemma_style_plain(x: Seq<Seq<char>>, st: LineStyle)
    requires
        st != LineStyle::Plain,
    ensures
        rows_in_style(plain_rows(x), st) == Seq::<Seq<char>>::empty(),
    decreases x.len(),
{
    if x.len() > 0 {
        lemma_style_plain(x.drop_last(), st);
        assert(plain_rows(x).drop_last() =~= plain_rows(x.drop_last()));
    }
}

proof fn lemma_style_padding(n: int, st: LineStyle)
    requires
        st != LineStyle::Padding,
    ensures
        rows_in_style(padding_rows(n), st) == Seq::<Seq<char>>::empty(),
    decreases padding_rows(n).len(),
{
    let r = padding_rows(n);
    if r.len() > 0 {
        assert(r.drop_last() =~= padding_rows(r.len() - 1));
        lemma_style_padding(r.len() - 1, st);
    }
}

proof fn lemma_style_lines(e: PaneScan, lines: Seq<(OwnedLineType, Seq<char>)>)
    ensures
        rows_in_style(pane_scan_lines(e, lines).old, LineStyle::Removed) == rows_in_style(
            e.old,
            LineStyle::Removed,
        ) + lines_of_kind(lines, OwnedLineType::Delete),
        rows_in_style(pane_scan_lines(e, lines).new, LineStyle::Added) == rows_in_style(
            e.new,
            LineStyle::Added,
        ) + lines_of_kind(lines, OwnedLineType::Insert),
        rows_in_style(pane_scan_lines(e, lines).old, LineStyle::Added) == rows_in_style(
            e.old,
            LineStyle::Added,
        ),
        rows_in_style(pane_scan_lines(e, lines).new, LineStyle::Removed) == rows_in_style(
            e.new,
            LineStyle::Removed,
        ),
    decreases lines.len(),
{
    if lines.len() == 0 {
        assert(rows_in_style(e.old, LineStyle::Removed) + Seq::<Seq<char>>::empty() =~= rows_in_style(
            e.old,
            LineStyle::Removed,
        ));
        assert(rows_in_style(e.new, LineStyle::Added) + Seq::<Seq<char>>::empty() =~= rows_in_style(
            e.new,
            LineStyle::Added,
        ));
    } else {
        lemma_style_lines(e, lines.drop_last());
        let s = pane_scan_lines(e, lines.drop_last());
        let l = lines.last();
        let ds = lines_of_kind(lines.drop_last(), OwnedLineType::Delete);
        let is = lines_of_kind(lines.drop_last(), OwnedLineType::Insert);
        match l.0 {
            OwnedLineType::Context => {
                let one = seq![(LineStyle::Plain, l.1)];
                lemma_style_plain(seq![l.1], LineStyle::Removed);
                lemma_style_plain(seq![l.1], LineStyle::Added);
                assert(plain_rows(seq![l.1]) =~= one);
                lemma_style_padding(s.pending, LineStyle::Removed);
                lemma_style_padding(s.pending, LineStyle::Added);
                lemma_style_padding(-s.pending, LineStyle::Removed);
                lemma_style_padding(-s.pending, LineStyle::Added);
                lemma_style_add(s.old + padding_rows(s.pending), one, LineStyle::Removed);
                lemma_style_add(s.old, padding_rows(s.pending), LineStyle::Removed);
                lemma_style_add(s.old + padding_rows(s.pending), one, LineStyle::Added);
                lemma_style_add(s.old, padding_rows(s.pending), LineStyle::Added);
                lemma_style_add(s.new + padding_rows(-s.pending), one, LineStyle::Added);
                lemma_style_add(s.new, padding_rows(-s.pending), LineStyle::Added);
                lemma_style_add(s.new + padding_rows(-s.pending), one, LineStyle::Removed);
                lemma_style_add(s.new, padding_rows(-s.pending), LineStyle::Removed);
                let z = Seq::<Seq<char>>::empty();
                assert(rows_in_style(s.old, LineStyle::Removed) + z + z =~= rows_in_style(
                    s.old,
                    LineStyle::Removed,
                ));
                assert(rows_in_style(s.old, LineStyle::Added) + z + z =~= rows_in_style(
                    s.old,
                    LineStyle::Added,
                ));
                assert(rows_in_style(s.new, LineStyle::Added) + z + z =~= rows_in_style(
                    s.new,
                    LineStyle::Added,
                ));
                assert(rows_in_style(s.new, LineStyle::Removed) + z + z =~= rows_in_style(
                    s.new,
                    LineStyle::Removed,
                ));
            },
            OwnedLineType::Delete => {
                assert(s.old.push((LineStyle::Removed, l.1)).drop_last() =~= s.old);
                assert(rows_in_style(e.old, LineStyle::Removed) + ds.push(l.1) =~= (rows_in_style(
                    e.old,
                    LineStyle::Removed,
                ) + ds).push(l.1));
            },
            OwnedLineType::Insert => {
                assert(s.new.push((LineStyle::Added, l.1)).drop_last() =~= s.new);
                assert(rows_in_style(e.new, LineStyle::Added) + is.push(l.1) =~= (rows_in_style(
                    e.new,
                    LineStyle::Added,
                ) + is).push(l.1));
            },
        }
    }
}

proof fn lemma_style_hunks(text: Seq<Seq<char>>, hunks: Seq<HunkView>)
    ensures
        rows_in_style(pane_scan_hunks(text, hunks).old, LineStyle::Removed) == hunks_lines_of_kind(
            hunks,
            OwnedLineType::Delete,
        ),
        rows_in_style(pane_scan_hunks(text, hunks).new, LineStyle::Added) == hunks_lines_of_kind(
            hunks,
            OwnedLineType::Insert,
        ),
        rows_in_style(pane_scan_hunks(text, hunks).old, LineStyle::Added).len() == 0,
        rows_in_style(pane_scan_hunks(text, hunks).new, LineStyle::Removed).len() == 0,
    decreases hunks.len(),
{
    if hunks.len() > 0 {
        lemma_style_hunks(text, hunks.drop_last());
        let s = pane_scan_hunks(text, hunks.drop_last());
        let h = hunks.last();
        let e = pane_scan_enter(s, h.old_start, text);
        let start = hunk_first_index(h.old_start) as int;
        if s.cur < start {
            let gap = text.subrange(s.cur, start);
            lemma_style_plain(gap, LineStyle::Removed);
            lemma_style_plain(gap, LineStyle::Added);
            lemma_style_add(s.old, plain_rows(gap), LineStyle::Removed);
            lemma_style_add(s.old, plain_rows(gap), LineStyle::Added);
            lemma_style_add(s.new, plain_rows(gap), LineStyle::Removed);
            lemma_style_add(s.new, plain_rows(gap), LineStyle::Added);
            let z = Seq::<Seq<char>>::empty();
            assert(rows_in_style(s.old, LineStyle::Removed) + z =~= rows_in_style(s.old, LineStyle::Removed));
            assert(rows_in_style(s.new, LineStyle::Added) + z =~= rows_in_style(s.new, LineStyle::Added));
        }
        lemma_style_lines(e, h.lines);
        let l = pane_scan_lines(e, h.lines);
        lemma_style_padding(l.pending, LineStyle::Removed);
        lemma_style_padding(l.pending, LineStyle::Added);
        lemma_style_padding(-l.pending, LineStyle::Removed);
        lemma_style_padding(-l.pending, LineStyle::Added);
        lemma_style_add(l.old, padding_rows(l.pending), LineStyle::Removed);
        lemma_style_add(l.old, padding_rows(l.pending), LineStyle::Added);
        lemma_style_add(l.new, padding_rows(-l.pending), LineStyle::Removed);
        lemma_style_add(l.new, padding_rows(-l.pending), LineStyle::Added);
        let z = Seq::<Seq<char>>::empty();
        assert(rows_in_style(l.old, LineStyle::Removed) + z =~= rows_in_style(l.old, LineStyle::Removed));
        assert(rows_in_style(l.new, LineStyle::Added) + z =~= rows_in_style(l.new, LineStyle::Added));
    }
}

/// Every deleted line of every hunk is drawn, with its text, as a removed row of the old
/// pane, and the removed rows are exactly these, in the hunks' order; likewise every
/// inserted line is an added row of the new pane. The old pane has no added rows and the
/// new pane no removed rows.
pub proof fn changed_lines_are_marked(text: Seq<char>, hunks: Seq<HunkView>)
    ensures
        rows_in_style(full_panes(text, hunks).0, LineStyle::Removed) == hunks_lines_of_kind(
            hunks,
            OwnedLineType::Delete,
        ),
        rows_in_style(full_panes(text, hunks).1, LineStyle::Added) == hunks_lines_of_kind(
            hunks,
            OwnedLineType::Insert,
        ),
        rows_in_style(full_panes(text, hunks).0, LineStyle::Added).len() == 0,
        rows_in_style(full_panes(text, hunks).1, LineStyle::Removed).len() == 0,
{
    let lines = split_on(text, '\n');
    lemma_style_hunks(lines, hunks);
    let s = pane_scan_hunks(lines, hunks);
    let tail = tail_lines(lines, s.cur);
    lemma_style_plain(tail, LineStyle::Removed);
    lemma_style_plain(tail, LineStyle::Added);
    lemma_style_add(s.old, plain_rows(tail), LineStyle::Removed);
    lemma_style_add(s.old, plain_rows(tail), LineStyle::Added);
    lemma_style_add(s.new, plain_rows(tail), LineStyle::Removed);
    lemma_style_add(s.new, plain_rows(tail), LineStyle::Added);
    let z = Seq::<Seq<char>>::empty();
    assert(rows_in_style(s.old, LineStyle::Removed) + z =~= rows_in_style(s.old, LineStyle::Removed));
    assert(rows_in_style(s.new, LineStyle::Added) + z =~= rows_in_style(s.new, LineStyle::Added));
}

/// Two rows side by side agree: an unchanged row stands opposite the same unchanged row;
/// a removed row stands in the old pane only, an added row in the new pane only; and two
/// padding rows never stand opposite each other.
pub open spec fn rows_agree(a: (LineStyle, Seq<char>), b: (LineStyle, Seq<char>)) -> bool {
    &&& (a.0 == LineStyle::Plain <==> b.0 == LineStyle::Plain)
    &&& a.0 == LineStyle::Plain ==> a.1 == b.1
    &&& !(a.0 == LineStyle::Padding && b.0 == LineStyle::Padding)
    &&& a.0 != LineStyle::Added
    &&& b.0 != LineStyle::Removed
}

spec fn aligned(old: Seq<(LineStyle, Seq<char>)>, new: Seq<(LineStyle, Seq<char>)>) -> bool {
    &&& forall|k: int| 0 <= k < old.len() && k < new.len() ==> rows_agree(#[trigger] old[k], new[k])
    &&& forall|k: int| new.len() <= k < old.len() ==> (#[trigger] old[k]).0 == LineStyle::Removed
    &&& forall|k: int| old.len() <= k < new.len() ==> (#[trigger] new[k]).0 == LineStyle::Added
}

proof fn lemma_aligned_pad(old: Seq<(LineStyle, Seq<char>)>, new: Seq<(LineStyle, Seq<char>)>, p: int)
    requires
        aligned(old, new),
        old.len() - new.len() == -p,
    ensures
        aligned(old + padding_rows(p), new + padding_rows(-p)),
        (old + padding_rows(p)).len() == (new + padding_rows(-p)).len(),
{
    let o2 = old + padding_rows(p);
    let n2 = new + padding_rows(-p);
    assert forall|k: int| 0 <= k < o2.len() && k < n2.len() implies rows_agree(#[trigger] o2[k], n2[k]) by {
        if k >= old.len() {
            assert(o2[k] == padding_rows(p)[k - old.len()]);
            assert(n2[k] == new[k]);
        } else if k >= new.len() {
            assert(n2[k] == padding_rows(-p)[k - new.len()]);
            assert(o2[k] == old[k]);
        } else {
            assert(o2[k] == old[k] && n2[k] == new[k]);
        }
    }
}

proof fn lemma_aligned_line(s: PaneScan, l: (OwnedLineType, Seq<char>))
    requires
        aligned(s.old, s.new),
        s.old.len() - s.new.len() == -s.pending,
    ensures
        aligned(pane_scan_line(s, l).old, pane_scan_line(s, l).new),
        pane_scan_line(s, l).old.len() - pane_scan_line(s, l).new.len() == -pane_scan_line(
            s,
            l,
        ).pending,
{
    let s2 = pane_scan_line(s, l);
    match l.0 {
        OwnedLineType::Context => {
            lemma_aligned_pad(s.old, s.new, s.pending);
            let o1 = s.old + padding_rows(s.pending);
            let n1 = s.new + padding_rows(-s.pending);
            assert(s2.old =~= o1.push((LineStyle::Plain, l.1)));
            assert(s2.new =~= n1.push((LineStyle::Plain, l.1)));
            assert forall|k: int| 0 <= k < s2.old.len() && k < s2.new.len() implies rows_agree(
                #[trigger] s2.old[k],
                s2.new[k],
            ) by {
                if k < o1.len() {
                    assert(s2.old[k] == o1[k] && s2.new[k] == n1[k]);
                }
            }
        },
        OwnedLineType::Delete => {
            assert forall|k: int| 0 <= k < s2.old.len() && k < s2.new.len() implies rows_agree(
                #[trigger] s2.old[k],
                s2.new[k],
            ) by {
                if k < s.old.len() {
                    assert(s2.old[k] == s.old[k]);
                } else {
                    assert(s.new[k].0 == LineStyle::Added);
                }
            }
            assert forall|k: int| s2.new.len() <= k < s2.old.len() implies (#[trigger] s2.old[k]).0
                == LineStyle::Removed by {
                if k < s.old.len() {
                    assert(s2.old[k] == s.old[k]);
                }
            }
        },
        OwnedLineType::Insert => {
            assert forall|k: int| 0 <= k < s2.old.len() && k < s2.new.len() implies rows_agree(
                #[trigger] s2.old[k],
                s2.new[k],
            ) by {
                if k < s.new.len() {
                    assert(s2.new[k] == s.new[k]);
                } else {
                    assert(s.old[k].0 == LineStyle::Removed);
                }
            }
            assert forall|k: int| s2.old.len() <= k < s2.new.len() implies (#[trigger] s2.new[k]).0
                == LineStyle::Added by {
                if k < s.new.len() {
                    assert(s2.new[k] == s.new[k]);
                }
            }
        },
    }
}

proof fn lemma_aligned_lines(s: PaneScan, lines: Seq<(OwnedLineType, Seq<char>)>)
    requires
        aligned(s.old, s.new),
        s.old.len() - s.new.len() == -s.pending,
    ensures
        aligned(pane_scan_lines(s, lines).old, pane_scan_lines(s, lines).new),
        pane_scan_lines(s, lines).old.len() - pane_scan_lines(s, lines).new.len()
            == -pane_scan_lines(s, lines).pending,
    decreases lines.len(),
{
    if lines.len() > 0 {
        lemma_aligned_lines(s, lines.drop_last());
        lemma_aligned_line(pane_scan_lines(s, lines.drop_last()), lines.last());
    }
}

proof fn lemma_aligned_plain(old: Seq<(LineStyle, Seq<char>)>, new: Seq<(LineStyle, Seq<char>)>, x: Seq<Seq<char>>)
    requires
        aligned(old, new),
        old.len() == new.len(),
    ensures
        aligned(old + plain_rows(x), new + plain_rows(x)),
        (old + plain_rows(x)).len() == (new + plain_rows(x)).len(),
{
    let o2 = old + plain_rows(x);
    let n2 = new + plain_rows(x);
    assert forall|k: int| 0 <= k < o2.len() && k < n2.len() implies rows_agree(#[trigger] o2[k], n2[k]) by {
        if k < old.len() {
            assert(o2[k] == old[k] && n2[k] == new[k]);
        } else {
            assert(o2[k] == plain_rows(x)[k - old.len()]);
            assert(n2[k] == plain_rows(x)[k - old.len()]);
        }
    }
}

proof fn lemma_aligned_hunks(text: Seq<Seq<char>>, hunks: Seq<HunkView>)
    ensures
        aligned(pane_scan_hunks(text, hunks).old, pane_scan_hunks(text, hunks).new),
        pane_scan_hunks(text, hunks).old.len() == pane_scan_hunks(text, hunks).new.len(),
        pane_scan_hunks(text, hunks).pending == 0,
    decreases hunks.len(),
{
    if hunks.len() > 0 {
        lemma_aligned_hunks(text, hunks.drop_last());
        let s = pane_scan_hunks(text, hunks.drop_last());
        let h = hunks.last();
        let start = hunk_first_index(h.old_start) as int;
        if s.cur < start {
            lemma_aligned_plain(s.old, s.new, text.subrange(s.cur, start));
        }
        let e = pane_scan_enter(s, h.old_start, text);
        lemma_aligned_lines(e, h.lines);
        let l = pane_scan_lines(e, h.lines);
        lemma_aligned_pad(l.old, l.new, l.pending);
    } else {
        let s = pane_scan_hunks(text, hunks);
        assert(aligned(s.old, s.new));
    }
}

/// The two panes stay aligned row by row: each unchanged line stands opposite the same
/// unchanged line, a removed row only ever stands in the old pane and an added row only in
/// the new pane, and no row is padding on both sides.
pub proof fn panes_stay_aligned(text: Seq<char>, hunks: Seq<HunkView>)
    ensures
        full_panes(text, hunks).0.len() == full_panes(text, hunks).1.len(),
        forall|k: int|
            0 <= k < full_panes(text, hunks).0.len() ==> rows_agree(
                #[trigger] full_panes(text, hunks).0[k],
                full_panes(text, hunks).1[k],
            ),
{
    let lines = split_on(text, '\n');
    lemma_aligned_hunks(lines, hunks);
    let s = pane_scan_hunks(lines, hunks);
    lemma_aligned_plain(s.old, s.new, tail_lines(lines, s.cur));
}

} // verus!
