//! The layout of a practice target: its items' boundaries and its logical lines, wrapped at
//! word boundaries to a fixed display width.
use crate::model::PracticeKind;
use crate::text::{
    display_width, graphemes, is_blank, is_blank_str, split_graphemes, str_eq, str_width,
    string_views, utf8_len,
};
use vstd::prelude::*;

pub mod engine;

verus! {

/// What typing into a practice did.
#[derive(Clone, Copy, Debug, PartialEq, Eq, Structural)]
pub enum InputOutcome {
    Accepted,
    Finished,
    IgnoredWhilePaused,
}

/// The display width at which logical lines wrap.
pub const LOGICAL_LINE_WIDTH: usize = 72;

/// Whether item ends split a target of `len` graphemes into non-empty items: strictly
/// increasing, the first above zero and the last at the end of the target.
pub open spec fn item_ends_ok(ends: Seq<usize>, len: nat) -> bool {
    &&& ends.len() > 0
    &&& ends.last() == len
    &&& ends[0] != 0
    &&& forall|i: int, j: int| 0 <= i < j < ends.len() ==> ends[i] < ends[j]
}

/// Checks item ends against a target of `target_len` graphemes.
pub fn validate_item_ends(item_ends: &[usize], target_len: usize) -> (r: Result<(), String>)
    ensures
        match r {
            Ok(()) => item_ends_ok(item_ends@, target_len as nat),
            Err(m) => !item_ends_ok(item_ends@, target_len as nat) && m@
                == "practice item boundaries must be ordered and cover the target"@,
        },
{
    let n = item_ends.len();
    let mut ordered = true;
    let mut i: usize = 1;
    while i < n
        invariant
            n == item_ends@.len(),
            1 <= i <= n || n == 0,
            ordered == forall|a: int| 0 < a < i && a < n ==> item_ends@[a - 1] < #[trigger] item_ends@[a],
        decreases n - i,
    {
        if item_ends[i - 1] >= item_ends[i] {
            ordered = false;
        }
        i = i + 1;
    }
    if n == 0 || item_ends[n - 1] != target_len || item_ends[0] == 0 || !ordered {
        proof {
            if n > 0 && ordered {
                assert(!(item_ends@.last() == target_len as nat && item_ends@[0] != 0));
            }
        }
        return Err("practice item boundaries must be ordered and cover the target".to_owned());
    }
    proof {
        assert forall|a: int, b: int| 0 <= a < b < item_ends@.len() implies item_ends@[a]
            < item_ends@[b] by {
            lemma_steps_increase(item_ends@, a, b);
        }
    }
    Ok(())
}

/// Neighbouring increases make a sequence increase.
proof fn lemma_steps_increase(s: Seq<usize>, a: int, b: int)
    requires
        0 <= a < b < s.len(),
        forall|k: int| 0 < k < s.len() ==> s[k - 1] < #[trigger] s[k],
    ensures
        s[a] < s[b],
    decreases b - a,
{
    if b - a > 1 {
        lemma_steps_increase(s, a, b - 1);
        assert(s[b - 1] < s[b]);
    } else {
        assert(s[b - 1] < s[b]);
    }
}

/// The lines found so far, where the current line starts, and how wide it is.
pub struct Wrap {
    pub lines: Seq<u32>,
    pub line_start: int,
    pub line_width: int,
}

/// `a + b`, saturating at `usize::MAX`.
pub open spec fn sat_add(a: int, b: int) -> int {
    if a + b > usize::MAX {
        usize::MAX as int
    } else {
        a + b
    }
}

/// Ends a line at `end` unless a line already ends there.
pub open spec fn end_line(lines: Seq<u32>, end: int) -> Seq<u32> {
    if lines.len() > 0 && lines.last() == end {
        lines
    } else {
        lines.push(end as u32)
    }
}

/// Starts a new line at `at`, ending the current one there.
pub open spec fn break_at(st: Wrap, at: int) -> Wrap {
    Wrap { lines: end_line(st.lines, at), line_start: at, line_width: 0 }
}

/// The saturating total width of the graphemes at positions `a..b`.
pub open spec fn span_width(w: Seq<usize>, a: int, b: int) -> int
    decreases b - a,
{
    if a >= b {
        0
    } else {
        sat_add(span_width(w, a, b - 1), w[b - 1] as int)
    }
}

/// Laying out the graphemes `a..b` of an over-wide word one by one: a line breaks before a
/// grapheme that would take it past the width, unless the grapheme starts the line.
pub open spec fn wrap_graphemes(w: Seq<usize>, st: Wrap, a: int, b: int) -> Wrap
    decreases b - a,
{
    if a >= b {
        st
    } else {
        let st1 = if st.line_start < a && sat_add(st.line_width, w[a] as int)
            > LOGICAL_LINE_WIDTH {
            break_at(st, a)
        } else {
            st
        };
        wrap_graphemes(
            w,
            Wrap { line_width: sat_add(st1.line_width, w[a] as int), ..st1 },
            a + 1,
            b,
        )
    }
}

/// Laying out the segment `a..b` (a word with the whitespace after it): it moves to a new
/// line when it does not fit on the current one, which must not be empty; a segment wider
/// than a whole line is then split between graphemes.
pub open spec fn place_segment(w: Seq<usize>, st: Wrap, a: int, b: int) -> Wrap {
    if a >= b {
        st
    } else {
        let width = span_width(w, a, b);
        let st1 = if st.line_start < a && sat_add(st.line_width, width) > LOGICAL_LINE_WIDTH {
            break_at(st, a)
        } else {
            st
        };
        if width <= LOGICAL_LINE_WIDTH {
            Wrap { line_width: sat_add(st1.line_width, width), ..st1 }
        } else {
            wrap_graphemes(w, st1, a, b)
        }
    }
}

/// Scanning an item from position `index` to its end `end`, with the layout `st` and the
/// current segment starting at `seg`: a line feed closes the segment and its line, and
/// whitespace closes the segment.
pub open spec fn scan_item(
    g: Seq<Seq<char>>,
    w: Seq<usize>,
    st: Wrap,
    seg: int,
    index: int,
    end: int,
) -> Wrap
    decreases end - index,
{
    if index >= end {
        let st1 = place_segment(w, st, seg, end);
        if st1.line_start < end {
            break_at(st1, end)
        } else {
            st1
        }
    } else if g[index] == seq!['\n'] {
        let st1 = place_segment(w, st, seg, index);
        scan_item(g, w, break_at(st1, index + 1), index + 1, index + 1, end)
    } else if is_blank(g[index]) {
        scan_item(g, w, place_segment(w, st, seg, index + 1), index + 1, index + 1, end)
    } else {
        scan_item(g, w, st, seg, index + 1, end)
    }
}

/// The line ends after the first `k` items.
pub open spec fn wrap_items(g: Seq<Seq<char>>, w: Seq<usize>, ends: Seq<usize>, k: nat) -> Seq<
    u32,
>
    decreases k,
{
    if k == 0 {
        Seq::empty()
    } else {
        let start = if k == 1 {
            0
        } else {
            ends[k - 2] as int
        };
        scan_item(
            g,
            w,
            Wrap { lines: wrap_items(g, w, ends, (k - 1) as nat), line_start: start, line_width: 0 },
            start,
            start,
            ends[k - 1] as int,
        ).lines
    }
}

/// The display widths of graphemes.
pub open spec fn widths(g: Seq<Seq<char>>) -> Seq<usize> {
    g.map_values(|s: Seq<char>| display_width(s))
}

/// The ends of the logical lines of a target: a key drill is one line; other targets break
/// after every line feed, at the end of every item, and where a word would run past the
/// line width.
pub open spec fn line_ends_spec(kind: PracticeKind, g: Seq<Seq<char>>, ends: Seq<usize>) -> Seq<
    u32,
> {
    if kind == PracticeKind::Key {
        seq![g.len() as u32]
    } else {
        wrap_items(g, widths(g), ends, ends.len())
    }
}

/// The width of the graphemes at positions `a..b`, line feeds aside.
pub open spec fn shown_width(g: Seq<Seq<char>>, w: Seq<usize>, a: int, b: int) -> int
    decreases b - a,
{
    if a >= b {
        0
    } else {
        shown_width(g, w, a, b - 1) + if g[b - 1] == seq!['\n'] {
            0
        } else {
            w[b - 1] as int
        }
    }
}

/// Where the line ending at `lines[i]` starts.
pub open spec fn line_start_of(lines: Seq<u32>, i: int) -> int {
    if i == 0 {
        0
    } else {
        lines[i - 1] as int
    }
}

/// Each line ends after the one before it, and none is wider than the line width, line
/// feeds aside.
pub open spec fn lines_fit(g: Seq<Seq<char>>, w: Seq<usize>, lines: Seq<u32>) -> bool {
    forall|i: int|
        0 <= i < lines.len() ==> line_start_of(lines, i) < #[trigger] lines[i] as int && shown_width(
            g,
            w,
            line_start_of(lines, i),
            lines[i] as int,
        ) <= LOGICAL_LINE_WIDTH
}

/// No line feed among the graphemes at positions `a..b`.
pub open spec fn no_line_feed(g: Seq<Seq<char>>, a: int, b: int) -> bool {
    forall|i: int| a <= i < b ==> #[trigger] g[i] != seq!['\n']
}

/// A layout in progress up to position `p`: its lines fit, the current line starts where the
/// last one ended, and its width is that of its graphemes so far, within the line width.
pub open spec fn wrap_ok(g: Seq<Seq<char>>, w: Seq<usize>, st: Wrap, p: int) -> bool {
    &&& lines_fit(g, w, st.lines)
    &&& if st.lines.len() == 0 {
        st.line_start == 0
    } else {
        st.lines.last() as int == st.line_start
    }
    &&& 0 <= st.line_start <= p
    &&& st.line_width == shown_width(g, w, st.line_start, p)
    &&& st.line_width <= LOGICAL_LINE_WIDTH
}

proof fn lemma_shown_width_split(g: Seq<Seq<char>>, w: Seq<usize>, a: int, b: int, c: int)
    requires
        a <= b <= c,
    ensures
        shown_width(g, w, a, c) == shown_width(g, w, a, b) + shown_width(g, w, b, c),
    decreases c - b,
{
    if b < c {
        lemma_shown_width_split(g, w, a, b, c - 1);
    }
}

proof fn lemma_shown_width_nonnegative(g: Seq<Seq<char>>, w: Seq<usize>, a: int, b: int)
    ensures
        shown_width(g, w, a, b) >= 0,
    decreases b - a,
{
    if a < b {
        lemma_shown_width_nonnegative(g, w, a, b - 1);
    }
}

/// Without line feeds, the saturating width of a span is its width, capped.
proof fn lemma_span_is_shown(g: Seq<Seq<char>>, w: Seq<usize>, a: int, b: int)
    requires
        no_line_feed(g, a, b),
    ensures
        span_width(w, a, b) == if shown_width(g, w, a, b) > usize::MAX {
            usize::MAX as int
        } else {
            shown_width(g, w, a, b)
        },
    decreases b - a,
{
    if a < b {
        lemma_span_is_shown(g, w, a, b - 1);
        lemma_shown_width_nonnegative(g, w, a, b - 1);
        assert(g[b - 1] != seq!['\n']);
    }
}

proof fn lemma_break_ok(g: Seq<Seq<char>>, w: Seq<usize>, st: Wrap, p: int)
    requires
        wrap_ok(g, w, st, p),
        st.line_start < p <= u32::MAX,
    ensures
        wrap_ok(g, w, break_at(st, p), p),
{
    let nl = break_at(st, p).lines;
    assert(nl == st.lines.push(p as u32));
    assert forall|i: int| 0 <= i < nl.len() implies line_start_of(nl, i) < #[trigger] nl[i] as int
        && shown_width(g, w, line_start_of(nl, i), nl[i] as int) <= LOGICAL_LINE_WIDTH by {
        if i < st.lines.len() {
            assert(nl[i] == st.lines[i]);
            if i > 0 {
                assert(nl[i - 1] == st.lines[i - 1]);
            }
        } else {
            assert(line_start_of(nl, i) == st.line_start);
        }
    }
}

proof fn lemma_wrap_graphemes_ok(g: Seq<Seq<char>>, w: Seq<usize>, st: Wrap, a: int, b: int)
    requires
        wrap_ok(g, w, st, a),
        a <= b <= g.len() <= u32::MAX,
        w.len() == g.len(),
        no_line_feed(g, a, b),
        forall|i: int| 0 <= i < w.len() ==> #[trigger] w[i] <= LOGICAL_LINE_WIDTH,
    ensures
        wrap_ok(g, w, wrap_graphemes(w, st, a, b), b),
    decreases b - a,
{
    if a < b {
        let st1 = if st.line_start < a && sat_add(st.line_width, w[a] as int) > LOGICAL_LINE_WIDTH {
            break_at(st, a)
        } else {
            st
        };
        if st.line_start < a && sat_add(st.line_width, w[a] as int) > LOGICAL_LINE_WIDTH {
            lemma_break_ok(g, w, st, a);
        }
        assert(wrap_ok(g, w, st1, a));
        assert(g[a] != seq!['\n']);
        lemma_shown_width_split(g, w, st1.line_start, a, a + 1);
        assert(shown_width(g, w, a, a + 1) == w[a] as int);
        let st2 = Wrap { line_width: sat_add(st1.line_width, w[a] as int), ..st1 };
        assert(wrap_ok(g, w, st2, a + 1));
        lemma_wrap_graphemes_ok(g, w, st2, a + 1, b);
    }
}

proof fn lemma_place_segment_ok(g: Seq<Seq<char>>, w: Seq<usize>, st: Wrap, a: int, b: int)
    requires
        wrap_ok(g, w, st, a),
        a <= b <= g.len() <= u32::MAX,
        w.len() == g.len(),
        no_line_feed(g, a, b),
        forall|i: int| 0 <= i < w.len() ==> #[trigger] w[i] <= LOGICAL_LINE_WIDTH,
    ensures
        wrap_ok(g, w, place_segment(w, st, a, b), b),
{
    if a < b {
        let width = span_width(w, a, b);
        lemma_span_is_shown(g, w, a, b);
        lemma_shown_width_nonnegative(g, w, a, b);
        let broke = st.line_start < a && sat_add(st.line_width, width) > LOGICAL_LINE_WIDTH;
        let st1 = if broke {
            break_at(st, a)
        } else {
            st
        };
        if broke {
            lemma_break_ok(g, w, st, a);
        }
        assert(wrap_ok(g, w, st1, a));
        if width <= LOGICAL_LINE_WIDTH {
            lemma_shown_width_split(g, w, st1.line_start, a, b);
            assert(wrap_ok(g, w, Wrap { line_width: sat_add(st1.line_width, width), ..st1 }, b));
        } else {
            lemma_wrap_graphemes_ok(g, w, st1, a, b);
        }
    }
}

proof fn lemma_scan_item_ok(g: Seq<Seq<char>>, w: Seq<usize>, st: Wrap, seg: int, index: int, end: int)
    requires
        wrap_ok(g, w, st, seg),
        seg <= index <= end <= g.len() <= u32::MAX,
        0 < end,
        w.len() == g.len(),
        no_line_feed(g, seg, index),
        forall|i: int| 0 <= i < w.len() ==> #[trigger] w[i] <= LOGICAL_LINE_WIDTH,
    ensures
        ({
            let r = scan_item(g, w, st, seg, index, end);
            &&& lines_fit(g, w, r.lines)
            &&& r.lines.len() > 0
            &&& r.lines.last() as int == end
        }),
    decreases end - index,
{
    if index >= end {
        lemma_place_segment_ok(g, w, st, seg, end);
        let st1 = place_segment(w, st, seg, end);
        if st1.line_start < end {
            lemma_break_ok(g, w, st1, end);
        }
    } else if g[index] == seq!['\n'] {
        lemma_place_segment_ok(g, w, st, seg, index);
        let st1 = place_segment(w, st, seg, index);
        lemma_shown_width_split(g, w, st1.line_start, index, index + 1);
        assert(shown_width(g, w, index, index + 1) == 0);
        assert(wrap_ok(g, w, st1, index + 1));
        lemma_break_ok(g, w, st1, index + 1);
        lemma_scan_item_ok(g, w, break_at(st1, index + 1), index + 1, index + 1, end);
    } else if is_blank(g[index]) {
        lemma_place_segment_ok(g, w, st, seg, index + 1);
        lemma_scan_item_ok(g, w, place_segment(w, st, seg, index + 1), index + 1, index + 1, end);
    } else {
        lemma_scan_item_ok(g, w, st, seg, index + 1, end);
    }
}

proof fn lemma_wrap_items_ok(g: Seq<Seq<char>>, ends: Seq<usize>, k: nat)
    requires
        item_ends_ok(ends, g.len()),
        0 < k <= ends.len(),
        g.len() <= u32::MAX,
        forall|i: int| 0 <= i < g.len() ==> display_width(#[trigger] g[i]) <= LOGICAL_LINE_WIDTH,
    ensures
        ({
            let lines = wrap_items(g, widths(g), ends, k);
            &&& lines_fit(g, widths(g), lines)
            &&& lines.len() > 0
            &&& lines.last() as int == ends[k - 1] as int
        }),
    decreases k,
{
    let w = widths(g);
    assert forall|i: int| 0 <= i < w.len() implies #[trigger] w[i] <= LOGICAL_LINE_WIDTH by {
        assert(w[i] == display_width(g[i]));
    }
    let start: int = if k == 1 {
        0
    } else {
        ends[k - 2] as int
    };
    let prev = wrap_items(g, w, ends, (k - 1) as nat);
    if k > 1 {
        lemma_wrap_items_ok(g, ends, (k - 1) as nat);
        assert(ends[k - 2] < ends[k - 1]);
    }
    assert(ends[k - 1] <= ends[ends.len() - 1]) by {
        if k - 1 < ends.len() - 1 {
            assert(ends[k - 1] < ends[ends.len() - 1]);
        }
    }
    if k == 1 {
        assert(ends[0] != 0);
    }
    let st = Wrap { lines: prev, line_start: start, line_width: 0 };
    assert(wrap_ok(g, w, st, start));
    lemma_scan_item_ok(g, w, st, start, start, ends[k - 1] as int);
}

/// Laid out in logical lines, a practice text (other than a key drill) whose clusters are
/// each at most a line wide has lines that follow one another to its end, none empty and
/// none wider than the line width, line feeds aside.
pub proof fn lemma_lines_fit_the_width(kind: PracticeKind, g: Seq<Seq<char>>, ends: Seq<usize>)
    requires
        kind != PracticeKind::Key,
        item_ends_ok(ends, g.len()),
        g.len() <= u32::MAX,
        forall|i: int| 0 <= i < g.len() ==> display_width(#[trigger] g[i]) <= LOGICAL_LINE_WIDTH,
    ensures
        ({
            let lines = line_ends_spec(kind, g, ends);
            &&& lines_fit(g, widths(g), lines)
            &&& lines.len() > 0
            &&& lines.last() as int == g.len()
        }),
{
    lemma_wrap_items_ok(g, ends, ends.len());
}

/// Ends a line at `end` unless a line already ends there.
fn push_line_end(lines: &mut Vec<u32>, end: usize)
    requires
        end <= u32::MAX,
    ensures
        final(lines)@ == end_line(old(lines)@, end as int),
{
    let end = end as u32;
    if lines.len() == 0 || lines[lines.len() - 1] != end {
        lines.push(end);
    }
}

/// The saturating total width of the graphemes at positions `a..b`.
fn segment_width(w: &Vec<usize>, a: usize, b: usize) -> (r: usize)
    requires
        a <= b <= w@.len(),
    ensures
        r == span_width(w@, a as int, b as int),
{
    let mut total: usize = 0;
    let mut i = a;
    while i < b
        invariant
            a <= i <= b <= w@.len(),
            total == span_width(w@, a as int, i as int),
        decreases b - i,
    {
        total = total.saturating_add(w[i]);
        i = i + 1;
    }
    total
}

/// Lays out one segment onto the current layout.
fn append_line_segment(
    w: &Vec<usize>,
    a: usize,
    b: usize,
    line_start: &mut usize,
    line_width: &mut usize,
    lines: &mut Vec<u32>,
)
    requires
        a <= b <= w@.len(),
        w@.len() <= u32::MAX,
        *old(line_start) <= a,
    ensures
        ({
            let st = place_segment(
                w@,
                Wrap {
                    lines: old(lines)@,
                    line_start: *old(line_start) as int,
                    line_width: *old(line_width) as int,
                },
                a as int,
                b as int,
            );
            final(lines)@ == st.lines && *final(line_start) == st.line_start && *final(line_width)
                == st.line_width
        }),
        *final(line_start) <= b,
{
    if a >= b {
        return;
    }
    let width = segment_width(w, a, b);
    if *line_start < a && line_width.saturating_add(width) > LOGICAL_LINE_WIDTH {
        push_line_end(lines, a);
        *line_start = a;
        *line_width = 0;
    }
    if width <= LOGICAL_LINE_WIDTH {
        *line_width = line_width.saturating_add(width);
        return;
    }
    let ghost st1 = Wrap {
        lines: lines@,
        line_start: *line_start as int,
        line_width: *line_width as int,
    };
    let mut index = a;
    while index < b
        invariant
            a <= index <= b <= w@.len(),
            w@.len() <= u32::MAX,
            *line_start <= index,
            wrap_graphemes(w@, st1, a as int, b as int) == wrap_graphemes(
                w@,
                Wrap {
                    lines: lines@,
                    line_start: *line_start as int,
                    line_width: *line_width as int,
                },
                index as int,
                b as int,
            ),
        decreases b - index,
    {
        let width = w[index];
        if *line_start < index && line_width.saturating_add(width) > LOGICAL_LINE_WIDTH {
            push_line_end(lines, index);
            *line_start = index;
            *line_width = 0;
        }
        *line_width = line_width.saturating_add(width);
        index = index + 1;
    }
}

/// The logical line ends of a target given as graphemes, with its item ends.
pub fn logical_line_ends(kind: PracticeKind, graphemes: &Vec<String>, item_ends: &Vec<usize>) -> (r:
    Vec<u32>)
    requires
        item_ends_ok(item_ends@, graphemes@.len()),
        graphemes@.len() <= u32::MAX,
    ensures
        r@ == line_ends_spec(kind, string_views(graphemes@), item_ends@),
{
    let ghost g = string_views(graphemes@);
    if kind == PracticeKind::Key {
        let mut one = Vec::new();
        one.push(graphemes.len() as u32);
        return one;
    }
    let mut w: Vec<usize> = Vec::new();
    for i in 0..graphemes.len()
        invariant
            g == string_views(graphemes@),
            w@ == widths(g).take(i as int),
    {
        let width = str_width(graphemes[i].as_str());
        proof {
            assert(widths(g).take(i + 1) =~= w@.push(width));
        }
        w.push(width);
    }
    proof {
        assert(widths(g).take(graphemes@.len() as int) =~= widths(g));
    }
    let mut lines: Vec<u32> = Vec::new();
    let mut item_start: usize = 0;
    for k in 0..item_ends.len()
        invariant
            g == string_views(graphemes@),
            w@ == widths(g),
            item_ends_ok(item_ends@, graphemes@.len()),
            graphemes@.len() <= u32::MAX,
            item_start == if k == 0 {
                0
            } else {
                item_ends@[k - 1] as int
            },
            lines@ == wrap_items(g, w@, item_ends@, k as nat),
    {
        let item_end = item_ends[k];
        proof {
            if k > 0 {
                assert(item_ends@[k - 1] < item_ends@[k as int]);
            }
            assert(item_ends@[k as int] <= item_ends@.last()) by {
                if k + 1 < item_ends@.len() {
                    assert(item_ends@[k as int] < item_ends@[item_ends@.len() - 1]);
                }
            }
        }
        let mut line_start = item_start;
        let mut line_width: usize = 0;
        let mut segment_start = item_start;
        let ghost target = scan_item(
            g,
            w@,
            Wrap { lines: lines@, line_start: item_start as int, line_width: 0 },
            item_start as int,
            item_start as int,
            item_end as int,
        );
        let mut index = item_start;
        while index < item_end
            invariant
                g == string_views(graphemes@),
                w@ == widths(g),
                w@.len() == graphemes@.len(),
                item_start <= segment_start <= index <= item_end <= graphemes@.len(),
                graphemes@.len() <= u32::MAX,
                line_start <= segment_start,
                target == scan_item(
                    g,
                    w@,
                    Wrap {
                        lines: lines@,
                        line_start: line_start as int,
                        line_width: line_width as int,
                    },
                    segment_start as int,
                    index as int,
                    item_end as int,
                ),
            decreases item_end - index,
        {
            let grapheme = graphemes[index].as_str();
            let ghost st0 = Wrap {
                lines: lines@,
                line_start: line_start as int,
                line_width: line_width as int,
            };
            let ghost seg0 = segment_start as int;
            proof {
                assert(g[index as int] == grapheme@);
                reveal_strlit("\n");
                assert("\n"@ =~= seq!['\n']);
            }
            if str_eq(grapheme, "\n") {
                append_line_segment(
                    &w,
                    segment_start,
                    index,
                    &mut line_start,
                    &mut line_width,
                    &mut lines,
                );
                push_line_end(&mut lines, index + 1);
                line_start = index + 1;
                line_width = 0;
                segment_start = index + 1;
                proof {
                    let st1 = place_segment(w@, st0, seg0, index as int);
                    assert(scan_item(g, w@, st0, seg0, index as int, item_end as int) == scan_item(
                        g,
                        w@,
                        break_at(st1, index + 1),
                        index + 1,
                        index + 1,
                        item_end as int,
                    ));
                }
            } else if is_blank_str(grapheme) {
                append_line_segment(
                    &w,
                    segment_start,
                    index + 1,
                    &mut line_start,
                    &mut line_width,
                    &mut lines,
                );
                segment_start = index + 1;
                proof {
                    assert(scan_item(g, w@, st0, seg0, index as int, item_end as int) == scan_item(
                        g,
                        w@,
                        place_segment(w@, st0, seg0, index + 1),
                        index + 1,
                        index + 1,
                        item_end as int,
                    ));
                }
            } else {
                proof {
                    assert(scan_item(g, w@, st0, seg0, index as int, item_end as int) == scan_item(
                        g,
                        w@,
                        st0,
                        seg0,
                        index + 1,
                        item_end as int,
                    ));
                }
            }
            index = index + 1;
        }
        append_line_segment(
            &w,
            segment_start,
            item_end,
            &mut line_start,
            &mut line_width,
            &mut lines,
        );
        if line_start < item_end {
            push_line_end(&mut lines, item_end);
        }
        proof {
            assert(lines@ == target.lines);
        }
        item_start = item_end;
    }
    lines
}

/// Line ends in strictly increasing order.
pub open spec fn increasing(s: Seq<u32>) -> bool {
    forall|i: int, j: int| 0 <= i < j < s.len() ==> s[i] < s[j]
}

/// `a` is the start of `b`.
pub open spec fn extends(a: Seq<u32>, b: Seq<u32>) -> bool {
    a.len() <= b.len() && b.subrange(0, a.len() as int) == a
}

/// A layout in progress: its line ends increase, the last one is where the current line
/// starts, and with no line ended the current line starts at the beginning.
pub open spec fn ok_state(st: Wrap) -> bool {
    &&& increasing(st.lines)
    &&& st.lines.len() > 0 ==> st.lines.last() == st.line_start
    &&& st.lines.len() == 0 ==> st.line_start == 0
}

proof fn lemma_extends_trans(a: Seq<u32>, b: Seq<u32>, c: Seq<u32>)
    requires
        extends(a, b),
        extends(b, c),
    ensures
        extends(a, c),
{
    assert(c.subrange(0, a.len() as int) =~= b.subrange(0, b.len() as int).subrange(
        0,
        a.len() as int,
    ));
    assert(b.subrange(0, b.len() as int) =~= b);
}

proof fn lemma_break(st: Wrap, at: int)
    requires
        ok_state(st),
        st.line_start < at <= u32::MAX,
    ensures
        ok_state(break_at(st, at)),
        extends(st.lines, break_at(st, at).lines),
        break_at(st, at).line_start == at,
{
    let r = break_at(st, at);
    assert(r.lines == st.lines.push(at as u32));
    assert(r.lines.subrange(0, st.lines.len() as int) =~= st.lines);
    assert forall|i: int, j: int| 0 <= i < j < r.lines.len() implies r.lines[i] < r.lines[j] by {
        if j == st.lines.len() {
            if st.lines.len() > 0 {
                assert(st.lines[i] <= st.lines.last());
            }
        }
    }
}

proof fn lemma_wrap(w: Seq<usize>, st: Wrap, a: int, b: int)
    requires
        ok_state(st),
        st.line_start <= a,
        b <= u32::MAX,
    ensures
        ok_state(wrap_graphemes(w, st, a, b)),
        extends(st.lines, wrap_graphemes(w, st, a, b).lines),
        wrap_graphemes(w, st, a, b).line_start <= if a < b {
            b
        } else {
            st.line_start
        },
    decreases b - a,
{
    if a < b {
        let st1 = if st.line_start < a && sat_add(st.line_width, w[a] as int) > LOGICAL_LINE_WIDTH {
            break_at(st, a)
        } else {
            st
        };
        if st.line_start < a && sat_add(st.line_width, w[a] as int) > LOGICAL_LINE_WIDTH {
            lemma_break(st, a);
        } else {
            assert(st.lines.subrange(0, st.lines.len() as int) =~= st.lines);
        }
        let st2 = Wrap { line_width: sat_add(st1.line_width, w[a] as int), ..st1 };
        lemma_wrap(w, st2, a + 1, b);
        lemma_extends_trans(st.lines, st2.lines, wrap_graphemes(w, st2, a + 1, b).lines);
    } else {
        assert(st.lines.subrange(0, st.lines.len() as int) =~= st.lines);
    }
}

proof fn lemma_place(w: Seq<usize>, st: Wrap, a: int, b: int)
    requires
        ok_state(st),
        st.line_start <= a <= b,
        b <= u32::MAX,
    ensures
        ok_state(place_segment(w, st, a, b)),
        extends(st.lines, place_segment(w, st, a, b).lines),
        place_segment(w, st, a, b).line_start <= b,
{
    if a < b {
        let width = span_width(w, a, b);
        let st1 = if st.line_start < a && sat_add(st.line_width, width) > LOGICAL_LINE_WIDTH {
            break_at(st, a)
        } else {
            st
        };
        if st.line_start < a && sat_add(st.line_width, width) > LOGICAL_LINE_WIDTH {
            lemma_break(st, a);
        } else {
            assert(st.lines.subrange(0, st.lines.len() as int) =~= st.lines);
        }
        if width > LOGICAL_LINE_WIDTH {
            lemma_wrap(w, st1, a, b);
            lemma_extends_trans(st.lines, st1.lines, wrap_graphemes(w, st1, a, b).lines);
        }
    } else {
        assert(st.lines.subrange(0, st.lines.len() as int) =~= st.lines);
    }
}

proof fn lemma_scan(g: Seq<Seq<char>>, w: Seq<usize>, st: Wrap, seg: int, index: int, end: int)
    requires
        ok_state(st),
        st.line_start <= seg <= index <= end <= u32::MAX,
        0 < end,
    ensures
        ok_state(scan_item(g, w, st, seg, index, end)),
        extends(st.lines, scan_item(g, w, st, seg, index, end).lines),
        scan_item(g, w, st, seg, index, end).lines.len() > 0,
        scan_item(g, w, st, seg, index, end).lines.last() == end,
    decreases end - index,
{
    if index >= end {
        lemma_place(w, st, seg, end);
        let st1 = place_segment(w, st, seg, end);
        if st1.line_start < end {
            lemma_break(st1, end);
            lemma_extends_trans(st.lines, st1.lines, break_at(st1, end).lines);
        }
    } else if g[index] == seq!['\n'] {
        lemma_place(w, st, seg, index);
        let st1 = place_segment(w, st, seg, index);
        lemma_break(st1, index + 1);
        let st2 = break_at(st1, index + 1);
        lemma_extends_trans(st.lines, st1.lines, st2.lines);
        lemma_scan(g, w, st2, index + 1, index + 1, end);
        lemma_extends_trans(st.lines, st2.lines, scan_item(g, w, st2, index + 1, index + 1, end).lines);
    } else if is_blank(g[index]) {
        lemma_place(w, st, seg, index + 1);
        let st1 = place_segment(w, st, seg, index + 1);
        lemma_scan(g, w, st1, index + 1, index + 1, end);
        lemma_extends_trans(st.lines, st1.lines, scan_item(g, w, st1, index + 1, index + 1, end).lines);
    } else {
        lemma_scan(g, w, st, seg, index + 1, end);
    }
}

proof fn lemma_items(g: Seq<Seq<char>>, w: Seq<usize>, ends: Seq<usize>, k: nat)
    requires
        item_ends_ok(ends, g.len()),
        g.len() <= u32::MAX,
        k <= ends.len(),
    ensures
        increasing(wrap_items(g, w, ends, k)),
        k > 0 ==> wrap_items(g, w, ends, k).len() > 0 && wrap_items(g, w, ends, k).last()
            == ends[k - 1],
        k == 0 ==> wrap_items(g, w, ends, k).len() == 0,
        forall|j: int| 0 <= j < k ==> wrap_items(g, w, ends, k).contains(ends[j] as u32),
    decreases k,
{
    if k > 0 {
        lemma_items(g, w, ends, (k - 1) as nat);
        let prev = wrap_items(g, w, ends, (k - 1) as nat);
        let start = if k == 1 {
            0
        } else {
            ends[k - 2] as int
        };
        assert(ends[k - 1] <= ends.last()) by {
            if k < ends.len() {
                assert(ends[k - 1] < ends[ends.len() - 1]);
            }
        }
        if k >= 2 {
            assert(ends[k - 2] < ends[k - 1]);
        } else {
            assert(ends[0] != 0);
        }
        let st = Wrap { lines: prev, line_start: start, line_width: 0 };
        lemma_scan(g, w, st, start, start, ends[k - 1] as int);
        let now = wrap_items(g, w, ends, k);
        assert forall|j: int| 0 <= j < k implies now.contains(ends[j] as u32) by {
            if j == k - 1 {
                assert(now[now.len() - 1] == ends[j] as u32);
            } else {
                assert(prev.contains(ends[j] as u32));
                let t = choose|t: int| 0 <= t < prev.len() && prev[t] == ends[j] as u32;
                assert(now.subrange(0, prev.len() as int) == prev);
                assert(now[t] == prev[t]);
            }
        }
    }
}

/// The logical lines of a target come in order and cover it: their ends strictly increase and
/// the last is the end of the target, and (but for a key drill, which is one line) every item
/// ends a line, so no line runs across two items.
pub proof fn lemma_lines_cover_items(kind: PracticeKind, g: Seq<Seq<char>>, ends: Seq<usize>)
    requires
        item_ends_ok(ends, g.len()),
        g.len() <= u32::MAX,
    ensures
        increasing(line_ends_spec(kind, g, ends)),
        line_ends_spec(kind, g, ends).len() > 0,
        line_ends_spec(kind, g, ends).last() == g.len(),
        kind != PracticeKind::Key ==> forall|j: int|
            0 <= j < ends.len() ==> line_ends_spec(kind, g, ends).contains(ends[j] as u32),
{
    if kind != PracticeKind::Key {
        lemma_items(g, widths(g), ends, ends.len());
    }
}

/// The logical line ends of a target, or why it is refused: it is empty, it is too large for
/// the 32-bit offsets that the layout keeps (its UTF-8 form, and so its grapheme count, must
/// fit), or its item ends do not split it into items.
pub open spec fn layout_spec(kind: PracticeKind, target: Seq<char>, ends: Seq<usize>) -> Result<
    Seq<u32>,
    Seq<char>,
> {
    let g = graphemes(target);
    if g.len() == 0 {
        Err("practice target cannot be empty"@)
    } else if utf8_len(target) > u32::MAX || g.len() > u32::MAX {
        Err("practice target exceeds 4 GiB"@)
    } else if !item_ends_ok(ends, g.len()) {
        Err("practice item boundaries must be ordered and cover the target"@)
    } else {
        Ok(line_ends_spec(kind, g, ends))
    }
}

/// Splits a target into graphemes and lays it out in logical lines, for items ending at
/// `item_ends` (counted in graphemes).
pub fn practice_lines(kind: PracticeKind, target: &str, item_ends: &Vec<usize>) -> (r: Result<
    Vec<u32>,
    String,
>)
    ensures
        match r {
            Ok(lines) => layout_spec(kind, target@, item_ends@) == Ok::<Seq<u32>, Seq<char>>(
                lines@,
            ),
            Err(m) => layout_spec(kind, target@, item_ends@) == Err::<Seq<u32>, Seq<char>>(m@),
        },
{
    let g = split_graphemes(target);
    if g.len() == 0 {
        return Err("practice target cannot be empty".to_owned());
    }
    if target.len() > 4294967295 || g.len() > 4294967295 {
        return Err("practice target exceeds 4 GiB".to_owned());
    }
    proof {
        assert(string_views(g@).len() == g@.len());
    }
    match validate_item_ends(item_ends.as_slice(), g.len()) {
        Ok(()) => {},
        Err(m) => {
            return Err(m);
        },
    }
    Ok(logical_line_ends(kind, &g, item_ends))
}

} // verus!
