//! Drawing: rail glyphs, rows, the text a replayed log produces, and the
//! renderer that writes it.
use crate::events::{
    lemma_pos_found, lemma_replayable_prefix, log_view, pos, position, replay, replayable, step,
    step_ok, widest, Event, EventView, RenderingSettings, TrackId,
};
use crate::paint::{
    compact_as_str, compact_from_string, compact_new, compact_push, compact_text, fg_close,
    fg_open, paint_fg,
};
use compact_str::CompactString;
use vstd::prelude::*;
use vstd::string::{StrSliceExecFns, StringExecFns};

verus! {
/// The shape drawn in one column of one row.
#[derive(Clone, Copy, PartialEq, Eq, Structural, Debug)]
pub enum Rail {
    Straight,
    Horizontal,
    Station,
    Ground,
    ShiftRight,
    ShiftLeft,
    TopRight,
    BottomRight,
    BottomLeft,
    SplitRight,
    SplitLeft,
}

pub open spec fn repeat(c: char, n: nat) -> Seq<char> {
    Seq::new(n, |_i: int| c)
}

/// The characters of a rail glyph, with `n` as the spacing factor.
pub open spec fn rail_chars(r: Rail, n: nat) -> Seq<char> {
    match r {
        Rail::Straight => seq!['│'] + repeat(' ', n),
        Rail::Horizontal => repeat('─', n + 1),
        Rail::Station => seq!['╪'] + repeat(' ', n),
        Rail::Ground => seq!['┷'] + repeat(' ', n),
        Rail::ShiftRight => seq!['└'] + repeat('─', n) + seq!['┐'] + repeat(' ', n),
        Rail::ShiftLeft => seq!['┌'] + repeat('─', n) + seq!['┘'],
        Rail::TopRight => repeat('─', n) + seq!['┐'] + repeat(' ', n),
        Rail::BottomRight => repeat('─', n) + seq!['┘'] + repeat(' ', n),
        Rail::BottomLeft => seq!['└'] + repeat('─', n),
        Rail::SplitRight => seq!['├'],
        Rail::SplitLeft => repeat('─', n) + seq!['┤'],
    }
}

/// The palette entry of a track: `((id + 1) XOR 93) mod 255`.
pub open spec fn color_index_of(id: TrackId) -> u8 {
    ((((id.0 as u128) + 1) as u128 ^ 93u128) % 255) as u8
}

/// A glyph as drawn for track `id`: coloured by the track's palette entry
/// when colouring is on.
pub open spec fn glyph(color: bool, n: nat, r: Rail, id: TrackId) -> Seq<char> {
    if color {
        fg_open(color_index_of(id)) + rail_chars(r, n) + fg_close()
    } else {
        rail_chars(r, n)
    }
}

/// The palette entry used to colour track `id`.
pub fn color_index(id: TrackId) -> (r: u8)
    ensures
        r == color_index_of(id),
{
    let wide: u128 = id.0 as u128 + 1;
    ((wide ^ 93u128) % 255) as u8
}

fn push_repeat(c: &mut CompactString, ch: char, n: usize)
    ensures
        compact_text(*final(c)) == compact_text(*old(c)) + repeat(ch, n as nat),
{
    let mut i: usize = 0;
    while i < n
        invariant
            i <= n,
            compact_text(*c) == compact_text(*old(c)) + repeat(ch, i as nat),
        decreases n - i,
    {
        compact_push(c, ch);
        i = i + 1;
        assert(compact_text(*c) =~= compact_text(*old(c)) + repeat(ch, i as nat));
    }
}

impl RenderingSettings {
    fn rail_to_str(&self, rail: Rail) -> (r: CompactString)
        ensures
            compact_text(r) == rail_chars(rail, self.splat as nat),
    {
        let n = self.splat;
        let mut r = compact_new("");
        proof {
            reveal_strlit("");
        }
        match rail {
            Rail::Straight => {
                compact_push(&mut r, '│');
                push_repeat(&mut r, ' ', n);
            },
            Rail::Horizontal => {
                compact_push(&mut r, '─');
                push_repeat(&mut r, '─', n);
            },
            Rail::Station => {
                compact_push(&mut r, '╪');
                push_repeat(&mut r, ' ', n);
            },
            Rail::Ground => {
                compact_push(&mut r, '┷');
                push_repeat(&mut r, ' ', n);
            },
            Rail::ShiftRight => {
                compact_push(&mut r, '└');
                push_repeat(&mut r, '─', n);
                compact_push(&mut r, '┐');
                push_repeat(&mut r, ' ', n);
            },
            Rail::ShiftLeft => {
                compact_push(&mut r, '┌');
                push_repeat(&mut r, '─', n);
                compact_push(&mut r, '┘');
            },
            Rail::TopRight => {
                push_repeat(&mut r, '─', n);
                compact_push(&mut r, '┐');
                push_repeat(&mut r, ' ', n);
            },
            Rail::BottomRight => {
                push_repeat(&mut r, '─', n);
                compact_push(&mut r, '┘');
                push_repeat(&mut r, ' ', n);
            },
            Rail::BottomLeft => {
                compact_push(&mut r, '└');
                push_repeat(&mut r, '─', n);
            },
            Rail::SplitRight => {
                compact_push(&mut r, '├');
            },
            Rail::SplitLeft => {
                push_repeat(&mut r, '─', n);
                compact_push(&mut r, '┤');
            },
        }
        assert(compact_text(r) =~= rail_chars(rail, n as nat));
        r
    }

    fn colorize(&self, s: CompactString, i: &TrackId) -> (r: CompactString)
        ensures
            self.color ==> compact_text(r) == fg_open(color_index_of(*i)) + compact_text(s)
                + fg_close(),
            !self.color ==> compact_text(r) == compact_text(s),
    {
        if self.color {
            let n = color_index(*i);
            compact_from_string(paint_fg(compact_as_str(&s), n))
        } else {
            s
        }
    }
}

impl Rail {
    fn render(&self, s: &RenderingSettings, i: &TrackId) -> (r: CompactString)
        ensures
            compact_text(r) == glyph(s.color, s.splat as nat, *self, *i),
    {
        s.colorize(s.rail_to_str(*self), i)
    }
}

/// The text of a sequence of cells, left to right.
pub open spec fn cells_text(st: RenderingSettings, cells: Seq<(Rail, TrackId)>) -> Seq<char>
    decreases cells.len(),
{
    if cells.len() == 0 {
        seq![]
    } else {
        cells_text(st, cells.drop_last()) + glyph(
            st.color,
            st.splat as nat,
            cells.last().0,
            cells.last().1,
        )
    }
}

/// A row: its cells, then a line break.
pub open spec fn row_text(st: RenderingSettings, cells: Seq<(Rail, TrackId)>) -> Seq<char> {
    cells_text(st, cells).push('\n')
}

/// Pieces of text joined in order.
pub open spec fn concat(parts: Seq<Seq<char>>) -> Seq<char>
    decreases parts.len(),
{
    if parts.len() == 0 {
        seq![]
    } else {
        concat(parts.drop_last()) + parts.last()
    }
}

/// Every column a straight rail.
pub open spec fn plain_row(a: Seq<TrackId>) -> Seq<(Rail, TrackId)> {
    Seq::new(a.len(), |i: int| (Rail::Straight, a[i]))
}

/// The column of `id` drawn as `r`, the others straight.
pub open spec fn marked_row(a: Seq<TrackId>, id: TrackId, r: Rail) -> Seq<(Rail, TrackId)> {
    Seq::new(a.len(), |i: int| (if a[i] == id { r } else { Rail::Straight }, a[i]))
}

/// A row of the staircase that opens a gap: column `a.len() - k` shifts
/// right, the others are straight.
pub open spec fn shift_right_row(a: Seq<TrackId>, k: int) -> Seq<(Rail, TrackId)> {
    Seq::new(
        a.len(),
        |i: int| (if a.len() - i == k { Rail::ShiftRight } else { Rail::Straight }, a[i]),
    )
}

/// The row where `child` branches off `parent`.
pub open spec fn branch_row(a: Seq<TrackId>, parent: TrackId, child: TrackId) -> Seq<
    (Rail, TrackId),
> {
    Seq::new(
        a.len(),
        |i: int|
            (
                if a[i] == child {
                    Rail::TopRight
                } else if a[i] == parent {
                    Rail::SplitRight
                } else {
                    Rail::Straight
                },
                a[i],
            ),
    )
}

/// The row where the track in column `c` merges into column `t`; the
/// connector and the corner take the merging track's colour.
pub open spec fn merge_row(a: Seq<TrackId>, c: int, t: int) -> Seq<(Rail, TrackId)> {
    let lo = if c < t { c } else { t };
    let hi = if c < t { t } else { c };
    Seq::new(
        a.len(),
        |i: int|
            if i == t {
                (if c > t { Rail::SplitRight } else { Rail::SplitLeft }, a[i])
            } else if i == c {
                (if c > t { Rail::BottomRight } else { Rail::BottomLeft }, a[c])
            } else if lo < i < hi {
                (Rail::Horizontal, a[c])
            } else {
                (Rail::Straight, a[i])
            },
    )
}

/// A row of the staircase that closes a gap: column `k` shifts left
/// (none when `k == 0`).
pub open spec fn shift_left_row(a: Seq<TrackId>, k: int) -> Seq<(Rail, TrackId)> {
    Seq::new(
        a.len(),
        |j: int| (if j == k && j != 0 { Rail::ShiftLeft } else { Rail::Straight }, a[j]),
    )
}

proof fn lemma_concat_step(parts: Seq<Seq<char>>, k: int)
    requires
        0 <= k < parts.len(),
    ensures
        concat(parts.take(k + 1)) == concat(parts.take(k)) + parts[k],
{
    assert(parts.take(k + 1).drop_last() =~= parts.take(k));
}

fn write_cells(out: &mut String, st: &RenderingSettings, cells: &Vec<(Rail, TrackId)>)
    ensures
        final(out)@ == old(out)@ + cells_text(*st, cells@),
{
    let mut i: usize = 0;
    while i < cells.len()
        invariant
            i <= cells@.len(),
            out@ == old(out)@ + cells_text(*st, cells@.take(i as int)),
        decreases cells@.len() - i,
    {
        let (rail, id) = cells[i];
        let g = rail.render(st, &id);
        out.append(compact_as_str(&g));
        proof {
            assert(cells@.take(i + 1).drop_last() =~= cells@.take(i as int));
        }
        i = i + 1;
    }
    assert(cells@.take(i as int) =~= cells@);
}

fn write_row(out: &mut String, st: &RenderingSettings, cells: &Vec<(Rail, TrackId)>)
    ensures
        final(out)@ == old(out)@ + row_text(*st, cells@),
{
    write_cells(out, st, cells);
    out.append("\n");
    proof {
        reveal_strlit("\n");
        assert(final(out)@ =~= old(out)@ + row_text(*st, cells@));
    }
}

fn plain_cells(a: &Vec<TrackId>) -> (r: Vec<(Rail, TrackId)>)
    ensures
        r@ == plain_row(a@),
{
    let mut r: Vec<(Rail, TrackId)> = Vec::new();
    let mut i: usize = 0;
    while i < a.len()
        invariant
            i <= a@.len(),
            r@ =~= plain_row(a@).take(i as int),
        decreases a@.len() - i,
    {
        r.push((Rail::Straight, a[i]));
        i = i + 1;
    }
    r
}

fn marked_cells(a: &Vec<TrackId>, id: TrackId, mark: Rail) -> (r: Vec<(Rail, TrackId)>)
    ensures
        r@ == marked_row(a@, id, mark),
{
    let mut r: Vec<(Rail, TrackId)> = Vec::new();
    let mut i: usize = 0;
    while i < a.len()
        invariant
            i <= a@.len(),
            r@ =~= marked_row(a@, id, mark).take(i as int),
        decreases a@.len() - i,
    {
        let rail = if a[i] == id { mark } else { Rail::Straight };
        r.push((rail, a[i]));
        i = i + 1;
    }
    r
}

fn shift_right_cells(a: &Vec<TrackId>, k: usize) -> (r: Vec<(Rail, TrackId)>)
    ensures
        r@ == shift_right_row(a@, k as int),
{
    let mut r: Vec<(Rail, TrackId)> = Vec::new();
    let mut i: usize = 0;
    while i < a.len()
        invariant
            i <= a@.len(),
            r@ =~= shift_right_row(a@, k as int).take(i as int),
        decreases a@.len() - i,
    {
        let rail = if a.len() - i == k { Rail::ShiftRight } else { Rail::Straight };
        r.push((rail, a[i]));
        i = i + 1;
    }
    r
}

fn branch_cells(a: &Vec<TrackId>, parent: TrackId, child: TrackId) -> (r: Vec<(Rail, TrackId)>)
    ensures
        r@ == branch_row(a@, parent, child),
{
    let mut r: Vec<(Rail, TrackId)> = Vec::new();
    let mut i: usize = 0;
    while i < a.len()
        invariant
            i <= a@.len(),
            r@ =~= branch_row(a@, parent, child).take(i as int),
        decreases a@.len() - i,
    {
        let rail = if a[i] == child {
            Rail::TopRight
        } else if a[i] == parent {
            Rail::SplitRight
        } else {
            Rail::Straight
        };
        r.push((rail, a[i]));
        i = i + 1;
    }
    r
}

fn merge_cells(a: &Vec<TrackId>, c: usize, t: usize) -> (r: Vec<(Rail, TrackId)>)
    requires
        c < a@.len(),
        t < a@.len(),
    ensures
        r@ == merge_row(a@, c as int, t as int),
{
    let lo = if c < t { c } else { t };
    let hi = if c < t { t } else { c };
    let child = a[c];
    let mut r: Vec<(Rail, TrackId)> = Vec::new();
    let mut i: usize = 0;
    while i < a.len()
        invariant
            i <= a@.len(),
            c < a@.len(),
            t < a@.len(),
            child == a@[c as int],
            lo == if c < t { c } else { t },
            hi == if c < t { t } else { c },
            r@ =~= merge_row(a@, c as int, t as int).take(i as int),
        decreases a@.len() - i,
    {
        let cell = if i == t {
            (if c > t { Rail::SplitRight } else { Rail::SplitLeft }, a[i])
        } else if i == c {
            (if c > t { Rail::BottomRight } else { Rail::BottomLeft }, child)
        } else if lo < i && i < hi {
            (Rail::Horizontal, child)
        } else {
            (Rail::Straight, a[i])
        };
        r.push(cell);
        i = i + 1;
    }
    r
}

fn shift_left_cells(a: &Vec<TrackId>, k: usize) -> (r: Vec<(Rail, TrackId)>)
    ensures
        r@ == shift_left_row(a@, k as int),
{
    let mut r: Vec<(Rail, TrackId)> = Vec::new();
    let mut i: usize = 0;
    while i < a.len()
        invariant
            i <= a@.len(),
            r@ =~= shift_left_row(a@, k as int).take(i as int),
        decreases a@.len() - i,
    {
        let rail = if i == k && i != 0 { Rail::ShiftLeft } else { Rail::Straight };
        r.push((rail, a[i]));
        i = i + 1;
    }
    r
}

/// The number of characters from `i` up to the next line break or the
/// end of the text.
pub open spec fn line_len(s: Seq<char>, i: int) -> nat
    decreases s.len() - i,
{
    if i < 0 || i >= s.len() || s[i] == '\n' {
        0
    } else {
        1 + line_len(s, i + 1)
    }
}

/// The end of the line that starts at `i`: the index of the next line
/// break, or the text's length.
pub open spec fn line_end(s: Seq<char>, i: int) -> int {
    i + line_len(s, i)
}

/// The line from `i` to its break at `j`, without the carriage return of
/// a `\r\n` break.
pub open spec fn line_at(s: Seq<char>, i: int, j: int) -> Seq<char> {
    if i < j < s.len() && s[j - 1] == '\r' {
        s.subrange(i, j - 1)
    } else {
        s.subrange(i, j)
    }
}

/// The spaces before a station's line: three, plus the width of the rails
/// missing from the widest row, so that every line of text starts in the
/// same column.
pub open spec fn pad_len(widest: nat, rails: nat, splat: nat) -> nat {
    ((widest - rails) * (splat + 1) + 3) as nat
}

/// The row for line number `k` of a station on `id`.
pub open spec fn station_line(
    st: RenderingSettings,
    widest: nat,
    a: Seq<TrackId>,
    id: TrackId,
    k: nat,
    line: Seq<char>,
) -> Seq<char> {
    let cells = if k == 0 {
        marked_row(a, id, Rail::Station)
    } else {
        plain_row(a)
    };
    cells_text(st, cells) + repeat(' ', pad_len(widest, a.len(), st.splat as nat)) + line + seq![
        '\n',
    ]
}

/// The rows for the lines of `s` from index `i` on, the first of them
/// being line number `k`.
pub open spec fn station_rows(
    st: RenderingSettings,
    widest: nat,
    a: Seq<TrackId>,
    id: TrackId,
    s: Seq<char>,
    i: int,
    k: nat,
) -> Seq<char>
    decreases s.len() - i,
{
    if i < 0 || i >= s.len() {
        seq![]
    } else {
        let j = line_end(s, i);
        let rest = if j < s.len() {
            station_rows(st, widest, a, id, s, j + 1, k + 1)
        } else {
            seq![]
        };
        station_line(st, widest, a, id, k, line_at(s, i, j)) + rest
    }
}

/// The staircase that opens a gap right of column `p`: one row per column
/// from the rightmost down to `p + 1`, each shifting that column right.
pub open spec fn opening_rows(st: RenderingSettings, a: Seq<TrackId>, p: int) -> Seq<char> {
    if a.len() > 1 {
        concat(
            Seq::new((a.len() - p - 1) as nat, |k: int| row_text(st, shift_right_row(a, k + 1))),
        )
    } else {
        seq![]
    }
}

/// The staircase that closes a gap, one row per column from `start` on.
pub open spec fn closing_rows(st: RenderingSettings, b: Seq<TrackId>, start: int) -> Seq<char> {
    let n = if start < b.len() { (b.len() - start) as nat } else { 0 };
    concat(Seq::new(n, |k: int| row_text(st, shift_left_row(b, start + k))))
}

/// The rows drawn for event `e` on active tracks `a`, where `widest` is the
/// most rails the whole log ever has.
pub open spec fn event_text(st: RenderingSettings, widest: nat, a: Seq<TrackId>, e: EventView) -> Seq<
    char,
> {
    match e {
        EventView::StopTrack(id) => row_text(st, marked_row(a, id, Rail::Ground)),
        EventView::Station(id, text) => station_rows(st, widest, a, id, text, 0, 0) + row_text(
            st,
            plain_row(a),
        ),
        EventView::SplitTrack(p, c) => opening_rows(st, a, pos(a, p)) + row_text(
            st,
            branch_row(step(a, e), p, c),
        ),
        EventView::JoinTrack(c, t) => {
            let ci = pos(a, c);
            let ti = pos(a, t);
            row_text(st, merge_row(a, ci, ti)) + closing_rows(
                st,
                step(a, e),
                if ci > ti { ci } else { ci + 1 },
            )
        },
        EventView::NoEvent => row_text(st, plain_row(a)),
        _ => seq![],
    }
}

/// The text of the events of `evs` in order, with `widest` fixed.
pub open spec fn log_text(st: RenderingSettings, widest: nat, evs: Seq<EventView>) -> Seq<char>
    decreases evs.len(),
{
    if evs.len() == 0 {
        seq![]
    } else {
        log_text(st, widest, evs.drop_last()) + event_text(
            st,
            widest,
            replay(evs.drop_last()),
            evs.last(),
        )
    }
}

/// What rendering the log `evs` produces.
pub open spec fn render_text(st: RenderingSettings, evs: Seq<EventView>) -> Seq<char> {
    log_text(st, widest(evs), evs)
}

fn push_spaces(out: &mut String, n: usize)
    ensures
        final(out)@ == old(out)@ + repeat(' ', n as nat),
{
    let mut i: usize = 0;
    while i < n
        invariant
            i <= n,
            out@ == old(out)@ + repeat(' ', i as nat),
        decreases n - i,
    {
        out.append(" ");
        proof {
            reveal_strlit(" ");
        }
        i = i + 1;
        assert(out@ =~= old(out)@ + repeat(' ', i as nat));
    }
}

/// Appends the blank width of `missing` rails of `splat + 1` characters.
fn push_rail_gap(out: &mut String, missing: usize, splat: usize)
    ensures
        final(out)@ == old(out)@ + repeat(' ', missing as nat * (splat as nat + 1)),
{
    let mut r: usize = 0;
    while r < missing
        invariant
            r <= missing,
            out@ == old(out)@ + repeat(' ', r as nat * (splat as nat + 1)),
        decreases missing - r,
    {
        push_spaces(out, splat);
        push_spaces(out, 1);
        proof {
            assert((r as nat + 1) * (splat as nat + 1) == r as nat * (splat as nat + 1) + splat
                + 1) by (nonlinear_arith);
        }
        r = r + 1;
        assert(out@ =~= old(out)@ + repeat(' ', r as nat * (splat as nat + 1)));
    }
}

fn write_station_line(
    out: &mut String,
    st: &RenderingSettings,
    widest: usize,
    a: &Vec<TrackId>,
    id: TrackId,
    k: usize,
    line: &str,
)
    requires
        widest >= a@.len(),
    ensures
        final(out)@ == old(out)@ + station_line(*st, widest as nat, a@, id, k as nat, line@),
{
    let cells = if k == 0 {
        marked_cells(a, id, Rail::Station)
    } else {
        plain_cells(a)
    };
    write_cells(out, st, &cells);
    push_rail_gap(out, widest - a.len(), st.splat);
    push_spaces(out, 3);
    out.append(line);
    out.append("\n");
    proof {
        reveal_strlit("\n");
        let l = line@;
        let w = (widest - a@.len()) as nat;
        assert(repeat(' ', pad_len(widest as nat, a@.len(), st.splat as nat)) =~= repeat(
            ' ',
            w * (st.splat + 1) as nat,
        ) + repeat(' ', 3));
        assert(final(out)@ =~= old(out)@ + station_line(*st, widest as nat, a@, id, k as nat, l));
    }
}

/// Finds the line that starts at `i`: the index of its break and its text.
fn next_line(s: &str, i: usize) -> (r: (usize, &str))
    requires
        i < s@.len(),
    ensures
        r.0 == line_end(s@, i as int),
        i <= r.0 <= s@.len(),
        r.1@ == line_at(s@, i as int, r.0 as int),
{
    let len = s.unicode_len();
    let mut j: usize = i;
    while j < len && s.get_char(j) != '\n'
        invariant
            i <= j <= len,
            len == s@.len(),
            line_end(s@, i as int) == line_end(s@, j as int),
        decreases len - j,
    {
        j = j + 1;
    }
    let mut e: usize = j;
    if j < len && j > i && s.get_char(j - 1) == '\r' {
        e = j - 1;
    }
    (j, s.substring_char(i, e))
}

fn write_station(
    out: &mut String,
    st: &RenderingSettings,
    widest: usize,
    a: &Vec<TrackId>,
    id: TrackId,
    text: &String,
)
    requires
        widest >= a@.len(),
    ensures
        final(out)@ == old(out)@ + event_text(*st, widest as nat, a@, EventView::Station(id, text@)),
{
    let ghost w = widest as nat;
    let s = text.as_str();
    let len = s.unicode_len();
    let mut i: usize = 0;
    let mut k: usize = 0;
    while i < len
        invariant
            s@ == text@,
            len == s@.len(),
            i <= len,
            k <= i,
            w == widest as nat,
            widest >= a@.len(),
            old(out)@ + station_rows(*st, w, a@, id, s@, 0, 0) == out@ + station_rows(
                *st,
                w,
                a@,
                id,
                s@,
                i as int,
                k as nat,
            ),
        decreases len - i,
    {
        let i0 = i;
        let k0 = k;
        let (j, line) = next_line(s, i);
        let ghost before = out@;
        write_station_line(out, st, widest, a, id, k, line);
        if j < len {
            i = j + 1;
        } else {
            i = len;
        }
        k = k + 1;
        proof {
            let l = line_at(s@, i0 as int, j as int);
            assert(station_rows(*st, w, a@, id, s@, i as int, k as nat) == Seq::<char>::empty()
                || j < len);
            assert(station_rows(*st, w, a@, id, s@, i0 as int, k0 as nat) == station_line(
                *st,
                w,
                a@,
                id,
                k0 as nat,
                l,
            ) + station_rows(*st, w, a@, id, s@, i as int, k as nat));
            let line_text = station_line(*st, w, a@, id, k0 as nat, l);
            let rest = station_rows(*st, w, a@, id, s@, i as int, k as nat);
            assert(out@ == before + line_text);
            assert((before + line_text) + rest =~= before + (line_text + rest));
        }
    }
    let cells = plain_cells(a);
    write_row(out, st, &cells);
    assert(station_rows(*st, w, a@, id, s@, i as int, k as nat) == Seq::<char>::empty());
    assert(final(out)@ =~= old(out)@ + event_text(*st, w, a@, EventView::Station(id, text@)));
}

fn write_stop(out: &mut String, st: &RenderingSettings, tracks: &mut Vec<TrackId>, id: TrackId)
    requires
        old(tracks)@.contains(id),
    ensures
        final(tracks)@ == step(old(tracks)@, EventView::StopTrack(id)),
        final(out)@ == old(out)@ + event_text(*st, 0, old(tracks)@, EventView::StopTrack(id)),
{
    let p = position(tracks, id);
    let cells = marked_cells(tracks, id, Rail::Ground);
    write_row(out, st, &cells);
    tracks.remove(p);
}

fn write_split(
    out: &mut String,
    st: &RenderingSettings,
    tracks: &mut Vec<TrackId>,
    parent: TrackId,
    child: TrackId,
)
    requires
        old(tracks)@.contains(parent),
        old(tracks)@.len() < usize::MAX,
    ensures
        final(tracks)@ == step(old(tracks)@, EventView::SplitTrack(parent, child)),
        final(out)@ == old(out)@ + event_text(
            *st,
            0,
            old(tracks)@,
            EventView::SplitTrack(parent, child),
        ),
{
    let ghost a = tracks@;
    let p = position(tracks, parent);
    if tracks.len() > 1 {
        let n = tracks.len() - p - 1;
        let ghost rows = Seq::new(n as nat, |k: int| row_text(*st, shift_right_row(a, k + 1)));
        let mut k: usize = 0;
        while k < n
            invariant
                tracks@ == a,
                n < a.len(),
                k <= n,
                rows == Seq::new(n as nat, |k: int| row_text(*st, shift_right_row(a, k + 1))),
                out@ == old(out)@ + concat(rows.take(k as int)),
            decreases n - k,
        {
            let cells = shift_right_cells(tracks, k + 1);
            write_row(out, st, &cells);
            proof {
                lemma_concat_step(rows, k as int);
            }
            k = k + 1;
        }
        assert(rows.take(n as int) =~= rows);
    }
    tracks.insert(p + 1, child);
    let cells = branch_cells(tracks, parent, child);
    write_row(out, st, &cells);
    assert(final(out)@ =~= old(out)@ + event_text(
        *st,
        0,
        a,
        EventView::SplitTrack(parent, child),
    ));
}

fn write_join(
    out: &mut String,
    st: &RenderingSettings,
    tracks: &mut Vec<TrackId>,
    child: TrackId,
    target: TrackId,
)
    requires
        old(tracks)@.contains(child),
        old(tracks)@.contains(target),
    ensures
        final(tracks)@ == step(old(tracks)@, EventView::JoinTrack(child, target)),
        final(out)@ == old(out)@ + event_text(
            *st,
            0,
            old(tracks)@,
            EventView::JoinTrack(child, target),
        ),
{
    let ghost a = tracks@;
    let c = position(tracks, child);
    let t = position(tracks, target);
    let len = tracks.len();
    assert(c < len);
    let cells = merge_cells(tracks, c, t);
    write_row(out, st, &cells);
    let ghost mid = out@;
    tracks.remove(c);
    let start = if c > t { c } else { c + 1 };
    let ghost b = tracks@;
    let ghost rows = Seq::new(
        if start < b.len() { (b.len() - start) as nat } else { 0 },
        |k: int| row_text(*st, shift_left_row(b, start + k)),
    );
    let mut i: usize = start;
    while i < tracks.len()
        invariant
            tracks@ == b,
            start <= i,
            i <= b.len() || i == start,
            rows == Seq::new(
                if start < b.len() { (b.len() - start) as nat } else { 0 },
                |k: int| row_text(*st, shift_left_row(b, start + k)),
            ),
            out@ == mid + concat(rows.take(i - start)),
        decreases b.len() - i,
    {
        let cells = shift_left_cells(tracks, i);
        write_row(out, st, &cells);
        proof {
            lemma_concat_step(rows, i - start);
        }
        i = i + 1;
    }
    assert(rows.take(i - start) =~= rows);
    assert(final(out)@ =~= old(out)@ + event_text(
        *st,
        0,
        a,
        EventView::JoinTrack(child, target),
    ));
}

/// Event `k` of a replayable log can be replayed after the first `k`.
proof fn lemma_step_at(evs: Seq<EventView>, k: int)
    requires
        replayable(evs),
        0 <= k < evs.len(),
    ensures
        step_ok(replay(evs.take(k)), evs[k]),
        replay(evs.take(k + 1)) == step(replay(evs.take(k)), evs[k]),
        widest(evs.take(k + 1)) == (if widest(evs.take(k)) >= replay(evs.take(k + 1)).len() {
            widest(evs.take(k))
        } else {
            replay(evs.take(k + 1)).len()
        }),
{
    lemma_replayable_prefix(evs, k + 1);
    let t = evs.take(k + 1);
    assert(t.drop_last() =~= evs.take(k));
}

/// The replay never has more rails than the widest count.
proof fn lemma_widest_bounds(evs: Seq<EventView>, k: int)
    requires
        0 <= k <= evs.len(),
    ensures
        replay(evs.take(k)).len() <= widest(evs),
        widest(evs.take(k)) <= widest(evs),
    decreases evs.len(),
{
    if evs.len() == 0 {
        assert(evs.take(k) =~= evs);
    } else if k == evs.len() {
        assert(evs.take(k) =~= evs);
    } else {
        assert(evs.drop_last().take(k) =~= evs.take(k));
        lemma_widest_bounds(evs.drop_last(), k);
    }
}

proof fn lemma_step_len(a: Seq<TrackId>, e: EventView)
    requires
        step_ok(a, e),
    ensures
        step(a, e).len() == match e {
            EventView::StartTrack(_) => a.len() + 1int,
            EventView::StartTracks(ids) => (a.len() + ids.len()) as int,
            EventView::StopTrack(_) => a.len() - 1int,
            EventView::SplitTrack(_, _) => a.len() + 1int,
            EventView::JoinTrack(_, _) => a.len() - 1int,
            _ => a.len() as int,
        },
{
    match e {
        EventView::StopTrack(id) => lemma_pos_found(a, id),
        EventView::SplitTrack(p, _) => lemma_pos_found(a, p),
        EventView::JoinTrack(c, _) => lemma_pos_found(a, c),
        _ => {},
    }
}

/// The most rails that replaying `events` ever has.
fn widest_track(events: &Vec<Event>) -> (r: usize)
    requires
        replayable(log_view(events@)),
    ensures
        r == widest(log_view(events@)),
{
    let ghost evs = log_view(events@);
    let mut current: usize = 1;
    let mut max: usize = 1;
    let mut k: usize = 0;
    assert(evs.take(0) =~= Seq::<EventView>::empty());
    while k < events.len()
        invariant
            evs == log_view(events@),
            replayable(evs),
            k <= events@.len(),
            current == replay(evs.take(k as int)).len(),
            max == widest(evs.take(k as int)),
        decreases events@.len() - k,
    {
        proof {
            lemma_step_at(evs, k as int);
            lemma_step_len(replay(evs.take(k as int)), evs[k as int]);
        }
        current = match &events[k] {
            Event::StartTrack(_) => current + 1,
            Event::StartTracks(ids) => current + ids.len(),
            Event::StopTrack(_) => current - 1,
            Event::SplitTrack(_, _) => current + 1,
            Event::JoinTrack(_, _) => current - 1,
            _ => current,
        };
        if current > max {
            max = current;
        }
        k = k + 1;
    }
    assert(evs.take(k as int) =~= evs);
    max
}

fn start_tracks(tracks: &mut Vec<TrackId>, ids: &Vec<TrackId>)
    ensures
        final(tracks)@ == old(tracks)@ + ids@,
{
    let mut i: usize = 0;
    while i < ids.len()
        invariant
            i <= ids@.len(),
            tracks@ == old(tracks)@ + ids@.take(i as int),
        decreases ids@.len() - i,
    {
        tracks.push(ids[i]);
        i = i + 1;
        assert(tracks@ =~= old(tracks)@ + ids@.take(i as int));
    }
    assert(ids@.take(i as int) =~= ids@);
}

/// Replays `events` from the seed track `0` and draws them.
pub fn render(events: &Vec<Event>, st: &RenderingSettings) -> (r: String)
    requires
        replayable(log_view(events@)),
    ensures
        r@ == render_text(*st, log_view(events@)),
{
    let ghost evs = log_view(events@);
    let w = widest_track(events);
    let mut tracks: Vec<TrackId> = Vec::new();
    tracks.push(TrackId(0));
    let mut out = String::new();
    let mut k: usize = 0;
    assert(evs.take(0) =~= Seq::<EventView>::empty());
    assert(tracks@ =~= seq![TrackId(0)]);
    while k < events.len()
        invariant
            evs == log_view(events@),
            replayable(evs),
            w == widest(evs),
            k <= events@.len(),
            tracks@ == replay(evs.take(k as int)),
            out@ == log_text(*st, w as nat, evs.take(k as int)),
        decreases events@.len() - k,
    {
        let ghost a = tracks@;
        proof {
            lemma_step_at(evs, k as int);
            lemma_widest_bounds(evs, k as int);
            lemma_step_len(a, evs[k as int]);
            assert(evs.take(k + 1).drop_last() =~= evs.take(k as int));
        }
        match &events[k] {
            Event::StartTrack(id) => {
                tracks.push(*id);
            },
            Event::StartTracks(ids) => {
                start_tracks(&mut tracks, ids);
            },
            Event::StopTrack(id) => {
                write_stop(&mut out, st, &mut tracks, *id);
            },
            Event::Station(id, text) => {
                write_station(&mut out, st, w, &tracks, *id, text);
            },
            Event::SplitTrack(parent, child) => {
                write_split(&mut out, st, &mut tracks, *parent, *child);
            },
            Event::JoinTrack(child, target) => {
                write_join(&mut out, st, &mut tracks, *child, *target);
            },
            Event::NoEvent => {
                let cells = plain_cells(&tracks);
                write_row(&mut out, st, &cells);
            },
        }
        k = k + 1;
    }
    assert(evs.take(k as int) =~= evs);
    out
}

/// The settings used when none are given.
pub open spec fn default_settings() -> RenderingSettings {
    RenderingSettings { splat: 5, color: true, rounded: false }
}

proof fn lemma_narrow_cells_len(st: RenderingSettings, cells: Seq<(Rail, TrackId)>)
    requires
        !st.color,
        forall|i: int|
            0 <= i < cells.len() ==> (#[trigger] cells[i]).0 == Rail::Straight || cells[i].0
                == Rail::Station,
    ensures
        cells_text(st, cells).len() == cells.len() * (st.splat + 1),
    decreases cells.len(),
{
    if cells.len() > 0 {
        let init = cells.drop_last();
        assert forall|i: int| 0 <= i < init.len() implies (#[trigger] init[i]).0 == Rail::Straight
            || init[i].0 == Rail::Station by {
            assert(init[i] == cells[i]);
        }
        lemma_narrow_cells_len(st, init);
        assert(cells.last() == cells[cells.len() - 1]);
        let n = st.splat as int;
        assert(init.len() * (n + 1) + n + 1 == cells.len() * (n + 1)) by (nonlinear_arith)
            requires
                init.len() + 1 == cells.len(),
        ;
    }
}

/// Station text lines up: drawn without colour, every line of a station's
/// text starts at column `widest * (splat + 1) + 3`, however many rails
/// its row has, and the row holds that line and a line break after it.
pub proof fn lemma_station_text_column(
    st: RenderingSettings,
    widest: nat,
    a: Seq<TrackId>,
    id: TrackId,
    k: nat,
    line: Seq<char>,
)
    requires
        !st.color,
        a.len() <= widest,
    ensures
        ({
            let col = widest * (st.splat + 1) + 3;
            let row = station_line(st, widest, a, id, k, line);
            &&& row.len() == col + line.len() + 1
            &&& row.skip(col) == line.push('\n')
        }),
{
    let cells = if k == 0 {
        marked_row(a, id, Rail::Station)
    } else {
        plain_row(a)
    };
    lemma_narrow_cells_len(st, cells);
    let n = st.splat as int;
    let w = widest as int;
    let m = a.len() as int;
    assert(m * (n + 1) + (w - m) * (n + 1) == w * (n + 1)) by (nonlinear_arith);
    assert(0 <= (w - m) * (n + 1)) by (nonlinear_arith)
        requires
            w >= m,
            n >= 0,
    ;
    let col = widest * (st.splat + 1) + 3;
    let row = station_line(st, widest, a, id, k, line);
    let head = cells_text(st, cells) + repeat(' ', pad_len(widest, a.len(), st.splat as nat));
    assert(head.len() == col);
    assert(row =~= head + line.push('\n'));
    assert(row.skip(col) =~= line.push('\n'));
}

} // verus!
