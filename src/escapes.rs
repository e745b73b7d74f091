//! Removing terminal escape sequences, and the fact that coloured drawing
//! differs from plain drawing only by them.
use crate::events::{pos, replay, step, EventView, RenderingSettings, TrackId};
use crate::render::{
    branch_row, cells_text, closing_rows, concat, event_text, glyph, line_at, line_end, log_text,
    marked_row, merge_row, opening_rows, plain_row, rail_chars, render_text, repeat, row_text,
    shift_left_row, shift_right_row, station_line, station_rows, Rail,
};
use crate::paint::{decimal, fg_close, fg_open};
use vstd::prelude::*;

verus! {

/// The number of characters from `i` up to the next `m`, or to the end.
pub open spec fn until_m(s: Seq<char>, i: int) -> nat
    decreases s.len() - i,
{
    if i < 0 || i >= s.len() || s[i] == 'm' {
        0
    } else {
        1 + until_m(s, i + 1)
    }
}

/// The text with every escape sequence removed: an escape character up to
/// and including the next `m` (or to the end, when none follows).
pub open spec fn strip_escapes(s: Seq<char>) -> Seq<char>
    decreases s.len(),
{
    if s.len() == 0 {
        seq![]
    } else if s[0] == '\x1b' {
        let k = until_m(s, 1) + 2;
        if k <= s.len() {
            strip_escapes(s.skip(k as int))
        } else {
            seq![]
        }
    } else {
        seq![s[0]] + strip_escapes(s.drop_first())
    }
}

/// Every escape sequence in `s` ends within `s`.
pub open spec fn complete(s: Seq<char>) -> bool
    decreases s.len(),
{
    if s.len() == 0 {
        true
    } else if s[0] == '\x1b' {
        let k = until_m(s, 1) + 2;
        k <= s.len() && complete(s.skip(k as int))
    } else {
        complete(s.drop_first())
    }
}

/// `s` holds no escape character.
pub open spec fn no_escape(s: Seq<char>) -> bool {
    forall|i: int| 0 <= i < s.len() ==> s[i] != '\x1b'
}

/// Every station text of `evs` holds no escape character.
pub open spec fn escape_free(evs: Seq<EventView>) -> bool {
    forall|i: int|
        0 <= i < evs.len() ==> match #[trigger] evs[i] {
            EventView::Station(_, t) => no_escape(t),
            _ => true,
        }
}

/// The same settings with colouring off.
pub open spec fn uncolored(st: RenderingSettings) -> RenderingSettings {
    RenderingSettings { color: false, ..st }
}

/// `x` is complete and strips to `y`.
pub open spec fn strips_to(x: Seq<char>, y: Seq<char>) -> bool {
    complete(x) && strip_escapes(x) == y
}

proof fn lemma_until_m_concat(x: Seq<char>, y: Seq<char>, i: int)
    requires
        0 <= i,
        i + until_m(x, i) < x.len(),
    ensures
        until_m(x + y, i) == until_m(x, i),
    decreases x.len() - i,
{
    if x[i] != 'm' {
        lemma_until_m_concat(x, y, i + 1);
    }
}

proof fn lemma_until_m_at(s: Seq<char>, i: int, j: int)
    requires
        0 <= i <= j < s.len(),
        forall|q: int| i <= q < j ==> s[q] != 'm',
        s[j] == 'm',
    ensures
        until_m(s, i) == j - i,
    decreases j - i,
{
    if i < j {
        lemma_until_m_at(s, i + 1, j);
    }
}

proof fn lemma_strip_concat(x: Seq<char>, y: Seq<char>)
    requires
        complete(x),
    ensures
        strip_escapes(x + y) == strip_escapes(x) + strip_escapes(y),
        complete(y) ==> complete(x + y),
    decreases x.len(),
{
    if x.len() == 0 {
        assert(x + y =~= y);
    } else if x[0] == '\x1b' {
        let k = until_m(x, 1) + 2;
        lemma_until_m_concat(x, y, 1);
        assert((x + y).skip(k as int) =~= x.skip(k as int) + y);
        lemma_strip_concat(x.skip(k as int), y);
    } else {
        assert((x + y).drop_first() =~= x.drop_first() + y);
        lemma_strip_concat(x.drop_first(), y);
        assert(seq![x[0]] + strip_escapes(x.drop_first()) + strip_escapes(y) =~= seq![x[0]] + (
        strip_escapes(x.drop_first()) + strip_escapes(y)));
    }
}

proof fn lemma_strips_to_concat(x1: Seq<char>, y1: Seq<char>, x2: Seq<char>, y2: Seq<char>)
    requires
        strips_to(x1, y1),
        strips_to(x2, y2),
    ensures
        strips_to(x1 + x2, y1 + y2),
{
    lemma_strip_concat(x1, x2);
}

proof fn lemma_no_escape(p: Seq<char>)
    requires
        no_escape(p),
    ensures
        strips_to(p, p),
    decreases p.len(),
{
    if p.len() > 0 {
        assert(p[0] != '\x1b');
        lemma_no_escape(p.drop_first());
        assert(seq![p[0]] + p.drop_first() =~= p);
    } else {
        assert(p =~= Seq::<char>::empty());
    }
}

proof fn lemma_decimal_digits(n: nat)
    ensures
        forall|q: int| 0 <= q < decimal(n).len() ==> decimal(n)[q] != 'm' && decimal(n)[q] != '\x1b',
        decimal(n).len() >= 1,
    decreases n,
{
    if n >= 10 {
        lemma_decimal_digits(n / 10);
    }
}

proof fn lemma_fg_open(n: u8)
    ensures
        strips_to(fg_open(n), seq![]),
{
    let x = fg_open(n);
    let d = decimal(n as nat);
    lemma_decimal_digits(n as nat);
    assert(x.len() == 8 + d.len());
    assert forall|q: int| 1 <= q < x.len() - 1 implies x[q] != 'm' by {
        if q >= 7 {
            assert(x[q] == d[q - 7]);
        }
    }
    assert(x[0] == '\x1b');
    assert(x[x.len() - 1] == 'm');
    lemma_until_m_at(x, 1, x.len() - 1);
    assert(x.skip(x.len() as int) =~= Seq::<char>::empty());
    lemma_no_escape(Seq::<char>::empty());
}

proof fn lemma_fg_close()
    ensures
        strips_to(fg_close(), seq![]),
{
    let x = fg_close();
    assert(x[0] == '\x1b' && x[1] != 'm' && x[2] != 'm' && x[3] != 'm' && x[4] == 'm');
    lemma_until_m_at(x, 1, 4);
    assert(x.skip(5) =~= Seq::<char>::empty());
    lemma_no_escape(Seq::<char>::empty());
}

proof fn lemma_repeat_no_escape(c: char, n: nat)
    requires
        c != '\x1b',
    ensures
        no_escape(repeat(c, n)),
{
}

proof fn lemma_rail_no_escape(r: Rail, n: nat)
    ensures
        no_escape(rail_chars(r, n)),
{
    lemma_repeat_no_escape(' ', n);
    lemma_repeat_no_escape('─', n);
    lemma_repeat_no_escape('─', n + 1);
    let s = rail_chars(r, n);
    assert forall|i: int| 0 <= i < s.len() implies s[i] != '\x1b' by {
        let sp = repeat(' ', n);
        let da = repeat('─', n);
        match r {
            Rail::Straight => { assert(s =~= seq!['│'] + sp); },
            Rail::Horizontal => {},
            Rail::Station => { assert(s =~= seq!['╪'] + sp); },
            Rail::Ground => { assert(s =~= seq!['┷'] + sp); },
            Rail::ShiftRight => {
                assert(s =~= seq!['└'] + da + seq!['┐'] + sp);
                if i >= 1 + n + 1 {
                    assert(s[i] == sp[i - n - 2]);
                }
            },
            Rail::ShiftLeft => { assert(s =~= seq!['┌'] + da + seq!['┘']); },
            Rail::TopRight => {
                if i > n {
                    assert(s[i] == sp[i - n - 1]);
                }
            },
            Rail::BottomRight => {
                if i > n {
                    assert(s[i] == sp[i - n - 1]);
                }
            },
            Rail::BottomLeft => {},
            Rail::SplitRight => {},
            Rail::SplitLeft => {},
        }
    }
}

proof fn lemma_glyph(st: RenderingSettings, r: Rail, id: TrackId)
    ensures
        strips_to(
            glyph(st.color, st.splat as nat, r, id),
            glyph(uncolored(st).color, uncolored(st).splat as nat, r, id),
        ),
{
    let rc = rail_chars(r, st.splat as nat);
    lemma_rail_no_escape(r, st.splat as nat);
    lemma_no_escape(rc);
    if st.color {
        let n = crate::render::color_index_of(id);
        lemma_fg_open(n);
        lemma_fg_close();
        lemma_strips_to_concat(fg_open(n), seq![], rc, rc);
        assert(Seq::<char>::empty() + rc =~= rc);
        lemma_strips_to_concat(fg_open(n) + rc, rc, fg_close(), seq![]);
        assert(rc + Seq::<char>::empty() =~= rc);
    }
}

proof fn lemma_cells(st: RenderingSettings, cells: Seq<(Rail, TrackId)>)
    ensures
        strips_to(cells_text(st, cells), cells_text(uncolored(st), cells)),
    decreases cells.len(),
{
    if cells.len() > 0 {
        lemma_cells(st, cells.drop_last());
        lemma_glyph(st, cells.last().0, cells.last().1);
        lemma_strips_to_concat(
            cells_text(st, cells.drop_last()),
            cells_text(uncolored(st), cells.drop_last()),
            glyph(st.color, st.splat as nat, cells.last().0, cells.last().1),
            glyph(false, st.splat as nat, cells.last().0, cells.last().1),
        );
    } else {
        lemma_no_escape(seq![]);
    }
}

proof fn lemma_row(st: RenderingSettings, cells: Seq<(Rail, TrackId)>)
    ensures
        strips_to(row_text(st, cells), row_text(uncolored(st), cells)),
{
    lemma_cells(st, cells);
    lemma_no_escape(seq!['\n']);
    lemma_strips_to_concat(
        cells_text(st, cells),
        cells_text(uncolored(st), cells),
        seq!['\n'],
        seq!['\n'],
    );
    assert(cells_text(st, cells).push('\n') =~= cells_text(st, cells) + seq!['\n']);
    assert(cells_text(uncolored(st), cells).push('\n') =~= cells_text(uncolored(st), cells)
        + seq!['\n']);
}

proof fn lemma_concat(p: Seq<Seq<char>>, q: Seq<Seq<char>>)
    requires
        p.len() == q.len(),
        forall|i: int| 0 <= i < p.len() ==> strips_to(#[trigger] p[i], q[i]),
    ensures
        strips_to(concat(p), concat(q)),
    decreases p.len(),
{
    if p.len() == 0 {
        lemma_no_escape(seq![]);
    } else {
        lemma_concat(p.drop_last(), q.drop_last());
        assert(strips_to(p[p.len() - 1], q[q.len() - 1]));
        lemma_strips_to_concat(concat(p.drop_last()), concat(q.drop_last()), p.last(), q.last());
    }
}

proof fn lemma_opening(st: RenderingSettings, a: Seq<TrackId>, p: int)
    ensures
        strips_to(opening_rows(st, a, p), opening_rows(uncolored(st), a, p)),
{
    if a.len() > 1 {
        let n = (a.len() - p - 1) as nat;
        let x = Seq::new(n, |k: int| row_text(st, shift_right_row(a, k + 1)));
        let y = Seq::new(n, |k: int| row_text(uncolored(st), shift_right_row(a, k + 1)));
        assert forall|i: int| 0 <= i < x.len() implies strips_to(#[trigger] x[i], y[i]) by {
            lemma_row(st, shift_right_row(a, i + 1));
        }
        lemma_concat(x, y);
    } else {
        lemma_no_escape(seq![]);
    }
}

proof fn lemma_closing(st: RenderingSettings, b: Seq<TrackId>, start: int)
    ensures
        strips_to(closing_rows(st, b, start), closing_rows(uncolored(st), b, start)),
{
    let n = if start < b.len() { (b.len() - start) as nat } else { 0 };
    let x = Seq::new(n, |k: int| row_text(st, shift_left_row(b, start + k)));
    let y = Seq::new(n, |k: int| row_text(uncolored(st), shift_left_row(b, start + k)));
    assert forall|i: int| 0 <= i < x.len() implies strips_to(#[trigger] x[i], y[i]) by {
        lemma_row(st, shift_left_row(b, start + i));
    }
    lemma_concat(x, y);
}

proof fn lemma_line_len_bound(s: Seq<char>, i: int)
    requires
        0 <= i <= s.len(),
    ensures
        i + crate::render::line_len(s, i) <= s.len(),
    decreases s.len() - i,
{
    if i < s.len() && s[i] != '\n' {
        lemma_line_len_bound(s, i + 1);
    }
}

proof fn lemma_station_rows(
    st: RenderingSettings,
    widest: nat,
    a: Seq<TrackId>,
    id: TrackId,
    s: Seq<char>,
    i: int,
    k: nat,
)
    requires
        no_escape(s),
    ensures
        strips_to(
            station_rows(st, widest, a, id, s, i, k),
            station_rows(uncolored(st), widest, a, id, s, i, k),
        ),
    decreases s.len() - i,
{
    if i < 0 || i >= s.len() {
        lemma_no_escape(seq![]);
    } else {
        let j = line_end(s, i);
        let l = line_at(s, i, j);
        let cells = if k == 0 {
            marked_row(a, id, Rail::Station)
        } else {
            plain_row(a)
        };
        lemma_line_len_bound(s, i);
        assert forall|q: int| 0 <= q < l.len() implies l[q] != '\x1b' by {
            assert(l[q] == s[i + q]);
        }
        let pad = repeat(' ', crate::render::pad_len(widest, a.len(), st.splat as nat));
        lemma_repeat_no_escape(' ', crate::render::pad_len(widest, a.len(), st.splat as nat));
        let tail = pad + l + seq!['\n'];
        assert(no_escape(tail));
        lemma_no_escape(tail);
        lemma_cells(st, cells);
        lemma_strips_to_concat(cells_text(st, cells), cells_text(uncolored(st), cells), tail, tail);
        assert(cells_text(st, cells) + tail =~= station_line(st, widest, a, id, k, l));
        assert(cells_text(uncolored(st), cells) + tail =~= station_line(
            uncolored(st),
            widest,
            a,
            id,
            k,
            l,
        ));
        if j < s.len() {
            lemma_station_rows(st, widest, a, id, s, j + 1, k + 1);
            lemma_strips_to_concat(
                station_line(st, widest, a, id, k, l),
                station_line(uncolored(st), widest, a, id, k, l),
                station_rows(st, widest, a, id, s, j + 1, k + 1),
                station_rows(uncolored(st), widest, a, id, s, j + 1, k + 1),
            );
        } else {
            lemma_no_escape(seq![]);
            lemma_strips_to_concat(
                station_line(st, widest, a, id, k, l),
                station_line(uncolored(st), widest, a, id, k, l),
                seq![],
                seq![],
            );
            assert(station_line(st, widest, a, id, k, l) + Seq::<char>::empty() =~= station_line(
                st,
                widest,
                a,
                id,
                k,
                l,
            ));
            assert(station_line(uncolored(st), widest, a, id, k, l) + Seq::<char>::empty()
                =~= station_line(uncolored(st), widest, a, id, k, l));
        }
    }
}

proof fn lemma_event(st: RenderingSettings, widest: nat, a: Seq<TrackId>, e: EventView)
    requires
        match e {
            EventView::Station(_, t) => no_escape(t),
            _ => true,
        },
    ensures
        strips_to(event_text(st, widest, a, e), event_text(uncolored(st), widest, a, e)),
{
    let u = uncolored(st);
    match e {
        EventView::StopTrack(id) => lemma_row(st, marked_row(a, id, Rail::Ground)),
        EventView::Station(id, text) => {
            lemma_station_rows(st, widest, a, id, text, 0, 0);
            lemma_row(st, plain_row(a));
            lemma_strips_to_concat(
                station_rows(st, widest, a, id, text, 0, 0),
                station_rows(u, widest, a, id, text, 0, 0),
                row_text(st, plain_row(a)),
                row_text(u, plain_row(a)),
            );
        },
        EventView::SplitTrack(p, c) => {
            lemma_opening(st, a, pos(a, p));
            lemma_row(st, branch_row(step(a, e), p, c));
            lemma_strips_to_concat(
                opening_rows(st, a, pos(a, p)),
                opening_rows(u, a, pos(a, p)),
                row_text(st, branch_row(step(a, e), p, c)),
                row_text(u, branch_row(step(a, e), p, c)),
            );
        },
        EventView::JoinTrack(c, t) => {
            let ci = pos(a, c);
            let ti = pos(a, t);
            let start = if ci > ti { ci } else { ci + 1 };
            lemma_row(st, merge_row(a, ci, ti));
            lemma_closing(st, step(a, e), start);
            lemma_strips_to_concat(
                row_text(st, merge_row(a, ci, ti)),
                row_text(u, merge_row(a, ci, ti)),
                closing_rows(st, step(a, e), start),
                closing_rows(u, step(a, e), start),
            );
        },
        EventView::NoEvent => lemma_row(st, plain_row(a)),
        _ => lemma_no_escape(seq![]),
    }
}

proof fn lemma_log(st: RenderingSettings, widest: nat, evs: Seq<EventView>)
    requires
        escape_free(evs),
    ensures
        strips_to(log_text(st, widest, evs), log_text(uncolored(st), widest, evs)),
    decreases evs.len(),
{
    if evs.len() == 0 {
        lemma_no_escape(seq![]);
    } else {
        let init = evs.drop_last();
        assert forall|i: int| 0 <= i < init.len() implies match #[trigger] init[i] {
            EventView::Station(_, t) => no_escape(t),
            _ => true,
        } by {
            assert(init[i] == evs[i]);
        }
        lemma_log(st, widest, init);
        assert(evs.last() == evs[evs.len() - 1]);
        lemma_event(st, widest, replay(init), evs.last());
        lemma_strips_to_concat(
            log_text(st, widest, init),
            log_text(uncolored(st), widest, init),
            event_text(st, widest, replay(init), evs.last()),
            event_text(uncolored(st), widest, replay(init), evs.last()),
        );
    }
}

/// Colour only adds escape sequences: removing them from a drawing gives
/// the drawing with colouring off, character for character, when no
/// station text holds an escape character itself.
pub proof fn lemma_color_strips_to_plain(st: RenderingSettings, evs: Seq<EventView>)
    requires
        escape_free(evs),
    ensures
        strip_escapes(render_text(st, evs)) == render_text(uncolored(st), evs),
{
    lemma_log(st, crate::events::widest(evs), evs);
}

} // verus!
