//! Track ids, the event log, and the model of replaying a log against a
//! list of active tracks seeded with track `0`.
use crate::render::{default_settings, render, render_text};
use vstd::prelude::*;
use vstd::std_specs::vec::spec_vec_len;
use vstd::string::StrSliceExecFns;
use vstd::utf8::encode_utf8;

verus! {
/// An ID referencing a track.
#[derive(PartialEq, Eq, Structural, Debug, Clone, Copy, Hash)]
pub struct TrackId(pub usize);

impl From<usize> for TrackId {
    fn from(id: usize) -> (r: TrackId)
        ensures
            r == TrackId(id),
    {
        TrackId(id)
    }
}

impl vstd::std_specs::convert::FromSpecImpl<usize> for TrackId {
    open spec fn obeys_from_spec() -> bool {
        true
    }

    open spec fn from_spec(id: usize) -> TrackId {
        TrackId(id)
    }
}

impl From<TrackId> for usize {
    fn from(id: TrackId) -> (r: usize)
        ensures
            r == id.0,
    {
        id.0
    }
}

impl vstd::std_specs::convert::FromSpecImpl<TrackId> for usize {
    open spec fn obeys_from_spec() -> bool {
        true
    }

    open spec fn from_spec(id: TrackId) -> usize {
        id.0
    }
}

/// One diagram operation. A log of these, replayed in order against a
/// list of active tracks seeded with track `0`, is what the renderer draws.
#[derive(Clone, Debug)]
pub enum Event {
    /// Appends a new track as the rightmost rail. Draws nothing.
    StartTrack(TrackId),
    /// Appends each of the tracks, in order, as the rightmost rails.
    StartTracks(Vec<TrackId>),
    /// Draws a row where the track ends, then removes it.
    StopTrack(TrackId),
    /// Draws one row per line of text, the first marking the track's rail,
    /// then a spacer row. An unknown track marks no rail.
    Station(TrackId, String),
    /// `SplitTrack(parent, child)`: opens a gap right of `parent` and
    /// branches `child` into it.
    SplitTrack(TrackId, TrackId),
    /// `JoinTrack(child, target)`: merges `child` into `target` and closes
    /// the gap it leaves.
    JoinTrack(TrackId, TrackId),
    /// Draws one row of plain rails.
    NoEvent,
}

/// What an `Event` holds, as mathematical values.
pub enum EventView {
    StartTrack(TrackId),
    StartTracks(Seq<TrackId>),
    StopTrack(TrackId),
    Station(TrackId, Seq<char>),
    SplitTrack(TrackId, TrackId),
    JoinTrack(TrackId, TrackId),
    NoEvent,
}

impl View for Event {
    type V = EventView;

    open spec fn view(&self) -> EventView {
        match self {
            Event::StartTrack(id) => EventView::StartTrack(*id),
            Event::StartTracks(ids) => EventView::StartTracks(ids@),
            Event::StopTrack(id) => EventView::StopTrack(*id),
            Event::Station(id, text) => EventView::Station(*id, text@),
            Event::SplitTrack(p, c) => EventView::SplitTrack(*p, *c),
            Event::JoinTrack(c, t) => EventView::JoinTrack(*c, *t),
            Event::NoEvent => EventView::NoEvent,
        }
    }
}

/// The views of a sequence of events.
pub open spec fn log_view(evs: Seq<Event>) -> Seq<EventView> {
    evs.map_values(|e: Event| e@)
}

/// The column of `id` in `a`: its first index, or `a.len()` when absent.
pub open spec fn pos(a: Seq<TrackId>, id: TrackId) -> int
    decreases a.len(),
{
    if a.len() == 0 {
        0
    } else if a[0] == id {
        0
    } else {
        1 + pos(a.drop_first(), id)
    }
}

/// The active tracks after one event.
pub open spec fn step(a: Seq<TrackId>, e: EventView) -> Seq<TrackId> {
    match e {
        EventView::StartTrack(id) => a.push(id),
        EventView::StartTracks(ids) => a + ids,
        EventView::StopTrack(id) => a.remove(pos(a, id)),
        EventView::SplitTrack(p, c) => a.insert(pos(a, p) + 1, c),
        EventView::JoinTrack(c, _t) => a.remove(pos(a, c)),
        _ => a,
    }
}

/// An event can be replayed on `a`: it starts no track that is active,
/// names every track it needs, and leaves a list whose length fits a `usize`.
pub open spec fn step_ok(a: Seq<TrackId>, e: EventView) -> bool {
    &&& match e {
        EventView::StartTrack(id) => !a.contains(id),
        EventView::StartTracks(ids) => ids.no_duplicates() && forall|i: int|
            0 <= i < ids.len() ==> !a.contains(#[trigger] ids[i]),
        EventView::StopTrack(id) => a.contains(id),
        EventView::SplitTrack(p, c) => a.contains(p) && !a.contains(c),
        EventView::JoinTrack(c, t) => a.contains(c) && a.contains(t),
        _ => true,
    }
    &&& step(a, e).len() <= usize::MAX
}

/// The active tracks after replaying `evs` from the seed `[0]`.
pub open spec fn replay(evs: Seq<EventView>) -> Seq<TrackId>
    decreases evs.len(),
{
    if evs.len() == 0 {
        seq![TrackId(0)]
    } else {
        step(replay(evs.drop_last()), evs.last())
    }
}

/// Every event of `evs` can be replayed in turn.
pub open spec fn replayable(evs: Seq<EventView>) -> bool
    decreases evs.len(),
{
    evs.len() == 0 || (replayable(evs.drop_last()) && step_ok(replay(evs.drop_last()), evs.last()))
}

/// The most rails active at any point of the replay, the seed included.
pub open spec fn widest(evs: Seq<EventView>) -> nat
    decreases evs.len(),
{
    if evs.len() == 0 {
        1
    } else {
        let w = widest(evs.drop_last());
        let n = replay(evs).len();
        if w >= n { w } else { n }
    }
}

/// Glyph spacing, colouring and corner style used when drawing.
pub struct RenderingSettings {
    /// Number of spacing characters after each rail.
    pub splat: usize,
    /// Whether glyphs are wrapped in terminal colour escapes.
    pub color: bool,
    /// Reserved for rounded corners; no glyph depends on it.
    pub rounded: bool,
}

impl Default for RenderingSettings {
    fn default() -> (r: RenderingSettings)
        ensures
            r.splat == 5,
            r.color,
            !r.rounded,
    {
        RenderingSettings { splat: 5, color: true, rounded: false }
    }
}

impl RenderingSettings {
    pub fn splat(self, splat_factor: usize) -> (r: RenderingSettings)
        ensures
            r.splat == splat_factor,
            r.color == self.color,
            r.rounded == self.rounded,
    {
        RenderingSettings { splat: splat_factor, ..self }
    }

    pub fn color(self, colored: bool) -> (r: RenderingSettings)
        ensures
            r.color == colored,
            r.splat == self.splat,
            r.rounded == self.rounded,
    {
        RenderingSettings { color: colored, ..self }
    }
}

proof fn lemma_pos_at(a: Seq<TrackId>, id: TrackId, i: int)
    requires
        0 <= i <= a.len(),
        forall|j: int| 0 <= j < i ==> a[j] != id,
        i < a.len() ==> a[i] == id,
    ensures
        pos(a, id) == i,
    decreases i,
{
    if i > 0 {
        lemma_pos_at(a.drop_first(), id, i - 1);
    }
}

pub proof fn lemma_pos_found(a: Seq<TrackId>, id: TrackId)
    requires
        a.contains(id),
    ensures
        0 <= pos(a, id) < a.len(),
        a[pos(a, id)] == id,
    decreases a.len(),
{
    if a[0] != id {
        let j = choose|j: int| 0 <= j < a.len() && a[j] == id;
        assert(a.drop_first()[j - 1] == id);
        lemma_pos_found(a.drop_first(), id);
    }
}

pub(crate) fn position(a: &Vec<TrackId>, id: TrackId) -> (r: usize)
    ensures
        r == pos(a@, id),
        r <= a@.len(),
        r < a@.len() ==> a@[r as int] == id,
        a@.contains(id) <==> r < a@.len(),
{
    let mut i: usize = 0;
    while i < a.len() && a[i] != id
        invariant
            i <= a@.len(),
            forall|j: int| 0 <= j < i ==> a@[j] != id,
        decreases a@.len() - i,
    {
        i = i + 1;
    }
    proof {
        lemma_pos_at(a@, id, i as int);
        if i < a@.len() {
            assert(a@.contains(id));
        }
    }
    i
}

pub proof fn lemma_replayable_prefix(evs: Seq<EventView>, k: int)
    requires
        replayable(evs),
        0 <= k <= evs.len(),
    ensures
        replayable(evs.take(k)),
    decreases evs.len(),
{
    if k == evs.len() {
        assert(evs.take(k) =~= evs);
    } else {
        assert(evs.drop_last().take(k) =~= evs.take(k));
        lemma_replayable_prefix(evs.drop_last(), k);
    }
}

/// Replaying one more event: the tracks step, and the log stays
/// replayable exactly when the event can be replayed.
pub proof fn lemma_replay_push(evs: Seq<EventView>, e: EventView)
    ensures
        replay(evs.push(e)) == step(replay(evs), e),
        replayable(evs.push(e)) == (replayable(evs) && step_ok(replay(evs), e)),
{
    assert(evs.push(e).drop_last() =~= evs);
}

/// A log of events together with the settings to draw it with.
pub struct Metro {
    events: Vec<Event>,
    rdr: RenderingSettings,
}

impl Default for Metro {
    fn default() -> (r: Metro)
        ensures
            r.log() == Seq::<EventView>::empty(),
            r.settings() == default_settings(),
    {
        Metro::with_settings(RenderingSettings::default())
    }
}

impl Metro {
    /// The events pushed so far, in order.
    pub closed spec fn log(&self) -> Seq<EventView> {
        log_view(self.events@)
    }

    /// The settings the log is drawn with.
    pub closed spec fn settings(&self) -> RenderingSettings {
        self.rdr
    }

    pub fn with_settings(rdr: RenderingSettings) -> (r: Metro)
        ensures
            r.log() == Seq::<EventView>::empty(),
            r.settings() == rdr,
    {
        let r = Metro { events: Vec::new(), rdr };
        assert(r.log() =~= Seq::<EventView>::empty());
        r
    }

    pub fn push(&mut self, event: Event)
        ensures
            final(self).log() == old(self).log().push(event@),
            final(self).settings() == old(self).settings(),
    {
        self.events.push(event);
        assert(final(self).log() =~= old(self).log().push(event@));
    }

    /// Draws the log as text. The log must be replayable from the seed
    /// track `0`: an event that starts an active track, or names a track
    /// that must be active and is not, cannot be drawn.
    pub fn to_string(&self) -> (r: String)
        requires
            replayable(self.log()),
        ensures
            r@ == render_text(self.settings(), self.log()),
    {
        render(&self.events, &self.rdr)
    }

    /// Whether the log can be drawn.
    pub fn is_replayable(&self) -> (r: bool)
        ensures
            r == replayable(self.log()),
    {
        is_replayable(&self.events)
    }

    /// Draws the log as UTF-8 bytes.
    pub fn to_vec(&self) -> (r: Vec<u8>)
        requires
            replayable(self.log()),
        ensures
            r@ == encode_utf8(render_text(self.settings(), self.log())),
    {
        let s = self.to_string();
        s.as_str().as_bytes_vec()
    }
}

proof fn lemma_step_distinct(a: Seq<TrackId>, e: EventView)
    requires
        a.no_duplicates(),
        step_ok(a, e),
    ensures
        step(a, e).no_duplicates(),
{
    let b = step(a, e);
    match e {
        EventView::StartTrack(id) => {
            assert forall|i: int, j: int| 0 <= i < b.len() && 0 <= j < b.len() && i != j implies b[i]
                != b[j] by {
                if i == a.len() as int {
                    assert(a.contains(b[j]));
                } else if j == a.len() as int {
                    assert(a.contains(b[i]));
                }
            }
        },
        EventView::StartTracks(ids) => {
            assert forall|i: int, j: int| 0 <= i < b.len() && 0 <= j < b.len() && i != j implies b[i]
                != b[j] by {
                if i >= a.len() && j < a.len() {
                    assert(b[i] == ids[i - a.len()]);
                    assert(a.contains(b[j]));
                } else if j >= a.len() && i < a.len() {
                    assert(b[j] == ids[j - a.len()]);
                    assert(a.contains(b[i]));
                }
            }
        },
        EventView::StopTrack(id) => {
            lemma_pos_found(a, id);
        },
        EventView::JoinTrack(c, _) => {
            lemma_pos_found(a, c);
        },
        EventView::SplitTrack(p, c) => {
            lemma_pos_found(a, p);
            let q = pos(a, p) + 1;
            assert forall|i: int, j: int| 0 <= i < b.len() && 0 <= j < b.len() && i != j implies b[i]
                != b[j] by {
                if i == q {
                    if j < q {
                        assert(b[j] == a[j]);
                    } else {
                        assert(b[j] == a[j - 1]);
                    }
                } else if j == q {
                    if i < q {
                        assert(b[i] == a[i]);
                    } else {
                        assert(b[i] == a[i - 1]);
                    }
                }
            }
        },
        _ => {},
    }
}

/// Replaying a replayable log never holds an id twice among the active tracks.
pub proof fn lemma_replay_distinct(evs: Seq<EventView>)
    requires
        replayable(evs),
    ensures
        replay(evs).no_duplicates(),
    decreases evs.len(),
{
    if evs.len() > 0 {
        lemma_replay_distinct(evs.drop_last());
        lemma_step_distinct(replay(evs.drop_last()), evs.last());
    }
}

/// Drawing depends on nothing but the log's view and the settings: the
/// same log drawn twice with the same settings gives the same text.
pub proof fn lemma_render_deterministic(a: &Metro, b: &Metro)
    requires
        a.log() == b.log(),
        a.settings() == b.settings(),
    ensures
        render_text(a.settings(), a.log()) == render_text(b.settings(), b.log()),
{
}

/// Whether `ids` can all be started, in order, on the tracks `a`; on
/// success they are appended to `tracks`.
fn try_start_tracks(tracks: &mut Vec<TrackId>, ids: &Vec<TrackId>) -> (r: bool)
    ensures
        r == step_ok(old(tracks)@, EventView::StartTracks(ids@)),
        r ==> final(tracks)@ == old(tracks)@ + ids@,
{
    let ghost a = tracks@;
    if ids.len() > usize::MAX - tracks.len() {
        return false;
    }
    let mut j: usize = 0;
    while j < ids.len()
        invariant
            a == old(tracks)@,
            j <= ids@.len(),
            a.len() + ids@.len() <= usize::MAX,
            tracks@ == a + ids@.take(j as int),
            ids@.take(j as int).no_duplicates(),
            forall|i: int| 0 <= i < j ==> !a.contains(#[trigger] ids@[i]),
        decreases ids@.len() - j,
    {
        let id = ids[j];
        let p = position(tracks, id);
        if p < tracks.len() {
            proof {
                let k = p as int;
                assert(tracks@[k] == id);
                if k < a.len() {
                    assert(a.contains(ids@[j as int]));
                } else {
                    let m = k - a.len();
                    assert(tracks@[k] == ids@.take(j as int)[m]);
                    assert(ids@[m] == ids@[j as int]);
                    assert(m != j);
                    assert(!ids@.no_duplicates());
                }
            }
            return false;
        }
        proof {
            assert forall|i: int| 0 <= i < j implies ids@[i] != id by {
                assert(tracks@[a.len() + i] == ids@[i]);
            }
            assert forall|x: TrackId| a.contains(x) implies x != id by {
                let q = choose|q: int| 0 <= q < a.len() && a[q] == x;
                assert(tracks@[q] == x);
            }
        }
        tracks.push(id);
        j = j + 1;
        proof {
            assert(tracks@ =~= a + ids@.take(j as int));
        }
    }
    assert(ids@.take(j as int) =~= ids@);
    true
}

/// Whether `e` can be replayed on `tracks`; on success the tracks step.
fn try_step(tracks: &mut Vec<TrackId>, e: &Event) -> (r: bool)
    ensures
        r == step_ok(old(tracks)@, e@),
        r ==> final(tracks)@ == step(old(tracks)@, e@),
{
    let ghost a = tracks@;
    proof {
        lemma_step_ok_len(a, e@);
    }
    match e {
        Event::StartTrack(id) => {
            if position(tracks, *id) < tracks.len() || tracks.len() == usize::MAX {
                return false;
            }
            tracks.push(*id);
            true
        },
        Event::StartTracks(ids) => try_start_tracks(tracks, ids),
        Event::StopTrack(id) => {
            let p = position(tracks, *id);
            if p == tracks.len() {
                return false;
            }
            tracks.remove(p);
            true
        },
        Event::SplitTrack(parent, child) => {
            let p = position(tracks, *parent);
            if p == tracks.len() || position(tracks, *child) < tracks.len() || tracks.len()
                == usize::MAX {
                return false;
            }
            tracks.insert(p + 1, *child);
            true
        },
        Event::JoinTrack(child, target) => {
            let c = position(tracks, *child);
            if c == tracks.len() || position(tracks, *target) == tracks.len() {
                return false;
            }
            tracks.remove(c);
            true
        },
        _ => {
            proof {
                assert(tracks@.len() == spec_vec_len(tracks));
            }
            true
        },
    }
}

proof fn lemma_step_ok_len(a: Seq<TrackId>, e: EventView)
    ensures
        match e {
            EventView::StopTrack(id) => a.contains(id) ==> step(a, e).len() == a.len() - 1,
            EventView::JoinTrack(c, _) => a.contains(c) ==> step(a, e).len() == a.len() - 1,
            EventView::SplitTrack(p, _) => a.contains(p) ==> step(a, e).len() == a.len() + 1,
            _ => true,
        },
{
    match e {
        EventView::StopTrack(id) => if a.contains(id) { lemma_pos_found(a, id) },
        EventView::JoinTrack(c, _) => if a.contains(c) { lemma_pos_found(a, c) },
        EventView::SplitTrack(p, _) => if a.contains(p) { lemma_pos_found(a, p) },
        _ => {},
    }
}

/// Whether `events` can be replayed from the seed track `0`.
pub fn is_replayable(events: &Vec<Event>) -> (r: bool)
    ensures
        r == replayable(log_view(events@)),
{
    let ghost evs = log_view(events@);
    let mut tracks: Vec<TrackId> = Vec::new();
    tracks.push(TrackId(0));
    let mut k: usize = 0;
    assert(evs.take(0) =~= Seq::<EventView>::empty());
    assert(tracks@ =~= seq![TrackId(0)]);
    while k < events.len()
        invariant
            evs == log_view(events@),
            k <= events@.len(),
            replayable(evs.take(k as int)),
            tracks@ == replay(evs.take(k as int)),
        decreases events@.len() - k,
    {
        let ghost t = evs.take(k + 1);
        proof {
            assert(t.drop_last() =~= evs.take(k as int));
        }
        if !try_step(&mut tracks, &events[k]) {
            proof {
                if replayable(evs) {
                    lemma_replayable_prefix(evs, k + 1);
                }
            }
            return false;
        }
        k = k + 1;
    }
    assert(evs.take(k as int) =~= evs);
    true
}

} // verus!
