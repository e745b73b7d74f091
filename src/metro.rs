//! A builder that records track operations as an event log which can
//! always be drawn.
//!
//! The registry owns all state; a `Track` is only a track id. Every
//! operation on a track takes the registry it belongs to. A track is not
//! stopped when its handle goes away: call `stop` or `join`, or the track
//! stays active.
use crate::events::{
    lemma_replay_distinct, lemma_replay_push, lemma_replayable_prefix, log_view, pos, position,
    replay, replayable, step, Event, EventView, TrackId,
};
use crate::render::{default_settings, render, render_text};
use vstd::prelude::*;
use vstd::string::StrSliceExecFns;
use vstd::std_specs::vec::spec_vec_len;
use vstd::utf8::encode_utf8;

verus! {

/// The id under which stations not tied to a track are recorded.
pub const DETACHED: usize = usize::MAX;

/// A handle to a track of a `Metro`: the track's id. Several handles may
/// name the same track; a handle whose id is no longer active is dangling.
#[derive(Clone, Copy, Debug, PartialEq, Eq, Structural)]
pub struct Track {
    id: TrackId,
}

struct MetroState {
    tracks: Vec<TrackId>,
    events: Vec<Event>,
    next_id: usize,
}

impl MetroState {
    spec fn wf(&self) -> bool {
        &&& replayable(log_view(self.events@))
        &&& self.tracks@ == replay(log_view(self.events@))
        &&& !self.tracks@.contains(TrackId(DETACHED))
    }

    fn new() -> (r: MetroState)
        ensures
            r.wf(),
            r.events@.len() == 0,
            r.next_id == 0,
    {
        let mut tracks: Vec<TrackId> = Vec::new();
        tracks.push(TrackId(0));
        let r = MetroState { tracks, events: Vec::new(), next_id: 0 };
        assert(log_view(r.events@) =~= Seq::<EventView>::empty());
        assert(r.tracks@ =~= seq![TrackId(0)]);
        r
    }

    /// Hands out the first value at or above the counter that no active
    /// track uses, and moves the counter past it.
    fn next_id(&mut self) -> (r: usize)
        requires
            old(self).next_id + old(self).tracks@.len() < usize::MAX,
        ensures
            old(self).next_id <= r < usize::MAX,
            !old(self).tracks@.contains(TrackId(r)),
            forall|v: int|
                old(self).next_id <= v < r ==> #[trigger] old(self).tracks@.contains(
                    TrackId(v as usize),
                ),
            final(self).next_id == r + 1,
            final(self).tracks == old(self).tracks,
            final(self).events == old(self).events,
    {
        let ghost a = self.tracks@;
        let start = self.next_id;
        let mut c = start;
        proof {
            lemma_count_bound(a, start as int);
        }
        while position(&self.tracks, TrackId(c)) < self.tracks.len()
            invariant
                self.tracks@ == a,
                start <= c,
                start + a.len() < usize::MAX,
                count_from(a, start as int) <= a.len(),
                c - start + count_from(a, c as int) <= count_from(a, start as int),
                forall|v: int| start <= v < c ==> #[trigger] a.contains(TrackId(v as usize)),
            decreases count_from(a, c as int),
        {
            proof {
                lemma_count_step(a, c as int);
            }
            c = c + 1;
        }
        self.next_id = c + 1;
        c
    }

    /// Appends an event whose effect on the tracks has already been made.
    fn add_event(&mut self, event: Event)
        requires
            !old(self).tracks@.contains(TrackId(DETACHED)),
            replayable(log_view(old(self).events@)),
            step(replay(log_view(old(self).events@)), event@) == old(self).tracks@,
            replayable(log_view(old(self).events@).push(event@)),
        ensures
            final(self).wf(),
            log_view(final(self).events@) == log_view(old(self).events@).push(event@),
            final(self).tracks == old(self).tracks,
            final(self).next_id == old(self).next_id,
    {
        let ghost before = log_view(self.events@);
        self.events.push(event);
        proof {
            assert(log_view(self.events@) =~= before.push(event@));
            lemma_replay_push(before, event@);
        }
    }

    /// Starts `id` as the rightmost track, unless it is active already or
    /// is the reserved id.
    fn new_track(&mut self, track_id: TrackId) -> (r: Track)
        requires
            old(self).wf(),
        ensures
            final(self).wf(),
            r.id == track_id,
            final(self).next_id == old(self).next_id,
            old(self).tracks@.contains(track_id) || track_id.0 == DETACHED ==> final(self).events@
                == old(self).events@ && final(self).tracks@ == old(self).tracks@,
            !old(self).tracks@.contains(track_id) && track_id.0 != DETACHED ==> log_view(
                final(self).events@,
            ) == log_view(old(self).events@).push(EventView::StartTrack(track_id)),
            !old(self).tracks@.contains(track_id) && track_id.0 != DETACHED ==> final(self).tracks@ == old(self).tracks@.push(track_id),
    {
        if track_id.0 == DETACHED {
            return Track::new(track_id);
        }
        let p = position(&self.tracks, track_id);
        if p < self.tracks.len() {
            Track::new(track_id)
        } else {
            let ghost a = self.tracks@;
            let ghost evs = log_view(self.events@);
            self.tracks.push(track_id);
            proof {
                assert(self.tracks@.len() == spec_vec_len(&self.tracks));
                lemma_replay_push(evs, EventView::StartTrack(track_id));
                lemma_not_contains_push(a, track_id, TrackId(DETACHED));
            }
            self.add_event(Event::StartTrack(track_id));
            Track::new(track_id)
        }
    }

    fn get_track(&self, track_id: TrackId) -> (r: Option<Track>)
        ensures
            r == (if self.tracks@.contains(track_id) {
                Some(Track { id: track_id })
            } else {
                None
            }),
    {
        let p = position(&self.tracks, track_id);
        if p < self.tracks.len() {
            Some(Track::new(track_id))
        } else {
            proof {
                if self.tracks@.contains(track_id) {
                    crate::events::lemma_pos_found(self.tracks@, track_id);
                }
            }
            None
        }
    }

    /// Branches `new_track_id` off `from`, unless it is active already or
    /// is the reserved id. Off a track that is not active, it starts as the
    /// rightmost track.
    fn split_track(&mut self, from: &Track, new_track_id: TrackId) -> (r: Track)
        requires
            old(self).wf(),
            new_track_id.0 != DETACHED,
        ensures
            final(self).wf(),
            r.id == new_track_id,
            final(self).next_id == old(self).next_id,
            old(self).tracks@.contains(new_track_id) ==> final(self).events@ == old(self).events@
                && final(self).tracks@ == old(self).tracks@,
            !old(self).tracks@.contains(new_track_id) && old(self).tracks@.contains(from.id)
                ==> log_view(final(self).events@) == log_view(old(self).events@).push(
                EventView::SplitTrack(from.id, new_track_id),
            ),
            !old(self).tracks@.contains(new_track_id) && !old(self).tracks@.contains(from.id)
                ==> log_view(final(self).events@) == log_view(old(self).events@).push(
                EventView::StartTrack(new_track_id),
            ),
            !old(self).tracks@.contains(new_track_id) && old(self).tracks@.contains(from.id)
                ==> final(self).tracks@ == step(
                old(self).tracks@,
                EventView::SplitTrack(from.id, new_track_id),
            ),
            !old(self).tracks@.contains(new_track_id) && !old(self).tracks@.contains(from.id)
                ==> final(self).tracks@ == old(self).tracks@.push(new_track_id),
    {
        let c = position(&self.tracks, new_track_id);
        if c < self.tracks.len() {
            return Track::new(new_track_id);
        }
        let ghost evs = log_view(self.events@);
        proof {
            if self.tracks@.contains(new_track_id) {
                crate::events::lemma_pos_found(self.tracks@, new_track_id);
            }
        }
        let ghost a = self.tracks@;
        let p = position(&self.tracks, from.id);
        if p < self.tracks.len() {
            self.tracks.insert(p + 1, new_track_id);
            proof {
                assert(self.tracks@.len() == spec_vec_len(&self.tracks));
                lemma_replay_push(evs, EventView::SplitTrack(from.id, new_track_id));
                assert forall|k: int| 0 <= k < self.tracks@.len() implies self.tracks@[k]
                    != TrackId(DETACHED) by {
                    if k < p + 1 {
                        assert(self.tracks@[k] == a[k]);
                    } else if k > p + 1 {
                        assert(self.tracks@[k] == a[k - 1]);
                    }
                }
            }
            self.add_event(Event::SplitTrack(from.id, new_track_id));
        } else {
            self.tracks.push(new_track_id);
            proof {
                assert(self.tracks@.len() == spec_vec_len(&self.tracks));
                lemma_replay_push(evs, EventView::StartTrack(new_track_id));
                lemma_not_contains_push(a, new_track_id, TrackId(DETACHED));
            }
            self.add_event(Event::StartTrack(new_track_id));
        }
        Track::new(new_track_id)
    }

    /// Removes `id` and records that it stopped, if it is active.
    fn stop_track(&mut self, id: TrackId)
        requires
            old(self).wf(),
        ensures
            final(self).wf(),
            final(self).next_id == old(self).next_id,
            !old(self).tracks@.contains(id) ==> final(self).events@ == old(self).events@
                && final(self).tracks@ == old(self).tracks@,
            old(self).tracks@.contains(id) ==> log_view(final(self).events@) == log_view(
                old(self).events@,
            ).push(EventView::StopTrack(id)),
            old(self).tracks@.contains(id) ==> final(self).tracks@ == step(
                old(self).tracks@,
                EventView::StopTrack(id),
            ),
    {
        let p = position(&self.tracks, id);
        if p < self.tracks.len() {
            let ghost evs = log_view(self.events@);
            let ghost a = self.tracks@;
            self.tracks.remove(p);
            proof {
                lemma_not_contains_remove(a, p as int, TrackId(DETACHED));
                lemma_replay_push(evs, EventView::StopTrack(id));
            }
            self.add_event(Event::StopTrack(id));
        } else {
            proof {
                if self.tracks@.contains(id) {
                    crate::events::lemma_pos_found(self.tracks@, id);
                }
            }
        }
    }

    /// Merges `from` into `to`. A join into a track that is not active, or
    /// into itself, is recorded as a stop; a join of a track that is not
    /// active records nothing.
    fn join_track(&mut self, from: &Track, to: &Track)
        requires
            old(self).wf(),
        ensures
            final(self).wf(),
            final(self).next_id == old(self).next_id,
            !old(self).tracks@.contains(from.id) ==> final(self).events@ == old(self).events@
                && final(self).tracks@ == old(self).tracks@,
            old(self).tracks@.contains(from.id) && (from.id == to.id
                || !old(self).tracks@.contains(to.id)) ==> log_view(final(self).events@)
                == log_view(old(self).events@).push(EventView::StopTrack(from.id)),
            old(self).tracks@.contains(from.id) && from.id != to.id && old(
                self,
            ).tracks@.contains(to.id) ==> log_view(final(self).events@) == log_view(
                old(self).events@,
            ).push(EventView::JoinTrack(from.id, to.id)),
            old(self).tracks@.contains(from.id) ==> final(self).tracks@ == old(
                self,
            ).tracks@.remove(pos(old(self).tracks@, from.id)),
    {
        let t = position(&self.tracks, to.id);
        if from.id == to.id || t >= self.tracks.len() {
            proof {
                if self.tracks@.contains(to.id) {
                    crate::events::lemma_pos_found(self.tracks@, to.id);
                }
            }
            self.stop_track(from.id);
            return;
        }
        let c = position(&self.tracks, from.id);
        if c < self.tracks.len() {
            let ghost evs = log_view(self.events@);
            let ghost a = self.tracks@;
            self.tracks.remove(c);
            proof {
                lemma_not_contains_remove(a, c as int, TrackId(DETACHED));
                lemma_replay_push(evs, EventView::JoinTrack(from.id, to.id));
            }
            self.add_event(Event::JoinTrack(from.id, to.id));
        } else {
            proof {
                if self.tracks@.contains(from.id) {
                    crate::events::lemma_pos_found(self.tracks@, from.id);
                }
            }
        }
    }
}

/// How many tracks of `a` have an id of at least `c`.
spec fn count_from(a: Seq<TrackId>, c: int) -> nat
    decreases a.len(),
{
    if a.len() == 0 {
        0
    } else {
        count_from(a.drop_last(), c) + if a.last().0 >= c {
            1nat
        } else {
            0nat
        }
    }
}

proof fn lemma_count_bound(a: Seq<TrackId>, c: int)
    ensures
        count_from(a, c) <= a.len(),
    decreases a.len(),
{
    if a.len() > 0 {
        lemma_count_bound(a.drop_last(), c);
    }
}

proof fn lemma_count_step(a: Seq<TrackId>, c: int)
    requires
        0 <= c <= usize::MAX,
    ensures
        count_from(a, c + 1) <= count_from(a, c),
        a.contains(TrackId(c as usize)) ==> count_from(a, c + 1) < count_from(a, c),
    decreases a.len(),
{
    if a.len() > 0 {
        lemma_count_step(a.drop_last(), c);
        if a.contains(TrackId(c as usize)) && a.last() != TrackId(c as usize) {
            let j = choose|j: int| 0 <= j < a.len() && a[j] == TrackId(c as usize);
            assert(a.drop_last()[j] == a[j]);
        }
    }
}

proof fn lemma_not_contains_push(a: Seq<TrackId>, x: TrackId, y: TrackId)
    requires
        !a.contains(y),
        x != y,
    ensures
        !a.push(x).contains(y),
{
    assert forall|k: int| 0 <= k < a.push(x).len() implies a.push(x)[k] != y by {
        if k < a.len() {
            assert(a.push(x)[k] == a[k]);
        }
    }
}

proof fn lemma_not_contains_remove(a: Seq<TrackId>, i: int, y: TrackId)
    requires
        !a.contains(y),
        0 <= i < a.len(),
    ensures
        !a.remove(i).contains(y),
{
    assert forall|k: int| 0 <= k < a.remove(i).len() implies a.remove(i)[k] != y by {
        if k < i {
            assert(a.remove(i)[k] == a[k]);
        } else {
            assert(a.remove(i)[k] == a[k + 1]);
        }
    }
}

/// A builder for event logs that can always be drawn. It starts with
/// track `0` active, as the renderer does.
pub struct Metro {
    state: MetroState,
}

impl Metro {
    /// The events recorded so far.
    pub closed spec fn log(&self) -> Seq<EventView> {
        log_view(self.state.events@)
    }

    /// The active tracks, left to right.
    pub closed spec fn active(&self) -> Seq<TrackId> {
        self.state.tracks@
    }

    /// The id counter: `new_track` and `split` hand out the first id at or
    /// above it that no active track uses.
    pub closed spec fn issued(&self) -> nat {
        self.state.next_id as nat
    }

    /// The log can be replayed, replaying it gives the active tracks, and
    /// the id reserved for detached stations is never active.
    pub open spec fn wf(&self) -> bool {
        &&& replayable(self.log())
        &&& self.active() == replay(self.log())
        &&& !self.active().contains(TrackId(DETACHED))
    }

    pub fn new() -> (r: Metro)
        ensures
            r.wf(),
            r.log() == Seq::<EventView>::empty(),
            r.active() == seq![TrackId(0)],
            r.issued() == 0,
    {
        let r = Metro { state: MetroState::new() };
        assert(r.log() =~= Seq::<EventView>::empty());
        r
    }

    /// A new track, started as the rightmost one, with the first id at or
    /// above the counter that no active track uses. The counter moves past
    /// it. Running out of ids is fatal, so the counter and the active tracks
    /// together must leave room below `usize::MAX`.
    pub fn new_track(&mut self) -> (r: Track)
        requires
            old(self).wf(),
            old(self).issued() + old(self).active().len() < usize::MAX,
        ensures
            final(self).wf(),
            old(self).issued() <= r.track_id().0 < DETACHED,
            !old(self).active().contains(r.track_id()),
            forall|v: int|
                old(self).issued() <= v < r.track_id().0 ==> #[trigger] old(
                    self,
                ).active().contains(TrackId(v as usize)),
            final(self).issued() == r.track_id().0 + 1,
            final(self).log() == old(self).log().push(EventView::StartTrack(r.track_id())),
            final(self).active() == old(self).active().push(r.track_id()),
    {
        let id = self.state.next_id();
        self.state.new_track(TrackId(id))
    }

    /// A track with the given id. If the id is active, the handle names the
    /// active track and nothing is recorded; otherwise the track starts as
    /// the rightmost one. The id `DETACHED` is reserved: asking for it
    /// records nothing and gives a dangling handle.
    pub fn new_track_with_id(&mut self, track_id: TrackId) -> (r: Track)
        requires
            old(self).wf(),
        ensures
            final(self).wf(),
            final(self).issued() == old(self).issued(),
            r.track_id() == track_id,
            old(self).active().contains(track_id) || track_id.0 == DETACHED ==> final(self).log()
                == old(self).log() && final(self).active() == old(self).active(),
            !old(self).active().contains(track_id) && track_id.0 != DETACHED ==> final(self).log()
                == old(self).log().push(EventView::StartTrack(track_id)) && final(self).active()
                == old(self).active().push(track_id),
    {
        self.state.new_track(track_id)
    }

    /// A handle to `track_id` if it is active.
    pub fn get_track(&self, track_id: TrackId) -> (r: Option<Track>)
        ensures
            self.active().contains(track_id) ==> r is Some && r->0.track_id() == track_id,
            !self.active().contains(track_id) ==> r is None,
    {
        self.state.get_track(track_id)
    }

    /// Records a station tied to no track: its id is `DETACHED`.
    pub fn add_station(&mut self, text: &str)
        requires
            old(self).wf(),
        ensures
            final(self).wf(),
            final(self).log() == old(self).log().push(
                EventView::Station(TrackId(DETACHED), text@),
            ),
            final(self).active() == old(self).active(),
            final(self).issued() == old(self).issued(),
    {
        let ghost evs = self.log();
        proof {
            lemma_replay_push(evs, EventView::Station(TrackId(DETACHED), text@));
        }
        self.state.add_event(Event::Station(TrackId(DETACHED), text.to_owned()));
    }

    /// Draws the log with the default settings.
    pub fn to_string(&self) -> (r: String)
        requires
            self.wf(),
        ensures
            r@ == render_text(default_settings(), self.log()),
    {
        render(&self.state.events, &crate::events::RenderingSettings::default())
    }

    /// Draws the log with the default settings, as UTF-8 bytes.
    pub fn to_vec(&self) -> (r: Vec<u8>)
        requires
            self.wf(),
        ensures
            r@ == encode_utf8(render_text(default_settings(), self.log())),
    {
        let s = self.to_string();
        s.as_str().as_bytes_vec()
    }

    /// A copy of the events recorded so far.
    pub fn to_events(&self) -> (r: Vec<Event>)
        ensures
            log_view(r@) == self.log(),
    {
        let mut r: Vec<Event> = Vec::new();
        let mut i: usize = 0;
        while i < self.state.events.len()
            invariant
                i <= self.state.events@.len(),
                log_view(r@) == log_view(self.state.events@).take(i as int),
            decreases self.state.events@.len() - i,
        {
            let e = copy_event(&self.state.events[i]);
            let ghost before = r@;
            r.push(e);
            proof {
                assert(log_view(r@) =~= log_view(before).push(e@));
                assert(log_view(self.state.events@).take(i + 1) =~= log_view(
                    self.state.events@,
                ).take(i as int).push(self.state.events@[i as int]@));
            }
            i = i + 1;
            assert(log_view(r@) =~= log_view(self.state.events@).take(i as int));
        }
        assert(log_view(self.state.events@).take(i as int) =~= log_view(self.state.events@));
        r
    }

    /// The events recorded, taking the registry apart.
    pub fn into_events(self) -> (r: Vec<Event>)
        ensures
            log_view(r@) == self.log(),
    {
        self.state.events
    }
}

/// An event with the same view as `e`.
fn copy_event(e: &Event) -> (r: Event)
    ensures
        r@ == e@,
{
    match e {
        Event::StartTrack(id) => Event::StartTrack(*id),
        Event::StartTracks(ids) => {
            let mut v: Vec<TrackId> = Vec::new();
            let mut i: usize = 0;
            while i < ids.len()
                invariant
                    i <= ids@.len(),
                    v@ == ids@.take(i as int),
                decreases ids@.len() - i,
            {
                v.push(ids[i]);
                i = i + 1;
                assert(v@ =~= ids@.take(i as int));
            }
            assert(ids@.take(i as int) =~= ids@);
            Event::StartTracks(v)
        },
        Event::StopTrack(id) => Event::StopTrack(*id),
        Event::Station(id, text) => Event::Station(*id, text.clone()),
        Event::SplitTrack(p, c) => Event::SplitTrack(*p, *c),
        Event::JoinTrack(c, t) => Event::JoinTrack(*c, *t),
        Event::NoEvent => Event::NoEvent,
    }
}

impl Track {
    /// The id this handle names.
    pub closed spec fn track_id(&self) -> TrackId {
        self.id
    }

    fn new(id: TrackId) -> (r: Track)
        ensures
            r.track_id() == id,
    {
        Track { id }
    }

    pub fn id(&self) -> (r: TrackId)
        ensures
            r == self.track_id(),
    {
        self.id
    }

    /// Stops the track: records `StopTrack` and removes it, if it is
    /// active. Stopping a dangling handle records nothing.
    pub fn stop(self, metro: &mut Metro)
        requires
            old(metro).wf(),
        ensures
            final(metro).wf(),
            final(metro).issued() == old(metro).issued(),
            !old(metro).active().contains(self.track_id()) ==> final(metro).log() == old(
                metro,
            ).log() && final(metro).active() == old(metro).active(),
            old(metro).active().contains(self.track_id()) ==> final(metro).log() == old(
                metro,
            ).log().push(EventView::StopTrack(self.track_id())) && final(metro).active() == step(
                old(metro).active(),
                EventView::StopTrack(self.track_id()),
            ),
    {
        metro.state.stop_track(self.id);
    }

    /// Records a station on this track.
    pub fn add_station(&self, metro: &mut Metro, text: &str)
        requires
            old(metro).wf(),
        ensures
            final(metro).wf(),
            final(metro).log() == old(metro).log().push(EventView::Station(self.track_id(), text@)),
            final(metro).active() == old(metro).active(),
            final(metro).issued() == old(metro).issued(),
    {
        let ghost evs = metro.log();
        proof {
            lemma_replay_push(evs, EventView::Station(self.id, text@));
        }
        metro.state.add_event(Event::Station(self.id, text.to_owned()));
    }

    /// A new track branching off this one, with the first id at or above
    /// the counter that no active track uses; the counter moves past it.
    /// Off a dangling handle the new track starts as the rightmost one.
    pub fn split(&self, metro: &mut Metro) -> (r: Track)
        requires
            old(metro).wf(),
            old(metro).issued() + old(metro).active().len() < usize::MAX,
        ensures
            final(metro).wf(),
            old(metro).issued() <= r.track_id().0 < DETACHED,
            !old(metro).active().contains(r.track_id()),
            forall|v: int|
                old(metro).issued() <= v < r.track_id().0 ==> #[trigger] old(
                    metro,
                ).active().contains(TrackId(v as usize)),
            final(metro).issued() == r.track_id().0 + 1,
            old(metro).active().contains(self.track_id()) ==> final(metro).log() == old(
                metro,
            ).log().push(EventView::SplitTrack(self.track_id(), r.track_id()))
                && final(metro).active() == step(
                old(metro).active(),
                EventView::SplitTrack(self.track_id(), r.track_id()),
            ),
            !old(metro).active().contains(self.track_id()) ==> final(metro).log() == old(
                metro,
            ).log().push(EventView::StartTrack(r.track_id())) && final(metro).active() == old(
                metro,
            ).active().push(r.track_id()),
    {
        let id = metro.state.next_id();
        metro.state.split_track(self, TrackId(id))
    }

    /// A new track with the given id branching off this one. If the id is
    /// active, the handle names that track and nothing is recorded. Off a
    /// dangling handle the new track starts as the rightmost one. The id
    /// `DETACHED` is reserved: asking for it records nothing and gives a
    /// dangling handle.
    pub fn split_with_id(&self, metro: &mut Metro, new_track_id: TrackId) -> (r: Track)
        requires
            old(metro).wf(),
        ensures
            final(metro).wf(),
            final(metro).issued() == old(metro).issued(),
            r.track_id() == new_track_id,
            old(metro).active().contains(new_track_id) || new_track_id.0 == DETACHED ==> final(metro).log() == old(metro).log() && final(metro).active() == old(metro).active(),
            !old(metro).active().contains(new_track_id) && new_track_id.0 != DETACHED && old(
                metro,
            ).active().contains(self.track_id()) ==> final(metro).log() == old(metro).log().push(
                EventView::SplitTrack(self.track_id(), new_track_id),
            ) && final(metro).active() == step(
                old(metro).active(),
                EventView::SplitTrack(self.track_id(), new_track_id),
            ),
            !old(metro).active().contains(new_track_id) && new_track_id.0 != DETACHED && !old(
                metro,
            ).active().contains(self.track_id()) ==> final(metro).log() == old(metro).log().push(
                EventView::StartTrack(new_track_id),
            ) && final(metro).active() == old(metro).active().push(new_track_id),
    {
        if new_track_id.0 == DETACHED {
            return Track::new(new_track_id);
        }
        metro.state.split_track(self, new_track_id)
    }

    /// Merges this track into `to_track`, removing it. Into a track that is
    /// not active, or into itself, this stops the track instead; a dangling
    /// handle records nothing.
    pub fn join(self, metro: &mut Metro, to_track: &Track)
        requires
            old(metro).wf(),
        ensures
            final(metro).wf(),
            final(metro).issued() == old(metro).issued(),
            !old(metro).active().contains(self.track_id()) ==> final(metro).log() == old(
                metro,
            ).log() && final(metro).active() == old(metro).active(),
            old(metro).active().contains(self.track_id()) && (self.track_id()
                == to_track.track_id() || !old(metro).active().contains(to_track.track_id()))
                ==> final(metro).log() == old(metro).log().push(
                EventView::StopTrack(self.track_id()),
            ),
            old(metro).active().contains(self.track_id()) && self.track_id()
                != to_track.track_id() && old(metro).active().contains(to_track.track_id())
                ==> final(metro).log() == old(metro).log().push(
                EventView::JoinTrack(self.track_id(), to_track.track_id()),
            ),
            old(metro).active().contains(self.track_id()) ==> final(metro).active() == old(
                metro,
            ).active().remove(pos(old(metro).active(), self.track_id())),
    {
        metro.state.join_track(&self, to_track);
    }

    /// Whether this handle's id is no longer active.
    pub fn is_dangling(&self, metro: &Metro) -> (r: bool)
        ensures
            r == !metro.active().contains(self.track_id()),
    {
        let p = position(&metro.state.tracks, self.id);
        proof {
            if metro.active().contains(self.id) {
                crate::events::lemma_pos_found(metro.active(), self.id);
            }
        }
        p >= metro.state.tracks.len()
    }
}

/// No log that a `Metro` records ever holds an id twice among the active
/// tracks, at any point of its replay.
pub proof fn lemma_recorded_log_has_no_duplicates(m: &Metro, k: int)
    requires
        m.wf(),
        0 <= k <= m.log().len(),
    ensures
        replay(m.log().take(k)).no_duplicates(),
{
    lemma_replayable_prefix(m.log(), k);
    lemma_replay_distinct(m.log().take(k));
}

/// Drawing a copy of the recorded events with the default settings gives
/// what the registry draws itself.
pub proof fn lemma_events_round_trip(m: &Metro, copy: &crate::events::Metro)
    requires
        m.wf(),
        copy.log() == m.log(),
        copy.settings() == default_settings(),
    ensures
        replayable(copy.log()),
        render_text(copy.settings(), copy.log()) == render_text(default_settings(), m.log()),
{
}

} // verus!
