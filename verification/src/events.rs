//! Sample-accurate event windowing.
//!
//! Timed events (note on/off, control changes) are pulled from an external
//! source on demand, one at a time, and dispatched during the sub-block
//! whose sample range contains the event's offset.  An event pulled too
//! early is held — the window keeps at most one pending event — and
//! re-offered on the next sub-block, so placement needs neither the full
//! block's events in advance nor unbounded buffering.

use vstd::prelude::*;

use crate::prog::min_block;

verus! {

/// Payload of a timed event.
#[derive(Debug, Clone, Copy, PartialEq, Eq, Structural)]
pub enum EventKind {
    NoteOn { note: u8, vel: u8 },
    NoteOff { note: u8 },
    CtrlChange { ctrl: u8, value: u16 },
}

/// One timed event: a sample offset within the host block, a channel,
/// and its payload.
#[derive(Debug, Clone, Copy, PartialEq, Eq, Structural)]
pub struct Event {
    /// Sample offset within the host block.
    pub offs: usize,
    /// Event channel.
    pub channel: u8,
    /// What the event carries.
    pub kind: EventKind,
}

/// The events still to be pulled, oldest first.
pub struct EventSource {
    events: Vec<Event>,
    pos: usize,
}

impl View for EventSource {
    type V = Seq<Event>;

    closed spec fn view(&self) -> Seq<Event> {
        if self.pos <= self.events@.len() {
            self.events@.skip(self.pos as int)
        } else {
            Seq::empty()
        }
    }
}

impl EventSource {
    /// A source that will offer exactly `events`, in order.
    pub fn from_events(events: Vec<Event>) -> (src: Self)
        ensures
            src@ == events@,
    {
        proof {
            assert(events@.skip(0) =~= events@);
        }
        EventSource { events, pos: 0 }
    }

    /// Whether an event is ready to be pulled.
    pub fn ready(&self) -> (b: bool)
        ensures
            b <==> self@.len() > 0,
    {
        self.pos < self.events.len()
    }

    /// Pulls the next event, if one is ready.
    pub fn pull(&mut self) -> (r: Option<Event>)
        ensures
            old(self)@.len() == 0 ==> r is None && final(self)@ == old(self)@,
            old(self)@.len() > 0 ==> r == Some(old(self)@[0]) && final(self)@ == old(self)@.drop_first(),
    {
        if self.pos < self.events.len() {
            let e = self.events[self.pos];
            self.pos = self.pos + 1;
            proof {
                assert(self.events@.skip(self.pos as int) =~= old(self)@.drop_first());
            }
            Some(e)
        } else {
            None
        }
    }
}

/// An event offset falls inside the sub-block `start .. end`.
pub open spec fn ev_in_range(e: Event, start: int, end: int) -> bool {
    start <= e.offs < end
}

/// The pending-event stream: the held event, if any, followed by what the
/// source still offers.
pub open spec fn ev_stream(held: Option<Event>, src: Seq<Event>) -> Seq<Event> {
    match held {
        Some(e) => seq![e] + src,
        None => src,
    }
}

/// Number of leading stream events whose offset lies before `end`.
pub open spec fn count_before(stream: Seq<Event>, end: int) -> int
    decreases stream.len(),
{
    if stream.len() == 0 {
        0
    } else if stream[0].offs < end {
        1 + count_before(stream.drop_first(), end)
    } else {
        0
    }
}

/// `count_before` counts a prefix: it never exceeds the stream's length,
/// the counted events lie before `end`, and the first uncounted one does
/// not.
pub proof fn lemma_count_before(stream: Seq<Event>, end: int)
    ensures
        0 <= count_before(stream, end) <= stream.len(),
        forall|i: int|
            0 <= i < count_before(stream, end) ==> (#[trigger] stream[i]).offs < end,
        count_before(stream, end) < stream.len() ==> stream[count_before(stream, end)].offs
            >= end,
    decreases stream.len(),
{
    if stream.len() > 0 && stream[0].offs < end {
        lemma_count_before(stream.drop_first(), end);
        let c = count_before(stream, end);
        assert forall|i: int| 0 <= i < c implies (#[trigger] stream[i]).offs < end by {
            if i > 0 {
                assert(stream.drop_first()[i - 1] == stream[i]);
            }
        }
        if c < stream.len() {
            assert(stream.drop_first()[c - 1] == stream[c]);
        }
    }
}

/// The events are offered oldest-offset first.
pub open spec fn sorted_events(s: Seq<Event>) -> bool {
    forall|i: int, j: int|
        0 <= i <= j < s.len() ==> (#[trigger] s[i]).offs <= (#[trigger] s[j]).offs
}

/// Everything a run over the sub-blocks from frame `done` up to frame
/// `total` dispatches: for each sub-block, the pending events whose
/// offsets it covers, each tagged with the sub-block's start.
pub open spec fn block_dispatch(evts: Seq<Event>, done: int, total: int) -> Seq<(usize, Event)>
    decreases total - done,
{
    if done >= total {
        Seq::empty()
    } else {
        let n = min_block(total - done);
        let cnt = count_before(evts, done + n);
        Seq::new(cnt as nat, |i: int| ((done as usize), evts[i])) + block_dispatch(
            evts.skip(cnt),
            done + n,
            total,
        )
    }
}

/// The window that holds at most one pending event between sub-blocks.
pub struct EventWindowing {
    held: Option<Event>,
}

impl EventWindowing {
    /// The held event, if any.
    pub closed spec fn held(&self) -> Option<Event> {
        self.held
    }

    /// An empty window.
    pub fn new() -> (w: Self)
        ensures
            w.held() is None,
    {
        EventWindowing { held: None }
    }

    /// Offers the next pending event for the sub-block `start .. end`:
    /// pulls at most one event from the source, returns it when its offset
    /// lies in the sub-block, and otherwise holds it for a later offer.
    pub fn next_event_in_range(
        &mut self,
        src: &mut EventSource,
        start: usize,
        end: usize,
    ) -> (r: Option<Event>)
        ensures
            old(self).held() is None && old(src)@.len() == 0 ==> r is None && final(self).held()
                is None && final(src)@ == old(src)@,
            old(self).held() is None && old(src)@.len() > 0 ==> final(src)@ == old(
                src,
            )@.drop_first() && (if ev_in_range(old(src)@[0], start as int, end as int) {
                r == Some(old(src)@[0]) && final(self).held() is None
            } else {
                r is None && final(self).held() == Some(old(src)@[0])
            }),
            old(self).held() matches Some(e) ==> final(src)@ == old(src)@ && (if ev_in_range(
                e,
                start as int,
                end as int,
            ) {
                r == Some(e) && final(self).held() is None
            } else {
                r is None && final(self).held() == old(self).held()
            }),
    {
        if self.held.is_none() {
            match src.pull() {
                Some(e) => {
                    self.held = Some(e);
                },
                None => {
                    return None;
                },
            }
        }
        match self.held {
            Some(e) => {
                if start <= e.offs && e.offs < end {
                    self.held = None;
                    Some(e)
                } else {
                    None
                }
            },
            None => None,
        }
    }

    /// Dispatches every pending event that falls inside the sub-block
    /// `start .. end`, appending each to `dispatched` tagged with the
    /// sub-block's start.  Stops at the first event at or past `end` and
    /// holds it; events before `start` must already have been dispatched.
    pub fn collect_events(
        &mut self,
        src: &mut EventSource,
        start: usize,
        end: usize,
        dispatched: &mut Vec<(usize, Event)>,
    )
        requires
            start <= end,
            forall|i: int|
                0 <= i < ev_stream(old(self).held(), old(src)@).len() ==> (#[trigger] ev_stream(
                    old(self).held(),
                    old(src)@,
                )[i]).offs >= start,
        ensures
            ({
                let st0 = ev_stream(old(self).held(), old(src)@);
                let cnt = count_before(st0, end as int);
                &&& final(dispatched)@ == old(dispatched)@ + Seq::new(
                    cnt as nat,
                    |i: int| (start, st0[i]),
                )
                &&& ev_stream(final(self).held(), final(src)@) == st0.skip(cnt)
                &&& (cnt < st0.len() ==> final(self).held() == Some(st0[cnt]))
                &&& (cnt == st0.len() ==> final(self).held() is None)
            }),
    {
        let ghost st0 = ev_stream(old(self).held(), old(src)@);
        let ghost cnt = count_before(st0, end as int);
        proof {
            lemma_count_before(st0, end as int);
        }
        let ghost disp0 = dispatched@;
        let ghost mut k: int = 0;
        loop
            invariant
                start <= end,
                0 <= k <= cnt,
                cnt == count_before(st0, end as int),
                0 <= cnt <= st0.len(),
                forall|i: int| 0 <= i < cnt ==> (#[trigger] st0[i]).offs < end,
                cnt < st0.len() ==> st0[cnt as int].offs >= end,
                forall|i: int| 0 <= i < st0.len() ==> (#[trigger] st0[i]).offs >= start,
                ev_stream(self.held(), src@) == st0.skip(k),
                dispatched@ == disp0 + Seq::new(k as nat, |i: int| (start, st0[i])),
            ensures
                k == cnt,
                ev_stream(self.held(), src@) == st0.skip(cnt),
                dispatched@ == disp0 + Seq::new(cnt as nat, |i: int| (start, st0[i])),
                cnt < st0.len() ==> self.held() == Some(st0[cnt as int]),
                cnt == st0.len() ==> self.held() is None,
            decreases st0.len() - k,
        {
            match self.next_event_in_range(src, start, end) {
                Some(e) => {
                    proof {
                        assert(st0.skip(k).len() > 0);
                        assert(st0.skip(k)[0] == st0[k]);
                        assert(e == st0[k]);
                        assert(st0[k].offs < end);
                        assert(k < cnt) by {
                            if k >= cnt {
                                assert(cnt < st0.len());
                                assert(st0[cnt].offs >= end);
                                assert(k == cnt);
                            }
                        }
                        assert(st0.skip(k).drop_first() =~= st0.skip(k + 1));
                        assert(ev_stream(self.held(), src@) =~= st0.skip(k).drop_first());
                    }
                    dispatched.push((start, e));
                    proof {
                        assert(dispatched@ =~= disp0 + Seq::new(
                            (k + 1) as nat,
                            |i: int| (start, st0[i]),
                        ));
                        k = k + 1;
                    }
                },
                None => {
                    proof {
                        if k < cnt {
                            assert(st0.skip(k)[0] == st0[k]);
                            assert(st0[k].offs < end);
                            assert(st0[k].offs >= start);
                            assert(false);
                        }
                        if cnt < st0.len() {
                            assert(st0.skip(k)[0] == st0[k]);
                            assert(self.held() == Some(st0[cnt]));
                        } else {
                            assert(ev_stream(self.held(), src@).len() == 0);
                            if self.held() is Some {
                                assert(ev_stream(self.held(), src@).len() >= 1);
                            }
                        }
                    }
                    break;
                },
            }
        }
    }
}

} // verus!
