use vstd::prelude::*;
use crate::data::auto_schedule::event_view;
use crate::data::{Data, DataError, Event, EventView, LogItem, State};
use crate::index::ids_between;
use crate::store::ev::{Ev, EvView};
use crate::store::pj::PjView;

verus! {

/// Hands out the event `ev` of the store.
pub(crate) fn to_event(ev: &Ev) -> (e: Event)
    ensures
        e@ == event_view(*ev),
{
    Event { id: ev.id, name: ev.name.clone(), time: ev.time, state: ev.state, quota: ev.quota_esti }
}

impl Data {
    /// The ids of the events with a time in `lo <= t < hi`, in order of
    /// their times.
    pub open(crate) spec fn events_between(&self, lo: int, hi: int) -> Seq<usize> {
        ids_between(self.ev.time@, lo, hi)
    }

    /// The events from the time `utc_range.0` up to, but not at,
    /// `utc_range.1`, in order of their times.
    pub fn get_event_by_range(&self, utc_range: (i64, i64)) -> (events: Vec<Event>)
        requires
            self.wf(),
        ensures
            events@.len() == self.events_between(utc_range.0 as int, utc_range.1 as int).len(),
            forall|j: int|
                0 <= j < events@.len() ==> (#[trigger] events@[j])@ == event_view(
                    self.events().at(
                        self.events_between(utc_range.0 as int, utc_range.1 as int)[j] as int,
                    ),
                ) && utc_range.0 <= events@[j].time < utc_range.1,
    {
        let ids = self.ev.time.range(utc_range.0, Some(utc_range.1));
        let mut events: Vec<Event> = Vec::new();
        let mut j: usize = 0;
        while j < ids.len()
            invariant
                j <= ids@.len(),
                self.ev.wf(),
                ids@ == self.events_between(utc_range.0 as int, utc_range.1 as int),
                events@.len() == j,
                forall|m: int|
                    0 <= m < j ==> (#[trigger] events@[m])@ == event_view(
                        self.ev.at(ids@[m] as int),
                    ) && utc_range.0 <= events@[m].time < utc_range.1,
            decreases ids@.len() - j,
        {
            let id = ids[j];
            proof {
                crate::index::lemma_ids_between_from(
                    self.ev.time@,
                    utc_range.0 as int,
                    utc_range.1 as int,
                    j as int,
                );
                let k = choose|k: int|
                    0 <= k < self.ev.time@.len() && (#[trigger] self.ev.time@[k]).1 == ids@[j as int]
                        && utc_range.0 <= self.ev.time@[k].0 < utc_range.1;
                assert(self.ev.time.has(self.ev.time@[k].0, self.ev.time@[k].1));
            }
            events.push(to_event(self.ev.rec(id)));
            j += 1;
        }
        events
    }

    /// Why the request `e` is refused, where it is.
    pub open(crate) spec fn event_refusal(&self, e: Event) -> Option<DataError> {
        let fresh = e.id >= self.ev@.len();
        let was = self.ev.at(e.id as int);
        if (fresh || was.name@ != e.name@) && self.ev.named(e.name@) {
            Some(DataError::IndexError("event item name is not unique"))
        } else if (fresh || was.time != e.time) && self.ev.timed(e.time) {
            Some(DataError::IndexError("event item time is not unique"))
        } else if !fresh && was.state != State::Todo && was.state != e.state {
            Some(DataError::InvalidStateChange)
        } else {
            None
        }
    }

    /// The event store after the request `e`: a new event at the next free
    /// place where the id of `e` lies beyond the store, else the event of that
    /// id with the values of `e`.
    pub open(crate) spec fn after_event(&self, e: Event) -> Seq<Option<EvView>> {
        if e.id >= self.ev@.len() {
            self.ev@.push(
                Some(
                    EvView {
                        id: self.ev@.len() as usize,
                        pp: 0,
                        name: e.name@,
                        time: e.time,
                        quota_esti: e.quota,
                        color: (0u8, 0u8, 0u8),
                        state: e.state,
                    },
                ),
            )
        } else {
            self.ev@.update(
                e.id as int,
                Some(
                    EvView {
                        name: e.name@,
                        time: e.time,
                        quota_esti: e.quota,
                        state: e.state,
                        ..self.ev.at(e.id as int)@
                    },
                ),
            )
        }
    }

    /// Takes in the event `event`: as a new event of the root project where
    /// its id lies beyond the store, else as a change to the event of that id.
    /// The name and the time of an event are not those of another, and an
    /// event that is done or given up keeps its state. A request that is
    /// refused changes nothing.
    pub fn upsert_event(&mut self, event: Event) -> (r: Result<(), DataError>)
        requires
            old(self).wf(),
        ensures
            final(self).wf(),
            final(self).zone() == old(self).zone(),
            r is Ok <==> old(self).event_refusal(event) is None,
            r is Ok ==> {
                let n = old(self).changes().len() as int;
                let fresh = event.id >= old(self).events()@.len();
                &&& final(self).events()@ == old(self).after_event(event)
                &&& !fresh ==> final(self).projects() == old(self).projects()
                &&& fresh ==> final(self).projects()@ == old(self).projects()@.update(
                    0,
                    Some(
                        PjView {
                            chev: old(self).projects().at(0)@.chev.insert(
                                old(self).events()@.len() as usize,
                            ),
                            ..old(self).projects().at(0)@
                        },
                    ),
                )
                &&& final(self).changes().len() == n + 1
                &&& final(self).changes().subrange(0, n) == old(self).changes()
                &&& fresh ==> (final(self).changes()[n] matches LogItem::EventItemInsert(x) && x@
                    == event_view(final(self).events().at(old(self).events()@.len() as int)))
                &&& !fresh ==> (final(self).changes()[n] matches LogItem::EventItemUpdate(a, b)
                    && a@ == event_view(old(self).events().at(event.id as int)) && b@
                    == event_view(final(self).events().at(event.id as int)))
            },
            r matches Err(e) ==> *final(self) == *old(self) && Some(e) == old(self).event_refusal(
                event,
            ),
    {
        let n = self.ev.vect.len();
        let fresh = event.id >= n;
        if fresh {
            if self.ev.find(event.name.as_str()).is_some() {
                return Err(DataError::IndexError("event item name is not unique"));
            }
            if self.ev.find_at(event.time).is_some() {
                return Err(DataError::IndexError("event item time is not unique"));
            }
            let ghost prev = *self;
            let ev = Ev {
                id: n,
                pp: 0,
                name: event.name,
                time: event.time,
                quota_esti: event.quota,
                color: (0, 0, 0),
                state: event.state,
            };
            let _ = self.ev.create(ev, &mut self.pj);
            proof {
                self.ev.lemma_view();
                self.pj.lemma_view();
                prev.pj.lemma_view();
                assert(self.ev@[n as int] is Some);
                assert forall|i: int| 0 <= i < self.ev.vect@.len() implies #[trigger] self.ev.live(
                    i,
                ) by {
                    if i < n {
                        assert(prev.ev.live(i));
                        prev.ev.lemma_view();
                        assert(self.ev@[i] is Some);
                    }
                }
                assert forall|i: int| 0 <= i < self.pj.vect@.len() implies #[trigger] self.pj.live(
                    i,
                ) by {
                    assert(prev.pj.live(i));
                    assert(self.pj@[i] is Some);
                }
            }
            self.log.push(LogItem::EventItemInsert(to_event(self.ev.rec(n))));
            proof {
                assert(self.log@.subrange(0, prev.log@.len() as int) =~= prev.log@);
            }
            return Ok(());
        }
        assert(self.ev.live(event.id as int));
        let id = event.id;
        let was = self.ev.rec(id);
        let renamed = !(was.name == event.name);
        let retimed = was.time != event.time;
        if renamed && self.ev.find(event.name.as_str()).is_some() {
            return Err(DataError::IndexError("event item name is not unique"));
        }
        if retimed && self.ev.find_at(event.time).is_some() {
            return Err(DataError::IndexError("event item time is not unique"));
        }
        if was.state != State::Todo && was.state != event.state {
            return Err(DataError::InvalidStateChange);
        }
        let ghost prev = *self;
        let ghost given = event;
        let before = to_event(was);
        proof {
            prev.ev.lemma_view();
        }
        if renamed {
            let _ = self.ev.update_name(id, event.name);
        }
        let ghost s1 = self.ev;
        proof {
            s1.lemma_view();
            assert(s1@ =~= prev.ev@.update(
                id as int,
                Some(EvView { name: given.name@, ..prev.ev.at(id as int)@ }),
            ));
            assert(s1@[id as int] is Some);
            assert(s1@[id as int] == Some(s1.at(id as int)@));
            assert(prev.ev@[id as int] == Some(prev.ev.at(id as int)@));
            if retimed {
                assert(!s1.timed(event.time)) by {
                    if s1.timed(event.time) {
                        let i = choose|i: int| s1.live(i) && (#[trigger] s1.at(i)).time
                            == event.time;
                        assert(s1@[i] == Some(s1.at(i)@));
                        assert(prev.ev@[i] is Some);
                        assert(prev.ev@[i] == Some(prev.ev.at(i)@));
                        assert(prev.ev.at(i).time == event.time);
                    }
                }
            }
        }
        if retimed {
            let _ = self.ev.update_time(id, event.time);
        }
        let ghost s2 = self.ev;
        proof {
            s2.lemma_view();
            assert(s2@ =~= s1@.update(
                id as int,
                Some(EvView { time: given.time, ..s1.at(id as int)@ }),
            ));
            assert(s2@[id as int] is Some);
        }
        let _ = self.ev.update_quota_esti(id, event.quota);
        let ghost s3 = self.ev;
        proof {
            s3.lemma_view();
            assert(s3@[id as int] is Some);
            assert(s3@[id as int] == Some(s3.at(id as int)@));
            assert(s2@[id as int] == Some(s2.at(id as int)@));
        }
        let _ = self.ev.update_state(id, event.state);
        proof {
            self.ev.lemma_view();
            assert(self.ev@ =~= prev.after_event(given));
            assert forall|i: int| 0 <= i < self.ev.vect@.len() implies #[trigger] self.ev.live(
                i,
            ) by {
                assert(prev.ev.live(i));
                assert(self.ev@[i] is Some);
            }
            assert(self.ev@[id as int] is Some);
        }
        self.log.push(LogItem::EventItemUpdate(before, to_event(self.ev.rec(id))));
        proof {
            assert(self.log@.subrange(0, prev.log@.len() as int) =~= prev.log@);
        }
        Ok(())
    }
}

} // verus!
