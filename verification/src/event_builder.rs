//! The event cache and the event builder.
//!
//! Modules send the pieces of one physical event at different times, so
//! several events are built at once. The cache keeps them in the order in
//! which they were last modified. When it holds more frames than its bound,
//! the event that was modified longest ago leaves it, whether or not all of
//! its frames have arrived.

use crate::error::EventBuilderError;
use crate::event::{append_spec, Event, EventView, TraceView};
use crate::fx_map::{fx_get, fx_insert, fx_new, fx_remove};
use crate::graw_frame::GrawFrame;
use crate::pad_map::{HardwareID, PadMap};
use fxhash::FxHashMap;
use std::collections::VecDeque;
use vstd::prelude::*;

verus! {

/// The views of the events in a map.
pub open spec fn event_views(m: Map<u32, Event>) -> Map<u32, EventView> {
    Map::new(|k: u32| m.contains_key(k), |k: u32| m[k]@)
}

/// The view of an event without frames.
pub open spec fn empty_event() -> EventView {
    EventView {
        event_id: 0,
        nframes: 0,
        timestamp: 0,
        timestampother: 0,
        traces: Map::<u32, TraceView>::empty(),
    }
}

/// The order after `id` was modified: `id` moves to the back, or is added there.
pub open spec fn touch(order: Seq<u32>, id: u32) -> Seq<u32> {
    if order.contains(id) {
        order.remove(order.index_of(id)).push(id)
    } else {
        order.push(id)
    }
}

/// The order after each of `ids` was modified in turn, starting from `order`.
pub open spec fn touch_all(order: Seq<u32>, ids: Seq<u32>) -> Seq<u32>
    decreases ids.len(),
{
    if ids.len() == 0 {
        order
    } else {
        touch(touch_all(order, ids.drop_last()), ids.last())
    }
}

/// The sum of the frame counts of the events named in `order`.
pub open spec fn frames_in(events: Map<u32, EventView>, order: Seq<u32>) -> int
    decreases order.len(),
{
    if order.len() == 0 {
        0
    } else {
        frames_in(events, order.drop_last()) + events[order.last()].nframes
    }
}

/// The events after a frame for `id` was added: the event with that id, or a
/// new one if there is none, takes the frame.
pub open spec fn add_spec(
    events: Map<u32, EventView>,
    pads: Map<u32, HardwareID>,
    frame: GrawFrame,
) -> Map<u32, EventView> {
    let id = frame.header.event_id;
    let prior = if events.contains_key(id) {
        events[id]
    } else {
        empty_event()
    };
    events.insert(id, append_spec(prior, pads, frame.header, frame.data@))
}

/// Moving `id` to the back keeps the order free of duplicates, keeps every
/// other id, and leaves `id` last.
pub proof fn lemma_touch(order: Seq<u32>, id: u32)
    requires
        order.no_duplicates(),
    ensures
        touch(order, id).no_duplicates(),
        touch(order, id).len() > 0,
        touch(order, id).last() == id,
        forall|x: u32| touch(order, id).contains(x) <==> (order.contains(x) || x == id),
        order.contains(id) ==> touch(order, id).len() == order.len(),
        !order.contains(id) ==> touch(order, id).len() == order.len() + 1,
{
    let t = touch(order, id);
    if order.contains(id) {
        let p = order.index_of(id);
        let rest = order.remove(p);
        order.remove_ensures(p);
        assert forall|x: u32| t.contains(x) implies (order.contains(x) || x == id) by {
            let j = choose|j: int| 0 <= j < t.len() && t[j] == x;
            if j < rest.len() {
                if j < p {
                    assert(order[j] == x);
                } else {
                    assert(order[j + 1] == x);
                }
            }
        }
        assert forall|x: u32| (order.contains(x) || x == id) implies t.contains(x) by {
            if x == id {
                assert(t[t.len() - 1] == x);
            } else {
                let j = choose|j: int| 0 <= j < order.len() && order[j] == x;
                if j < p {
                    assert(t[j] == x);
                } else {
                    assert(j != p);
                    assert(t[j - 1] == x);
                }
            }
        }
        assert forall|i: int, j: int| 0 <= i < t.len() && 0 <= j < t.len() && i != j implies t[i]
            != t[j] by {
            let oi = if i == rest.len() {
                p
            } else if i < p {
                i
            } else {
                i + 1
            };
            let oj = if j == rest.len() {
                p
            } else if j < p {
                j
            } else {
                j + 1
            };
            assert(t[i] == order[oi]);
            assert(t[j] == order[oj]);
            assert(oi != oj);
        }
    } else {
        assert forall|x: u32| t.contains(x) implies (order.contains(x) || x == id) by {
            let j = choose|j: int| 0 <= j < t.len() && t[j] == x;
            if j < order.len() {
                assert(order[j] == x);
            }
        }
        assert forall|x: u32| (order.contains(x) || x == id) implies t.contains(x) by {
            if x == id {
                assert(t[t.len() - 1] == x);
            } else {
                let j = choose|j: int| 0 <= j < order.len() && order[j] == x;
                assert(t[j] == x);
            }
        }
    }
}

/// An event that `order` does not name has no part in the sum.
pub proof fn lemma_frames_in_insert(
    events: Map<u32, EventView>,
    order: Seq<u32>,
    id: u32,
    e: EventView,
)
    requires
        !order.contains(id),
    ensures
        frames_in(events.insert(id, e), order) == frames_in(events, order),
    decreases order.len(),
{
    if order.len() > 0 {
        assert forall|x: u32| order.drop_last().contains(x) implies order.contains(x) by {
            let j = choose|j: int| 0 <= j < order.drop_last().len() && order.drop_last()[j] == x;
            assert(order[j] == x);
        }
        assert(order[order.len() - 1] == order.last());
        lemma_frames_in_insert(events, order.drop_last(), id, e);
    }
}

/// Taking one id out of the order takes its event's frames out of the sum.
pub proof fn lemma_frames_in_remove(events: Map<u32, EventView>, order: Seq<u32>, p: int)
    requires
        0 <= p < order.len(),
    ensures
        frames_in(events, order.remove(p)) == frames_in(events, order) - events[order[p]].nframes,
    decreases order.len(),
{
    if p == order.len() - 1 {
        assert(order.remove(p) =~= order.drop_last());
    } else {
        lemma_frames_in_remove(events, order.drop_last(), p);
        assert(order.remove(p).drop_last() =~= order.drop_last().remove(p));
        assert(order.remove(p).last() == order.last());
    }
}

/// With no negative frame count, the sum over a prefix of the order is at
/// most the sum over all of it, and no event has more frames than the sum.
pub proof fn lemma_frames_in_prefix(events: Map<u32, EventView>, order: Seq<u32>, n: int)
    requires
        0 <= n <= order.len(),
        forall|i: int| 0 <= i < order.len() ==> (#[trigger] events[order[i]]).nframes >= 0,
    ensures
        0 <= frames_in(events, order.take(n)) <= frames_in(events, order),
        n < order.len() ==> frames_in(events, order.take(n)) + events[order[n]].nframes
            <= frames_in(events, order),
    decreases order.len() - n,
{
    if n == order.len() {
        assert(order.take(n) =~= order);
        lemma_frames_in_nonnegative(events, order);
    } else {
        lemma_frames_in_prefix(events, order, n + 1);
        assert(order.take(n + 1).drop_last() =~= order.take(n));
        assert(order.take(n + 1).last() == order[n]);
        lemma_frames_in_nonnegative(events, order.take(n));
    }
}

/// With no negative frame count, the sum is not negative.
pub proof fn lemma_frames_in_nonnegative(events: Map<u32, EventView>, order: Seq<u32>)
    requires
        forall|i: int| 0 <= i < order.len() ==> (#[trigger] events[order[i]]).nframes >= 0,
    ensures
        0 <= frames_in(events, order),
    decreases order.len(),
{
    if order.len() > 0 {
        assert(events[order[order.len() - 1]].nframes >= 0);
        lemma_frames_in_nonnegative(events, order.drop_last());
    }
}

/// The events in flight, and their ids from the least recently modified
/// (front) to the most recently modified (back).
#[derive(Debug)]
pub struct EventCache {
    pub events: FxHashMap<u32, Event>,
    pub order: VecDeque<u32>,
}

impl EventCache {
    /// The order names every event once and nothing else; every event is
    /// well formed, stands under its own id and holds at least one frame.
    pub open spec fn wf(&self) -> bool {
        &&& self.order@.no_duplicates()
        &&& forall|id: u32| self.order@.contains(id) <==> self.events@.contains_key(id)
        &&& forall|id: u32| #[trigger]
            self.events@.contains_key(id) ==> self.events@[id].wf() && self.events@[id].event_id
                == id && self.events@[id].nframes >= 1
    }

    /// The events, by id.
    pub open spec fn views(&self) -> Map<u32, EventView> {
        event_views(self.events@)
    }

    /// The number of frames held, over all events.
    pub open spec fn size_spec(&self) -> int {
        frames_in(self.views(), self.order@)
    }

    /// A cache that holds nothing.
    pub fn new() -> (cache: EventCache)
        ensures
            cache.wf(),
            cache.order@ == Seq::<u32>::empty(),
            cache.views() == Map::<u32, EventView>::empty(),
            cache.size_spec() == 0,
    {
        let cache = EventCache { events: fx_new(), order: VecDeque::new() };
        assert(cache.views() =~= Map::<u32, EventView>::empty());
        cache
    }

    /// Adds a frame to the event with the frame's id, making that event if
    /// there is none, and moves the id to the back of the order. In a well
    /// formed cache this cannot fail.
    pub fn add_frame(&mut self, pad_map: &PadMap, frame: GrawFrame) -> (r: Result<
        (),
        EventBuilderError,
    >)
        requires
            old(self).wf(),
            pad_map.wf(),
            frame.wf(),
            old(self).size_spec() < i32::MAX,
        ensures
            r is Ok,
            final(self).wf(),
            final(self).order@ == touch(old(self).order@, frame.header.event_id),
            final(self).views() == add_spec(old(self).views(), pad_map.entries(), frame),
            final(self).size_spec() == old(self).size_spec() + 1,
    {
        let id: u32 = frame.header.event_id;
        let ghost order0 = self.order@;
        let ghost views0 = self.views();
        proof {
            lemma_touch(order0, id);
        }
        match fx_remove(&mut self.events, id) {
            Some(event) => {
                let mut event = event;
                let mut position: usize = 0;
                while position < self.order.len() && self.order[position] != id
                    invariant
                        position <= self.order.len(),
                        self.order@ == order0,
                        forall|j: int| 0 <= j < position ==> order0[j] != id,
                    decreases self.order.len() - position,
                {
                    position = position + 1;
                }
                assert(order0.contains(id));
                assert(order0[position as int] == id);
                assert(order0.index_of(id) == position);
                proof {
                    assert(views0[id] == event@);
                    assert forall|i: int| 0 <= i < order0.len() implies (
                    #[trigger] views0[order0[i]]).nframes >= 0 by {
                        assert(order0.contains(order0[i]));
                        assert(old(self).events@.contains_key(order0[i]));
                    }
                    lemma_frames_in_prefix(views0, order0, position as int);
                }
                match event.append_frame(pad_map, frame) {
                    Err(e) => {
                        return Err(EventBuilderError::from(e));
                    },
                    Ok(()) => {},
                }
                let _ = fx_insert(&mut self.events, id, event);
                let _ = self.order.remove(position);
                self.order.push_back(id);
                proof {
                    let rest = order0.remove(position as int);
                    assert(self.views() =~= add_spec(views0, pad_map.entries(), frame));
                    lemma_frames_in_remove(views0, order0, position as int);
                    assert(!rest.contains(id)) by {
                        order0.remove_ensures(position as int);
                        if rest.contains(id) {
                            let j = choose|j: int| 0 <= j < rest.len() && rest[j] == id;
                            if j < position {
                                assert(order0[j] == id);
                            } else {
                                assert(order0[j + 1] == id);
                            }
                        }
                    }
                    lemma_frames_in_insert(views0, rest, id, self.views()[id]);
                    assert(self.order@.drop_last() =~= rest);
                    assert(self.views() =~= views0.insert(id, self.views()[id]));
                    assert(self.order@ == touch(order0, id));
                    assert forall|x: u32|
                        self.order@.contains(x) <==> self.events@.contains_key(x) by {
                        assert(touch(order0, id).contains(x) <==> (order0.contains(x) || x == id));
                        assert(order0.contains(x) <==> old(self).events@.contains_key(x));
                    }
                }
            },
            None => {
                let mut event = Event::new();
                assert(event@ == empty_event());
                match event.append_frame(pad_map, frame) {
                    Err(e) => {
                        return Err(EventBuilderError::from(e));
                    },
                    Ok(()) => {},
                }
                let _ = fx_insert(&mut self.events, id, event);
                self.order.push_back(id);
                proof {
                    assert(self.views() =~= add_spec(views0, pad_map.entries(), frame));
                    lemma_frames_in_insert(views0, order0, id, self.views()[id]);
                    assert(self.order@.drop_last() =~= order0);
                    assert(self.views() =~= views0.insert(id, self.views()[id]));
                    assert(self.order@ == touch(order0, id));
                    assert forall|x: u32|
                        self.order@.contains(x) <==> self.events@.contains_key(x) by {
                        assert(touch(order0, id).contains(x) <==> (order0.contains(x) || x == id));
                        assert(order0.contains(x) <==> old(self).events@.contains_key(x));
                    }
                }
            },
        }
        Ok(())
    }

    /// Takes the least recently modified event out of the cache. Only an
    /// empty cache has none to give.
    pub fn get_lru_event(&mut self) -> (r: Result<Event, EventBuilderError>)
        requires
            old(self).wf(),
        ensures
            final(self).wf(),
            match r {
                Ok(event) => {
                    &&& old(self).order@.len() > 0
                    &&& event.wf()
                    &&& event@ == old(self).views()[old(self).order@[0]]
                    &&& final(self).order@ == old(self).order@.drop_first()
                    &&& final(self).views() == old(self).views().remove(old(self).order@[0])
                    &&& final(self).size_spec() == old(self).size_spec() - event@.nframes
                },
                Err(e) => {
                    &&& old(self).order@.len() == 0
                    &&& e == EventBuilderError::BrokenCache
                    &&& final(self).order@ == old(self).order@
                    &&& final(self).views() == old(self).views()
                },
            },
    {
        let ghost order0 = self.order@;
        let ghost views0 = self.views();
        match self.order.pop_front() {
            Some(least_recently_used) => {
                assert(order0.contains(order0[0]));
                assert(self.order@ =~= order0.drop_first());
                assert(order0.remove(0) =~= order0.drop_first());
                match fx_remove(&mut self.events, least_recently_used) {
                    Some(event) => {
                        proof {
                            assert(self.views() =~= views0.remove(least_recently_used));
                            lemma_frames_in_remove(views0, order0, 0);
                            let rest = order0.drop_first();
                            assert(!rest.contains(least_recently_used)) by {
                                if rest.contains(least_recently_used) {
                                    let j = choose|j: int|
                                        0 <= j < rest.len() && rest[j] == least_recently_used;
                                    assert(order0[j + 1] == least_recently_used);
                                }
                            }
                            lemma_frames_in_insert(self.views(), rest, least_recently_used, event@);
                            assert(self.views().insert(least_recently_used, event@) =~= views0);
                            assert forall|id: u32| rest.contains(id) <==> (order0.contains(id)
                                && id != least_recently_used) by {
                                if rest.contains(id) {
                                    let j = choose|j: int| 0 <= j < rest.len() && rest[j] == id;
                                    assert(order0[j + 1] == id);
                                }
                                if order0.contains(id) && id != least_recently_used {
                                    let j = choose|j: int| 0 <= j < order0.len() && order0[j] == id;
                                    assert(rest[j - 1] == id);
                                }
                            }
                        }
                        Ok(event)
                    },
                    None => Err(EventBuilderError::BrokenCache),
                }
            },
            None => Err(EventBuilderError::BrokenCache),
        }
    }

    /// The number of frames held, over all events.
    pub fn size(&self) -> (n: usize)
        requires
            self.wf(),
            self.size_spec() <= usize::MAX,
        ensures
            n == self.size_spec(),
    {
        let mut total: usize = 0;
        let mut i: usize = 0;
        proof {
            assert forall|j: int| 0 <= j < self.order@.len() implies (
            #[trigger] self.views()[self.order@[j]]).nframes >= 0 by {
                assert(self.order@.contains(self.order@[j]));
                assert(self.events@.contains_key(self.order@[j]));
            }
            assert(self.order@.take(0) =~= Seq::<u32>::empty());
        }
        while i < self.order.len()
            invariant
                i <= self.order.len(),
                self.wf(),
                self.size_spec() <= usize::MAX,
                total == frames_in(self.views(), self.order@.take(i as int)),
                forall|j: int|
                    0 <= j < self.order@.len() ==> (#[trigger] self.views()[self.order@[j]]).nframes
                        >= 0,
            decreases self.order.len() - i,
        {
            let id: u32 = self.order[i];
            assert(self.order@.contains(id));
            proof {
                lemma_frames_in_prefix(self.views(), self.order@, i as int);
                assert(self.order@.take(i as int + 1).drop_last() =~= self.order@.take(i as int));
                assert(self.order@.take(i as int + 1).last() == id);
            }
            match fx_get(&self.events, id) {
                Some(event) => {
                    total = total + event.get_nframes();
                },
                None => {},
            }
            i = i + 1;
        }
        assert(self.order@.take(i as int) =~= self.order@);
        total
    }
}

/// In a well formed cache the order and the events name the same ids, and
/// there are as many of the one as of the other.
pub proof fn lemma_order_matches_events(cache: &EventCache)
    requires
        cache.wf(),
    ensures
        cache.order@.to_set() == cache.events@.dom(),
        cache.order@.len() == cache.events@.dom().len(),
{
    assert(cache.order@.to_set() =~= cache.events@.dom());
    cache.order@.unique_seq_to_set();
}

/// The place in `ids` at which `id` occurs last, or -1 if it does not occur.
pub open spec fn last_touch(ids: Seq<u32>, id: u32) -> int
    decreases ids.len(),
{
    if ids.len() == 0 {
        -1
    } else if ids.last() == id {
        ids.len() - 1
    } else {
        last_touch(ids.drop_last(), id)
    }
}

/// `last_touch` is a place in `ids` exactly for the ids that occur in it.
pub proof fn lemma_last_touch_bounds(ids: Seq<u32>, id: u32)
    ensures
        -1 <= last_touch(ids, id) < ids.len(),
        last_touch(ids, id) >= 0 <==> ids.contains(id),
        last_touch(ids, id) >= 0 ==> ids[last_touch(ids, id)] == id,
    decreases ids.len(),
{
    if ids.len() > 0 {
        lemma_last_touch_bounds(ids.drop_last(), id);
        if ids.last() == id {
            assert(ids[ids.len() - 1] == id);
        } else {
            if ids.contains(id) {
                let j = choose|j: int| 0 <= j < ids.len() && ids[j] == id;
                assert(ids.drop_last()[j] == id);
            }
            if ids.drop_last().contains(id) {
                let j = choose|j: int|
                    0 <= j < ids.drop_last().len() && ids.drop_last()[j] == id;
                assert(ids[j] == id);
            }
        }
    }
}

/// After frames with the event ids `ids` were added, one after the other, to
/// a cache with the order `order`: the new order holds the old ids and those
/// of the frames, each once. The events that got no frame come first, in
/// their old order; behind them come those that got one, an event before
/// another exactly when its last frame came earlier. So the front of the
/// order is always the event that was modified longest ago.
pub proof fn lemma_order_is_by_last_touch(order: Seq<u32>, ids: Seq<u32>)
    requires
        order.no_duplicates(),
    ensures
        ({
            let after = touch_all(order, ids);
            &&& after.no_duplicates()
            &&& forall|x: u32| after.contains(x) <==> (order.contains(x) || ids.contains(x))
            &&& forall|i: int, j: int|
                0 <= i < j < after.len() ==> {
                    ||| last_touch(ids, #[trigger] after[i]) < last_touch(ids, #[trigger] after[j])
                    ||| (last_touch(ids, after[i]) == -1 && last_touch(ids, after[j]) == -1
                        && order.index_of(after[i]) < order.index_of(after[j]))
                }
        }),
    decreases ids.len(),
{
    if ids.len() == 0 {
        assert forall|x: u32| order.contains(x) <==> (order.contains(x) || ids.contains(x)) by {}
        assert forall|i: int, j: int| 0 <= i < j < order.len() implies (last_touch(
            ids,
            #[trigger] order[i],
        ) == -1 && last_touch(ids, #[trigger] order[j]) == -1 && order.index_of(order[i])
            < order.index_of(order[j])) by {
            assert(order.contains(order[i]));
            assert(order.contains(order[j]));
        }
    } else {
        let prev = ids.drop_last();
        let id = ids.last();
        lemma_order_is_by_last_touch(order, prev);
        let o = touch_all(order, prev);
        let t = touch(o, id);
        lemma_touch(o, id);
        assert forall|x: u32| t.contains(x) <==> (order.contains(x) || ids.contains(x)) by {
            lemma_last_touch_bounds(ids, x);
            lemma_last_touch_bounds(prev, x);
            assert(t.contains(x) <==> (o.contains(x) || x == id));
        }
        assert forall|i: int, j: int| 0 <= i < j < t.len() implies {
            ||| last_touch(ids, #[trigger] t[i]) < last_touch(ids, #[trigger] t[j])
            ||| (last_touch(ids, t[i]) == -1 && last_touch(ids, t[j]) == -1 && order.index_of(t[i])
                < order.index_of(t[j]))
        } by {
            assert(t[t.len() - 1] == id);
            assert(t[i] != id);
            lemma_last_touch_bounds(prev, t[i]);
            if j == t.len() - 1 {
            } else {
                assert(t[j] != id);
                if o.contains(id) {
                    let p = o.index_of(id);
                    o.remove_ensures(p);
                    let oi = if i < p {
                        i
                    } else {
                        i + 1
                    };
                    let oj = if j < p {
                        j
                    } else {
                        j + 1
                    };
                    assert(t[i] == o[oi]);
                    assert(t[j] == o[oj]);
                } else {
                    assert(t[i] == o[i]);
                    assert(t[j] == o[j]);
                }
            }
        }
    }
}

/// The decisions of the event-building task: it owns the pad map and the
/// cache, takes one frame at a time and says which event, if any, is to be
/// sent on. Receiving frames and sending events is left to the caller.
#[derive(Debug)]
pub struct EventBuilder {
    pub pad_map: PadMap,
    pub event_cache: EventCache,
    pub max_cache_size: usize,
}

impl EventBuilder {
    /// The pad map and the cache are well formed.
    pub open spec fn wf(&self) -> bool {
        self.pad_map.wf() && self.event_cache.wf()
    }

    /// A builder with an empty cache that may hold `max_cache_size` frames.
    pub fn new(pad_map: PadMap, max_cache_size: usize) -> (builder: EventBuilder)
        requires
            pad_map.wf(),
        ensures
            builder.wf(),
            builder.pad_map == pad_map,
            builder.max_cache_size == max_cache_size,
            builder.event_cache.order@ == Seq::<u32>::empty(),
            builder.event_cache.views() == Map::<u32, EventView>::empty(),
    {
        EventBuilder { pad_map, event_cache: EventCache::new(), max_cache_size }
    }

    /// Adds `frame` to the cache. If the cache then holds more frames than
    /// its bound, the least recently modified event leaves it and is
    /// returned, to be sent on; it may be incomplete. One frame evicts at
    /// most one event, so the cache can stay over its bound while frames of
    /// its only event keep arriving.
    pub fn process_frame(&mut self, frame: GrawFrame) -> (r: Result<
        Option<Event>,
        EventBuilderError,
    >)
        requires
            old(self).wf(),
            frame.wf(),
            old(self).event_cache.size_spec() < i32::MAX,
        ensures
            final(self).wf(),
            final(self).pad_map == old(self).pad_map,
            final(self).max_cache_size == old(self).max_cache_size,
            ({
                let order = touch(old(self).event_cache.order@, frame.header.event_id);
                let events = add_spec(
                    old(self).event_cache.views(),
                    old(self).pad_map.entries(),
                    frame,
                );
                match r {
                    Ok(Some(event)) => {
                        &&& old(self).event_cache.size_spec() + 1 > old(self).max_cache_size
                        &&& event.wf()
                        &&& event@ == events[order[0]]
                        &&& final(self).event_cache.order@ == order.drop_first()
                        &&& final(self).event_cache.views() == events.remove(order[0])
                    },
                    Ok(None) => {
                        &&& old(self).event_cache.size_spec() + 1 <= old(self).max_cache_size
                        &&& final(self).event_cache.order@ == order
                        &&& final(self).event_cache.views() == events
                    },
                    Err(_) => false,
                }
            }),
    {
        proof {
            lemma_touch(self.event_cache.order@, frame.header.event_id);
        }
        match self.event_cache.add_frame(&self.pad_map, frame) {
            Err(e) => {
                return Err(e);
            },
            Ok(()) => {},
        }
        if self.event_cache.size() > self.max_cache_size {
            match self.event_cache.get_lru_event() {
                Err(e) => Err(e),
                Ok(event) => Ok(Some(event)),
            }
        } else {
            Ok(None)
        }
    }
}

} // verus!
