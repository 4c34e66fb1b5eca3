//! An event: the traces of all frames that share one event id.
//!
//! Nothing on the wire says that an event is complete. An event leaves the
//! cache when newer events crowd it out, so the event handed on may lack
//! frames that had not arrived by then.

use crate::constants::{COBO_WITH_TIMESTAMP, NUMBER_OF_MATRIX_COLUMNS, NUMBER_OF_TIME_BUCKETS};
use crate::error::EventError;
use crate::fx_map::{fx_insert, fx_keys, fx_new, fx_remove, fx_get};
use crate::graw_frame::{GrawData, GrawFrame, GrawFrameHeader};
use crate::pad_map::{hardware_key, make_key, HardwareID, PadMap};
use fxhash::FxHashMap;
use vstd::prelude::*;

verus! {

/// The samples of one pad, one per time bucket.
#[derive(Debug)]
pub struct Trace {
    pub hw_id: HardwareID,
    pub samples: Vec<i16>,
}

/// A trace as a mathematical value.
pub struct TraceView {
    pub hw_id: HardwareID,
    pub samples: Seq<i16>,
}

impl View for Trace {
    type V = TraceView;

    open spec fn view(&self) -> TraceView {
        TraceView { hw_id: self.hw_id, samples: self.samples@ }
    }
}

/// An event as a mathematical value; the traces stand under the key of their
/// hardware coordinates.
pub struct EventView {
    pub event_id: u32,
    pub nframes: int,
    pub timestamp: u64,
    pub timestampother: u64,
    pub traces: Map<u32, TraceView>,
}

/// An event under construction.
#[derive(Debug)]
pub struct Event {
    pub nframes: i32,
    pub traces: FxHashMap<u32, Trace>,
    pub timestamp: u64,
    pub timestampother: u64,
    pub event_id: u32,
}

/// The views of the traces in a map.
pub open spec fn trace_views(m: Map<u32, Trace>) -> Map<u32, TraceView> {
    Map::new(|k: u32| m.contains_key(k), |k: u32| m[k]@)
}

/// A trace of zeros.
pub open spec fn zero_samples() -> Seq<i16> {
    Seq::new(NUMBER_OF_TIME_BUCKETS as nat, |i: int| 0i16)
}

/// The traces after one datum of a frame from (`cobo`, `asad`): with no pad
/// for its coordinates the datum is dropped; else its sample is written at
/// its time bucket, into a trace of zeros if the pad had none yet.
pub open spec fn put_datum(
    traces: Map<u32, TraceView>,
    pads: Map<u32, HardwareID>,
    cobo: u8,
    asad: u8,
    d: GrawData,
) -> Map<u32, TraceView> {
    let key = hardware_key(cobo, asad, d.aget_id, d.channel);
    if pads.contains_key(key) {
        let before = if traces.contains_key(key) {
            traces[key]
        } else {
            TraceView { hw_id: pads[key], samples: zero_samples() }
        };
        traces.insert(
            key,
            TraceView {
                hw_id: before.hw_id,
                samples: before.samples.update(d.time_bucket_id as int, d.sample),
            },
        )
    } else {
        traces
    }
}

/// The traces after all of `data`, taken in order.
pub open spec fn put_data(
    traces: Map<u32, TraceView>,
    pads: Map<u32, HardwareID>,
    cobo: u8,
    asad: u8,
    data: Seq<GrawData>,
) -> Map<u32, TraceView>
    decreases data.len(),
{
    if data.len() == 0 {
        traces
    } else {
        put_datum(put_data(traces, pads, cobo, asad, data.drop_last()), pads, cobo, asad, data.last())
    }
}

/// The event after a frame with this header and data was appended. The first
/// frame gives the event its id. The time of a frame from the CoBo with the
/// synchronised clock goes to `timestampother` while that is still 0; the
/// time of any other frame goes to `timestamp` while that is still 0.
pub open spec fn append_spec(
    e: EventView,
    pads: Map<u32, HardwareID>,
    header: GrawFrameHeader,
    data: Seq<GrawData>,
) -> EventView {
    let to_other = header.cobo_id == COBO_WITH_TIMESTAMP && e.timestampother == 0;
    EventView {
        event_id: if e.nframes == 0 {
            header.event_id
        } else {
            e.event_id
        },
        nframes: e.nframes + 1,
        timestamp: if !to_other && e.timestamp == 0 {
            header.event_time
        } else {
            e.timestamp
        },
        timestampother: if to_other {
            header.event_time
        } else {
            e.timestampother
        },
        traces: put_data(e.traces, pads, header.cobo_id, header.asad_id, data),
    }
}

/// Whether every trace in the map has one sample per time bucket and stands
/// under the key of its own coordinates.
pub open spec fn traces_wf(traces: Map<u32, TraceView>) -> bool {
    forall|k: u32| #[trigger]
        traces.contains_key(k) ==> traces[k].samples.len() == NUMBER_OF_TIME_BUCKETS
            && traces[k].hw_id.key() == k
}

/// The matrix row of a trace: CoBo, AsAd, AGET, channel and pad, then the samples.
pub open spec fn matrix_row(t: TraceView) -> Seq<i16> {
    seq![
        t.hw_id.cobo_id as i16,
        t.hw_id.asad_id as i16,
        t.hw_id.aget_id as i16,
        t.hw_id.channel as i16,
        t.hw_id.pad_id as i16,
    ] + t.samples
}

/// Whether some datum of `data`, in a frame from (`cobo`, `asad`), has the
/// coordinates with the key `key`.
pub open spec fn names_key(cobo: u8, asad: u8, data: Seq<GrawData>, key: u32) -> bool {
    exists|i: int|
        0 <= i < data.len() && hardware_key(
            cobo,
            asad,
            (#[trigger] data[i]).aget_id,
            data[i].channel,
        ) == key
}

/// The traces after a frame are those before it and one for each pad that
/// the pad map gives to a datum of the frame. A datum whose coordinates the
/// pad map does not hold makes no trace.
pub proof fn lemma_put_data_keys(
    traces: Map<u32, TraceView>,
    pads: Map<u32, HardwareID>,
    cobo: u8,
    asad: u8,
    data: Seq<GrawData>,
)
    ensures
        forall|key: u32|
            #[trigger] put_data(traces, pads, cobo, asad, data).contains_key(key) <==> (
            traces.contains_key(key) || (pads.contains_key(key) && names_key(
                cobo,
                asad,
                data,
                key,
            ))),
    decreases data.len(),
{
    if data.len() > 0 {
        let front = data.drop_last();
        let d = data.last();
        lemma_put_data_keys(traces, pads, cobo, asad, front);
        let mid = put_data(traces, pads, cobo, asad, front);
        let after = put_data(traces, pads, cobo, asad, data);
        let dk = hardware_key(cobo, asad, d.aget_id, d.channel);
        assert forall|key: u32| #[trigger]
            after.contains_key(key) <==> (traces.contains_key(key) || (pads.contains_key(key)
                && names_key(cobo, asad, data, key))) by {
            if names_key(cobo, asad, front, key) {
                let i = choose|i: int|
                    0 <= i < front.len() && hardware_key(
                        cobo,
                        asad,
                        (#[trigger] front[i]).aget_id,
                        front[i].channel,
                    ) == key;
                assert(data[i] == front[i]);
            }
            if names_key(cobo, asad, data, key) {
                let i = choose|i: int|
                    0 <= i < data.len() && hardware_key(
                        cobo,
                        asad,
                        (#[trigger] data[i]).aget_id,
                        data[i].channel,
                    ) == key;
                if i < front.len() {
                    assert(front[i] == data[i]);
                } else {
                    assert(data[i] == d);
                }
            }
            if key == dk {
                assert(data[data.len() - 1] == d);
            }
        }
    }
}

/// Appending a frame keeps the traces well formed: each has one sample per
/// time bucket and stands under the key of its own coordinates.
pub proof fn lemma_put_data_wf(
    traces: Map<u32, TraceView>,
    pads: Map<u32, HardwareID>,
    cobo: u8,
    asad: u8,
    data: Seq<GrawData>,
)
    requires
        traces_wf(traces),
        forall|k: u32| #[trigger] pads.contains_key(k) ==> pads[k].key() == k,
        forall|i: int| 0 <= i < data.len() ==> (#[trigger] data[i]).in_range(),
    ensures
        traces_wf(put_data(traces, pads, cobo, asad, data)),
    decreases data.len(),
{
    if data.len() > 0 {
        lemma_put_data_wf(traces, pads, cobo, asad, data.drop_last());
        assert(data[data.len() - 1].in_range());
    }
}

/// An event as a dense matrix, one row per trace.
#[derive(Debug)]
pub struct DataMatrix {
    pub rows: Vec<Vec<i16>>,
}

impl View for Event {
    type V = EventView;

    open spec fn view(&self) -> EventView {
        EventView {
            event_id: self.event_id,
            nframes: self.nframes as int,
            timestamp: self.timestamp,
            timestampother: self.timestampother,
            traces: trace_views(self.traces@),
        }
    }
}

impl Event {
    /// The frame count is not negative and the traces are well formed.
    pub open spec fn wf(&self) -> bool {
        &&& self.nframes >= 0
        &&& traces_wf(self@.traces)
    }

    /// An event without frames.
    pub fn new() -> (e: Event)
        ensures
            e.wf(),
            e@.nframes == 0,
            e@.event_id == 0,
            e@.timestamp == 0,
            e@.timestampother == 0,
            e@.traces == Map::<u32, TraceView>::empty(),
    {
        let e = Event { nframes: 0, traces: fx_new(), timestamp: 0, timestampother: 0, event_id: 0 };
        assert(e@.traces =~= Map::<u32, TraceView>::empty());
        e
    }

    /// Appends a frame. A frame whose event id differs from that of the
    /// frames before it is refused and leaves the event as it was.
    pub fn append_frame(&mut self, pad_map: &PadMap, frame: GrawFrame) -> (r: Result<
        (),
        EventError,
    >)
        requires
            old(self).wf(),
            pad_map.wf(),
            frame.wf(),
            old(self).nframes < i32::MAX,
        ensures
            final(self).wf(),
            match r {
                Ok(()) => (old(self)@.nframes == 0 || old(self)@.event_id == frame.header.event_id)
                    && final(self)@ == append_spec(
                    old(self)@,
                    pad_map.entries(),
                    frame.header,
                    frame.data@,
                ),
                Err(e) => old(self)@.nframes != 0 && old(self)@.event_id != frame.header.event_id
                    && e == EventError::MismatchedEventID(
                    frame.header.event_id,
                    old(self)@.event_id,
                ) && final(self)@ == old(self)@,
            },
    {
        if self.nframes == 0 {
            self.event_id = frame.header.event_id;
        } else if self.event_id != frame.header.event_id {
            return Err(EventError::MismatchedEventID(frame.header.event_id, self.event_id));
        }
        if frame.header.cobo_id == COBO_WITH_TIMESTAMP && self.timestampother == 0 {
            self.timestampother = frame.header.event_time;
        } else if self.timestamp == 0 {
            self.timestamp = frame.header.event_time;
        }
        let ghost start = old(self)@.traces;
        let ghost pads = pad_map.entries();
        let cobo: u8 = frame.header.cobo_id;
        let asad: u8 = frame.header.asad_id;
        let mut i: usize = 0;
        assert(frame.data@.take(0) =~= Seq::<GrawData>::empty());
        while i < frame.data.len()
            invariant
                i <= frame.data.len(),
                frame.wf(),
                pad_map.wf(),
                pads == pad_map.entries(),
                cobo == frame.header.cobo_id,
                asad == frame.header.asad_id,
                traces_wf(trace_views(self.traces@)),
                trace_views(self.traces@) == put_data(start, pads, cobo, asad, frame.data@.take(i as int)),
                self.nframes == old(self).nframes,
                self.event_id == (if old(self).nframes == 0 {
                    frame.header.event_id
                } else {
                    old(self).event_id
                }),
                self.timestamp == append_spec(old(self)@, pads, frame.header, frame.data@).timestamp,
                self.timestampother == append_spec(
                    old(self)@,
                    pads,
                    frame.header,
                    frame.data@,
                ).timestampother,
            decreases frame.data.len() - i,
        {
            let datum: GrawData = frame.data[i];
            let ghost before = trace_views(self.traces@);
            assert(datum.in_range());
            match pad_map.get_hardware_id(&cobo, &asad, &datum.aget_id, &datum.channel) {
                Some(hw_id) => {
                    let key: u32 = make_key(cobo, asad, datum.aget_id, datum.channel);
                    let mut trace: Trace = match fx_remove(&mut self.traces, key) {
                        Some(trace) => {
                            assert(before.contains_key(key) && before[key] == trace@);
                            trace
                        },
                        None => {
                            assert(!before.contains_key(key));
                            Trace { hw_id: *hw_id, samples: vec![0i16; 512] }
                        },
                    };
                    assert(trace@.samples.len() == NUMBER_OF_TIME_BUCKETS);
                    assert(!before.contains_key(key) ==> trace@.samples =~= zero_samples());
                    trace.samples.set(datum.time_bucket_id as usize, datum.sample);
                    let _ = fx_insert(&mut self.traces, key, trace);
                    assert(trace_views(self.traces@) =~= put_datum(before, pads, cobo, asad, datum));
                },
                None => {},
            }
            proof {
                let next = frame.data@.take(i as int + 1);
                assert(next.drop_last() =~= frame.data@.take(i as int));
                assert(next.last() == datum);
            }
            i = i + 1;
        }
        assert(frame.data@.take(i as int) =~= frame.data@);
        self.nframes = self.nframes + 1;
        Ok(())
    }

    /// The number of frames appended so far.
    pub fn get_nframes(&self) -> (n: usize)
        requires
            self.wf(),
        ensures
            n == self@.nframes,
    {
        self.nframes as usize
    }

    /// The event id of the frames of this event; 0 while there is none.
    pub fn get_event_id(&self) -> (id: u32)
        ensures
            id == self@.event_id,
    {
        self.event_id
    }

    /// Lays the traces out as a matrix: one row per trace, each row the
    /// trace's `matrix_row`. The rows come in the order in which the hash map
    /// is walked, of which nothing is promised; `keys` names that order.
    pub fn convert_to_data_matrix(self) -> (m: DataMatrix)
        requires
            self.wf(),
        ensures
            m.rows@.len() == self@.traces.dom().len(),
            forall|r: int|
                0 <= r < m.rows@.len() ==> (#[trigger] m.rows@[r])@.len()
                    == NUMBER_OF_MATRIX_COLUMNS,
            exists|keys: Seq<u32>|
                {
                    &&& keys.no_duplicates()
                    &&& keys.len() == m.rows@.len()
                    &&& forall|k: u32| keys.contains(k) <==> self@.traces.contains_key(k)
                    &&& forall|r: int|
                        0 <= r < keys.len() ==> (#[trigger] m.rows@[r])@ == matrix_row(
                            self@.traces[keys[r]],
                        )
                },
    {
        let keys: Vec<u32> = fx_keys(&self.traces);
        let mut rows: Vec<Vec<i16>> = Vec::new();
        let mut r: usize = 0;
        while r < keys.len()
            invariant
                r <= keys.len(),
                self.wf(),
                rows@.len() == r,
                forall|k: u32| keys@.contains(k) <==> self.traces@.contains_key(k),
                forall|j: int|
                    0 <= j < r ==> (#[trigger] rows@[j])@ == matrix_row(self@.traces[keys@[j]]),
                forall|j: int|
                    0 <= j < r ==> (#[trigger] rows@[j])@.len() == NUMBER_OF_MATRIX_COLUMNS,
            decreases keys.len() - r,
        {
            let key: u32 = keys[r];
            assert(keys@.contains(key));
            assert(self@.traces.contains_key(key));
            let found = fx_get(&self.traces, key);
            let trace: &Trace = found.unwrap();
            let mut row: Vec<i16> = Vec::new();
            row.push(trace.hw_id.cobo_id as i16);
            row.push(trace.hw_id.asad_id as i16);
            row.push(trace.hw_id.aget_id as i16);
            row.push(trace.hw_id.channel as i16);
            row.push(#[verifier::truncate] (trace.hw_id.pad_id as i16));
            let mut c: usize = 0;
            while c < trace.samples.len()
                invariant
                    c <= trace.samples.len(),
                    row@ == matrix_row(trace@).take(5 + c),
                decreases trace.samples.len() - c,
            {
                row.push(trace.samples[c]);
                assert(row@ =~= matrix_row(trace@).take(5 + c + 1));
                c = c + 1;
            }
            assert(row@ =~= matrix_row(trace@));
            rows.push(row);
            r = r + 1;
        }
        proof {
            keys@.unique_seq_to_set();
            assert(keys@.to_set() =~= self@.traces.dom());
        }
        DataMatrix { rows }
    }
}

} // verus!
