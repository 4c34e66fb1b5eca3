//! The GRAW frame: a 256-byte header followed by items, big-endian.
//!
//! Header layout, by byte offset:
//!
//! | offset | bytes | field        |
//! |-------:|------:|--------------|
//! |      0 |     1 | meta type    |
//! |      1 |     3 | frame size, in units of 256 bytes, header included |
//! |      4 |     1 | data source  |
//! |      5 |     2 | frame type   |
//! |      7 |     1 | revision     |
//! |      8 |     2 | header size, in units of 256 bytes |
//! |     10 |     2 | item size, in bytes |
//! |     12 |     4 | number of items |
//! |     16 |     6 | event time   |
//! |     22 |     4 | event id     |
//! |     26 |     1 | CoBo id      |
//! |     27 |     1 | AsAd id      |
//! |     28 |     2 | read offset  |
//! |     30 |     1 | status       |
//!
//! The rest of the header is not read. An item of a partial-readout frame is
//! a 32-bit word: AGET in bits 31..30, channel in bits 29..23, time bucket in
//! bits 22..14, sample in bits 11..0. An item of a full-readout frame is a
//! 16-bit word: AGET in bits 15..14, sample in bits 11..0; its channel and
//! time bucket follow from how many items of the same AGET came before it.
//! A full-readout frame is meant to hold every channel at every time bucket;
//! the decoder reads as many items as the header counts, be they fewer.

use crate::constants::{
    EXPECTED_FRAME_TYPE_FULL, EXPECTED_FRAME_TYPE_PARTIAL, EXPECTED_HEADER_SIZE,
    EXPECTED_ITEM_SIZE_FULL, EXPECTED_ITEM_SIZE_PARTIAL, EXPECTED_META_TYPE, HEADER_SIZE_BYTES,
    NUMBER_OF_AGETS, NUMBER_OF_CHANNELS, NUMBER_OF_TIME_BUCKETS, SIZE_UNIT,
};
use crate::error::{GrawDataError, GrawFrameError};
use vstd::prelude::*;

verus! {

/// One sample: which AGET and channel, at which time bucket, and the value.
#[derive(Debug, Clone, Copy, PartialEq, Eq, Structural)]
pub struct GrawData {
    pub aget_id: u8,
    pub channel: u8,
    pub time_bucket_id: u16,
    pub sample: i16,
}

impl GrawData {
    /// What `check_data` returns: the first field out of range, in the order
    /// AGET, channel, time bucket.
    pub open spec fn check_spec(self) -> Result<(), GrawDataError> {
        if self.aget_id >= NUMBER_OF_AGETS {
            Err(GrawDataError::BadAgetID(self.aget_id))
        } else if self.channel >= NUMBER_OF_CHANNELS {
            Err(GrawDataError::BadChannel(self.channel))
        } else if self.time_bucket_id >= NUMBER_OF_TIME_BUCKETS {
            Err(GrawDataError::BadTimeBucket(self.time_bucket_id))
        } else {
            Ok(())
        }
    }

    /// Every field is in range.
    pub open spec fn in_range(self) -> bool {
        &&& self.aget_id < NUMBER_OF_AGETS
        &&& self.channel < NUMBER_OF_CHANNELS
        &&& self.time_bucket_id < NUMBER_OF_TIME_BUCKETS
    }

    /// Tests the ranges of the fields.
    pub fn check_data(&self) -> (r: Result<(), GrawDataError>)
        ensures
            r == self.check_spec(),
            r is Ok <==> self.in_range(),
    {
        if self.aget_id >= NUMBER_OF_AGETS {
            Err(GrawDataError::BadAgetID(self.aget_id))
        } else if self.channel >= NUMBER_OF_CHANNELS {
            Err(GrawDataError::BadChannel(self.channel))
        } else if self.time_bucket_id as u32 >= NUMBER_OF_TIME_BUCKETS {
            Err(GrawDataError::BadTimeBucket(self.time_bucket_id))
        } else {
            Ok(())
        }
    }
}

/// The fields of a frame header that this library reads.
#[derive(Debug, Clone, Copy, PartialEq, Eq, Structural)]
pub struct GrawFrameHeader {
    pub meta_type: u8,
    pub frame_size: u32,
    pub data_source: u8,
    pub frame_type: u16,
    pub revision: u8,
    pub header_size: u16,
    pub item_size: u16,
    pub n_items: u32,
    pub event_time: u64,
    pub event_id: u32,
    pub cobo_id: u8,
    pub asad_id: u8,
    pub read_offset: u16,
    pub status: u8,
}

/// The big-endian number in the `width` bytes of `s` that start at `at`.
pub open spec fn be_nat(s: Seq<u8>, at: int, width: nat) -> nat
    decreases width,
{
    if width == 0 {
        0
    } else {
        be_nat(s, at, (width - 1) as nat) * 256 + s[at + width - 1] as nat
    }
}

/// The header that the first 256 bytes of `s` spell out.
pub open spec fn header_of(s: Seq<u8>) -> GrawFrameHeader {
    GrawFrameHeader {
        meta_type: s[0],
        frame_size: be_nat(s, 1, 3) as u32,
        data_source: s[4],
        frame_type: be_nat(s, 5, 2) as u16,
        revision: s[7],
        header_size: be_nat(s, 8, 2) as u16,
        item_size: be_nat(s, 10, 2) as u16,
        n_items: be_nat(s, 12, 4) as u32,
        event_time: be_nat(s, 16, 6) as u64,
        event_id: be_nat(s, 22, 4) as u32,
        cobo_id: s[26],
        asad_id: s[27],
        read_offset: be_nat(s, 28, 2) as u16,
        status: s[30],
    }
}

/// The bytes of a big-endian number unfold as sums of products.
pub proof fn lemma_be_nat_unfold(s: Seq<u8>, at: int)
    ensures
        be_nat(s, at, 2) == s[at] as nat * 256 + s[at + 1] as nat,
        be_nat(s, at, 3) == s[at] as nat * 65536 + s[at + 1] as nat * 256 + s[at + 2] as nat,
        be_nat(s, at, 4) == s[at] as nat * 16777216 + s[at + 1] as nat * 65536 + s[at + 2] as nat
            * 256 + s[at + 3] as nat,
        be_nat(s, at, 6) == s[at] as nat * 1099511627776 + s[at + 1] as nat * 4294967296 + s[at
            + 2] as nat * 16777216 + s[at + 3] as nat * 65536 + s[at + 4] as nat * 256 + s[at
            + 5] as nat,
{
    reveal_with_fuel(be_nat, 7);
}

impl GrawFrameHeader {
    /// The first structural rule that the header breaks, in the order meta
    /// type, frame type, header size, item size.
    pub open spec fn check_spec(self) -> Result<(), GrawFrameError> {
        if self.meta_type != EXPECTED_META_TYPE {
            Err(GrawFrameError::IncorrectMetaType(self.meta_type))
        } else if self.frame_type != EXPECTED_FRAME_TYPE_FULL && self.frame_type
            != EXPECTED_FRAME_TYPE_PARTIAL {
            Err(GrawFrameError::IncorrectFrameType(self.frame_type))
        } else if self.header_size != EXPECTED_HEADER_SIZE {
            Err(GrawFrameError::IncorrectHeaderSize(self.header_size))
        } else if self.item_size != self.expected_item_size() {
            Err(GrawFrameError::IncorrectItemSize(self.item_size))
        } else {
            Ok(())
        }
    }

    /// The item size that goes with the header's frame type.
    pub open spec fn expected_item_size(self) -> u16 {
        if self.frame_type == EXPECTED_FRAME_TYPE_FULL {
            EXPECTED_ITEM_SIZE_FULL
        } else {
            EXPECTED_ITEM_SIZE_PARTIAL
        }
    }

    /// What `from_buffer` returns on these bytes.
    pub open spec fn decode_spec(s: Seq<u8>) -> Result<GrawFrameHeader, GrawFrameError> {
        if s.len() < HEADER_SIZE_BYTES {
            Err(GrawFrameError::IOError(HEADER_SIZE_BYTES as u64, s.len() as u64))
        } else {
            match header_of(s).check_spec() {
                Err(e) => Err(e),
                Ok(()) => Ok(header_of(s)),
            }
        }
    }

    /// Tests the structural rules of a header, but for the frame size.
    pub fn check_header(&self) -> (r: Result<(), GrawFrameError>)
        ensures
            r == self.check_spec(),
    {
        if self.meta_type != EXPECTED_META_TYPE {
            Err(GrawFrameError::IncorrectMetaType(self.meta_type))
        } else if self.frame_type != EXPECTED_FRAME_TYPE_FULL && self.frame_type
            != EXPECTED_FRAME_TYPE_PARTIAL {
            Err(GrawFrameError::IncorrectFrameType(self.frame_type))
        } else if self.header_size != EXPECTED_HEADER_SIZE {
            Err(GrawFrameError::IncorrectHeaderSize(self.header_size))
        } else if (self.frame_type == EXPECTED_FRAME_TYPE_FULL && self.item_size
            != EXPECTED_ITEM_SIZE_FULL) || (self.frame_type == EXPECTED_FRAME_TYPE_PARTIAL
            && self.item_size != EXPECTED_ITEM_SIZE_PARTIAL) {
            Err(GrawFrameError::IncorrectItemSize(self.item_size))
        } else {
            Ok(())
        }
    }

    /// Reads a header from the first 256 bytes of `buffer` and tests it.
    pub fn from_buffer(buffer: &[u8]) -> (r: Result<GrawFrameHeader, GrawFrameError>)
        ensures
            r == Self::decode_spec(buffer@),
    {
        if buffer.len() < HEADER_SIZE_BYTES {
            return Err(GrawFrameError::IOError(HEADER_SIZE_BYTES as u64, buffer.len() as u64));
        }
        proof {
            lemma_be_nat_unfold(buffer@, 1);
            lemma_be_nat_unfold(buffer@, 5);
            lemma_be_nat_unfold(buffer@, 8);
            lemma_be_nat_unfold(buffer@, 10);
            lemma_be_nat_unfold(buffer@, 12);
            lemma_be_nat_unfold(buffer@, 16);
            lemma_be_nat_unfold(buffer@, 22);
            lemma_be_nat_unfold(buffer@, 28);
        }
        let header = GrawFrameHeader {
            meta_type: buffer[0],
            frame_size: read_u24(buffer, 1),
            data_source: buffer[4],
            frame_type: read_u16(buffer, 5),
            revision: buffer[7],
            header_size: read_u16(buffer, 8),
            item_size: read_u16(buffer, 10),
            n_items: read_u32(buffer, 12),
            event_time: read_u48(buffer, 16),
            event_id: read_u32(buffer, 22),
            cobo_id: buffer[26],
            asad_id: buffer[27],
            read_offset: read_u16(buffer, 28),
            status: buffer[30],
        };
        match header.check_header() {
            Err(e) => Err(e),
            Ok(()) => Ok(header),
        }
    }
}

/// Reads two bytes as a big-endian number.
pub fn read_u16(buffer: &[u8], at: usize) -> (r: u16)
    requires
        at + 2 <= buffer.len(),
    ensures
        r == be_nat(buffer@, at as int, 2),
{
    proof {
        lemma_be_nat_unfold(buffer@, at as int);
    }
    (buffer[at] as u16) * 256 + (buffer[at + 1] as u16)
}

/// Reads three bytes as a big-endian number.
pub fn read_u24(buffer: &[u8], at: usize) -> (r: u32)
    requires
        at + 3 <= buffer.len(),
    ensures
        r == be_nat(buffer@, at as int, 3),
{
    proof {
        lemma_be_nat_unfold(buffer@, at as int);
    }
    (buffer[at] as u32) * 65536 + (buffer[at + 1] as u32) * 256 + (buffer[at + 2] as u32)
}

/// Reads four bytes as a big-endian number.
pub fn read_u32(buffer: &[u8], at: usize) -> (r: u32)
    requires
        at + 4 <= buffer.len(),
    ensures
        r == be_nat(buffer@, at as int, 4),
{
    proof {
        lemma_be_nat_unfold(buffer@, at as int);
    }
    (buffer[at] as u32) * 16777216 + (buffer[at + 1] as u32) * 65536 + (buffer[at + 2] as u32)
        * 256 + (buffer[at + 3] as u32)
}

/// Reads six bytes as a big-endian number.
pub fn read_u48(buffer: &[u8], at: usize) -> (r: u64)
    requires
        at + 6 <= buffer.len(),
    ensures
        r == be_nat(buffer@, at as int, 6),
{
    proof {
        lemma_be_nat_unfold(buffer@, at as int);
    }
    (buffer[at] as u64) * 1099511627776 + (buffer[at + 1] as u64) * 4294967296 + (buffer[at
        + 2] as u64) * 16777216 + (buffer[at + 3] as u64) * 65536 + (buffer[at + 4] as u64) * 256
        + (buffer[at + 5] as u64)
}

/// The datum that the 32-bit word `raw` of a partial-readout frame holds.
pub open spec fn partial_datum(raw: nat) -> GrawData {
    GrawData {
        aget_id: (raw / 0x4000_0000) as u8,
        channel: ((raw / 0x80_0000) % 128) as u8,
        time_bucket_id: ((raw / 0x4000) % 512) as u16,
        sample: (raw % 4096) as i16,
    }
}

/// How many of `data` come from the AGET `aget`.
pub open spec fn count_aget(data: Seq<GrawData>, aget: u8) -> nat
    decreases data.len(),
{
    if data.len() == 0 {
        0
    } else {
        count_aget(data.drop_last(), aget) + if data.last().aget_id == aget {
            1nat
        } else {
            0nat
        }
    }
}

/// The datum that the 16-bit word `raw` of a full-readout frame holds when
/// `seen` items of its AGET came before it: they run through the channels of
/// one time bucket, then through those of the next.
pub open spec fn full_datum(raw: nat, seen: nat) -> GrawData {
    GrawData {
        aget_id: (raw / 0x4000) as u8,
        channel: (seen % 68) as u8,
        time_bucket_id: (seen / 68) as u16,
        sample: (raw % 4096) as i16,
    }
}

/// Item `i` of a body, given the data of the items before it.
pub open spec fn item_at(body: Seq<u8>, full: bool, i: nat, before: Seq<GrawData>) -> GrawData {
    if full {
        let raw = be_nat(body, 2 * i as int, 2);
        full_datum(raw, count_aget(before, (raw / 0x4000) as u8))
    } else {
        partial_datum(be_nat(body, 4 * i as int, 4))
    }
}

/// Bytes per item.
pub open spec fn item_bytes(full: bool) -> nat {
    if full {
        2
    } else {
        4
    }
}

/// The first `n` items of `body`, read one after the other: the first item
/// that the body is too short for, or that is out of range, ends the reading
/// with its error.
pub open spec fn decode_items(body: Seq<u8>, full: bool, n: nat) -> Result<
    Seq<GrawData>,
    GrawFrameError,
>
    decreases n,
{
    if n == 0 {
        Ok(Seq::empty())
    } else {
        match decode_items(body, full, (n - 1) as nat) {
            Err(e) => Err(e),
            Ok(before) => {
                let need = item_bytes(full) * n;
                if body.len() < need {
                    Err(GrawFrameError::IOError(need as u64, body.len() as u64))
                } else {
                    let d = item_at(body, full, (n - 1) as nat, before);
                    match d.check_spec() {
                        Err(e) => Err(GrawFrameError::BadDatum(e)),
                        Ok(()) => Ok(before.push(d)),
                    }
                }
            },
        }
    }
}

/// The total length in bytes of a frame with this body, as an error reports it.
pub open spec fn observed_size(body_len: nat) -> u32 {
    if body_len + HEADER_SIZE_BYTES > u32::MAX {
        u32::MAX
    } else {
        (body_len + HEADER_SIZE_BYTES) as u32
    }
}

/// What reading `body` under `header` gives: the header's own rules first,
/// then the declared size, which counts the header too, against the bytes
/// present, then the items.
pub open spec fn decode_body(header: GrawFrameHeader, body: Seq<u8>) -> Result<
    Seq<GrawData>,
    GrawFrameError,
> {
    match header.check_spec() {
        Err(e) => Err(e),
        Ok(()) => if header.frame_size * SIZE_UNIT != body.len() + HEADER_SIZE_BYTES {
            Err(GrawFrameError::IncorrectFrameSize(header.frame_size, observed_size(body.len())))
        } else {
            decode_items(
                body,
                header.frame_type == EXPECTED_FRAME_TYPE_FULL,
                header.n_items as nat,
            )
        },
    }
}

/// What decoding a whole frame from `s` gives.
pub open spec fn decode_frame(s: Seq<u8>) -> Result<(GrawFrameHeader, Seq<GrawData>), GrawFrameError> {
    match GrawFrameHeader::decode_spec(s) {
        Err(e) => Err(e),
        Ok(header) => match decode_body(header, s.subrange(HEADER_SIZE_BYTES as int, s.len() as int)) {
            Err(e) => Err(e),
            Ok(data) => Ok((header, data)),
        },
    }
}

/// A header and the data of its items.
#[derive(Debug, Clone)]
pub struct GrawFrame {
    pub header: GrawFrameHeader,
    pub data: Vec<GrawData>,
}

impl GrawFrame {
    /// Every datum is in range.
    pub open spec fn wf(&self) -> bool {
        forall|i: int| 0 <= i < self.data@.len() ==> (#[trigger] self.data@[i]).in_range()
    }

    /// A frame with this header and no data yet.
    pub fn new(header: GrawFrameHeader) -> (frame: GrawFrame)
        ensures
            frame.header == header,
            frame.data@.len() == 0,
            frame.wf(),
    {
        GrawFrame { header, data: Vec::new() }
    }

    /// Reads the items from `body`, the bytes that follow the header. On
    /// success the frame holds exactly those items; on failure it is unchanged.
    pub fn read(&mut self, body: &[u8]) -> (r: Result<(), GrawFrameError>)
        ensures
            final(self).header == old(self).header,
            match r {
                Ok(()) => decode_body(old(self).header, body@) == Ok::<
                    Seq<GrawData>,
                    GrawFrameError,
                >(final(self).data@) && final(self).wf(),
                Err(e) => decode_body(old(self).header, body@) == Err::<
                    Seq<GrawData>,
                    GrawFrameError,
                >(e) && final(self).data@ == old(self).data@,
            },
    {
        assert(body@.subrange(0, body@.len() as int) =~= body@);
        match read_body(&self.header, body, 0) {
            Err(e) => Err(e),
            Ok(data) => {
                self.data = data;
                Ok(())
            },
        }
    }

    /// Decodes a whole frame, header and items, from one buffer.
    pub fn from_buffer(buffer: &[u8]) -> (r: Result<GrawFrame, GrawFrameError>)
        ensures
            match r {
                Ok(frame) => decode_frame(buffer@) == Ok::<
                    (GrawFrameHeader, Seq<GrawData>),
                    GrawFrameError,
                >((frame.header, frame.data@)) && frame.wf(),
                Err(e) => decode_frame(buffer@) == Err::<
                    (GrawFrameHeader, Seq<GrawData>),
                    GrawFrameError,
                >(e),
            },
    {
        match GrawFrameHeader::from_buffer(buffer) {
            Err(e) => Err(e),
            Ok(header) => match read_body(&header, buffer, HEADER_SIZE_BYTES) {
                Err(e) => Err(e),
                Ok(data) => Ok(GrawFrame { header, data }),
            },
        }
    }
}

/// Every datum that `decode_items` returns is in range.
pub proof fn lemma_decoded_items_in_range(body: Seq<u8>, full: bool, n: nat)
    ensures
        match decode_items(body, full, n) {
            Ok(data) => data.len() == n && forall|i: int|
                0 <= i < data.len() ==> (#[trigger] data[i]).in_range(),
            Err(_) => true,
        },
    decreases n,
{
    if n > 0 {
        lemma_decoded_items_in_range(body, full, (n - 1) as nat);
    }
}

/// Once reading the items has failed, reading further items fails alike.
pub proof fn lemma_item_error_persists(body: Seq<u8>, full: bool, k: nat, n: nat)
    requires
        k <= n,
        decode_items(body, full, k) is Err,
    ensures
        decode_items(body, full, n) == decode_items(body, full, k),
    decreases n,
{
    if k < n {
        lemma_item_error_persists(body, full, k, (n - 1) as nat);
    }
}

/// Reads the items that follow `base` in `buffer` under `header`.
fn read_body(header: &GrawFrameHeader, buffer: &[u8], base: usize) -> (r: Result<
    Vec<GrawData>,
    GrawFrameError,
>)
    requires
        base <= buffer.len(),
        base == 0 || base == HEADER_SIZE_BYTES,
    ensures
        match r {
            Ok(data) => decode_body(*header, buffer@.subrange(base as int, buffer.len() as int))
                == Ok::<Seq<GrawData>, GrawFrameError>(data@) && forall|i: int|
                0 <= i < data@.len() ==> (#[trigger] data@[i]).in_range(),
            Err(e) => decode_body(*header, buffer@.subrange(base as int, buffer.len() as int))
                == Err::<Seq<GrawData>, GrawFrameError>(e),
        },
{
    let ghost body = buffer@.subrange(base as int, buffer.len() as int);
    match header.check_header() {
        Err(e) => {
            return Err(e);
        },
        Ok(()) => {},
    }
    let body_len: u64 = (buffer.len() - base) as u64;
    let declared: u64 = (header.frame_size as u64) * (SIZE_UNIT as u64);
    if declared < 256 || declared - 256 != body_len {
        let observed: u32 = if body_len > 0xFFFF_FFFF - 256 {
            0xFFFF_FFFF
        } else {
            (body_len + 256) as u32
        };
        return Err(GrawFrameError::IncorrectFrameSize(header.frame_size, observed));
    }
    let full: bool = header.frame_type == EXPECTED_FRAME_TYPE_FULL;
    let width: u64 = if full {
        2
    } else {
        4
    };
    let mut data: Vec<GrawData> = Vec::new();
    let mut seen0: u32 = 0;
    let mut seen1: u32 = 0;
    let mut seen2: u32 = 0;
    let mut seen3: u32 = 0;
    let mut i: u32 = 0;
    while i < header.n_items
        invariant
            i <= header.n_items,
            base <= buffer.len(),
            header.check_spec() is Ok,
            header.frame_size * SIZE_UNIT == body.len() + HEADER_SIZE_BYTES,
            body == buffer@.subrange(base as int, buffer.len() as int),
            body_len == body.len(),
            full == (header.frame_type == EXPECTED_FRAME_TYPE_FULL),
            width == item_bytes(full),
            decode_items(body, full, i as nat) == Ok::<Seq<GrawData>, GrawFrameError>(data@),
            data@.len() == i,
            forall|k: int| 0 <= k < data@.len() ==> (#[trigger] data@[k]).in_range(),
            full ==> seen0 == count_aget(data@, 0) && seen1 == count_aget(data@, 1) && seen2
                == count_aget(data@, 2) && seen3 == count_aget(data@, 3),
            seen0 <= 34816 && seen1 <= 34816 && seen2 <= 34816 && seen3 <= 34816,
        decreases header.n_items - i,
    {
        let need: u64 = width * (i as u64 + 1);
        if body_len < need {
            proof {
                lemma_item_error_persists(body, full, i as nat + 1, header.n_items as nat);
            }
            return Err(GrawFrameError::IOError(need, body_len));
        }
        let at: usize = base + (need - width) as usize;
        let ghost before = data@;
        let datum = if full {
            let raw: u16 = read_u16(buffer, at);
            let aget: u8 = (raw / 0x4000) as u8;
            let seen: u32 = if aget == 0 {
                seen0
            } else if aget == 1 {
                seen1
            } else if aget == 2 {
                seen2
            } else {
                seen3
            };
            proof {
                lemma_be_nat_shift(buffer@, base as int, body, 2 * i as int, 2);
            }
            GrawData {
                aget_id: aget,
                channel: (seen % NUMBER_OF_CHANNELS as u32) as u8,
                time_bucket_id: (seen / NUMBER_OF_CHANNELS as u32) as u16,
                sample: (raw % 4096) as i16,
            }
        } else {
            let raw: u32 = read_u32(buffer, at);
            proof {
                lemma_be_nat_shift(buffer@, base as int, body, 4 * i as int, 4);
            }
            GrawData {
                aget_id: (raw / 0x4000_0000) as u8,
                channel: ((raw / 0x80_0000) % 128) as u8,
                time_bucket_id: ((raw / 0x4000) % 512) as u16,
                sample: (raw % 4096) as i16,
            }
        };
        assert(datum == item_at(body, full, i as nat, before));
        match datum.check_data() {
            Err(e) => {
                proof {
                    lemma_item_error_persists(body, full, i as nat + 1, header.n_items as nat);
                }
                return Err(GrawFrameError::BadDatum(e));
            },
            Ok(()) => {},
        }
        data.push(datum);
        proof {
            assert(data@.drop_last() =~= before);
        }
        if full {
            if datum.aget_id == 0 {
                seen0 = seen0 + 1;
            } else if datum.aget_id == 1 {
                seen1 = seen1 + 1;
            } else if datum.aget_id == 2 {
                seen2 = seen2 + 1;
            } else {
                seen3 = seen3 + 1;
            }
        }
        i = i + 1;
    }
    Ok(data)
}

/// A big-endian number read in a tail of a buffer is the number read in the
/// buffer at the shifted place.
pub proof fn lemma_be_nat_shift(s: Seq<u8>, base: int, tail: Seq<u8>, at: int, width: nat)
    requires
        0 <= base <= s.len(),
        tail == s.subrange(base, s.len() as int),
        0 <= at,
        at + width <= tail.len(),
    ensures
        be_nat(tail, at, width) == be_nat(s, base + at, width),
    decreases width,
{
    if width > 0 {
        lemma_be_nat_shift(s, base, tail, at, (width - 1) as nat);
    }
}

} // verus!
