//! The bytes of a frame, and the proof that decoding them gives the frame back.

use crate::constants::{EXPECTED_FRAME_TYPE_FULL, HEADER_SIZE_BYTES, SIZE_UNIT};
use crate::error::GrawFrameError;
use crate::graw_frame::{
    be_nat, count_aget, decode_body, decode_frame, decode_items, full_datum, header_of, item_at,
    item_bytes, partial_datum, GrawData, GrawFrame, GrawFrameHeader,
};
use vstd::arithmetic::div_mod::lemma_fundamental_div_mod_converse;
use vstd::prelude::*;

verus! {

/// 256 to the power `width`.
pub open spec fn pow256(width: nat) -> nat
    decreases width,
{
    if width == 0 {
        1
    } else {
        256 * pow256((width - 1) as nat)
    }
}

/// The `width` low bytes of `n`, highest first.
pub open spec fn be_bytes(n: nat, width: nat) -> Seq<u8>
    decreases width,
{
    if width == 0 {
        Seq::empty()
    } else {
        be_bytes(n / 256, (width - 1) as nat).push((n % 256) as u8)
    }
}

/// `count` bytes of zero.
pub open spec fn zeros(count: nat) -> Seq<u8> {
    Seq::new(count, |i: int| 0u8)
}

/// The word that holds a datum in a partial-readout frame.
pub open spec fn partial_word(d: GrawData) -> nat {
    (d.aget_id * 0x4000_0000 + d.channel * 0x80_0000 + d.time_bucket_id * 0x4000
        + d.sample) as nat
}

/// The word that holds a datum in a full-readout frame.
pub open spec fn full_word(d: GrawData) -> nat {
    (d.aget_id * 0x4000 + d.sample) as nat
}

/// The word of a datum in a frame of the given kind.
pub open spec fn item_word(d: GrawData, full: bool) -> nat {
    if full {
        full_word(d)
    } else {
        partial_word(d)
    }
}

/// The bytes of the items, one after the other.
pub open spec fn encode_items(data: Seq<GrawData>, full: bool) -> Seq<u8>
    decreases data.len(),
{
    if data.len() == 0 {
        Seq::empty()
    } else {
        encode_items(data.drop_last(), full) + be_bytes(
            item_word(data.last(), full),
            item_bytes(full),
        )
    }
}

/// The 256 bytes of a header; what the header does not hold is zero.
pub open spec fn encode_header(h: GrawFrameHeader) -> Seq<u8> {
    seq![h.meta_type] + be_bytes(h.frame_size as nat, 3) + seq![h.data_source] + be_bytes(
        h.frame_type as nat,
        2,
    ) + seq![h.revision] + be_bytes(h.header_size as nat, 2) + be_bytes(h.item_size as nat, 2)
        + be_bytes(h.n_items as nat, 4) + be_bytes(h.event_time as nat, 6) + be_bytes(
        h.event_id as nat,
        4,
    ) + seq![h.cobo_id, h.asad_id] + be_bytes(h.read_offset as nat, 2) + seq![h.status] + zeros(
        225,
    )
}

/// The bytes of a frame: the header, the items, and zeros up to the size
/// that the header declares.
pub open spec fn encode_frame(h: GrawFrameHeader, data: Seq<GrawData>) -> Seq<u8> {
    let items = encode_items(data, h.frame_type == EXPECTED_FRAME_TYPE_FULL);
    encode_header(h) + items + zeros(
        (h.frame_size * SIZE_UNIT - HEADER_SIZE_BYTES - items.len()) as nat,
    )
}

/// Whether a frame can be written: the header passes its checks and its
/// numbers fit their fields, it counts the items and declares a size that
/// holds them, every datum is in range with a sample of twelve bits, and in
/// a full-readout frame every datum stands at the place that its channel and
/// time bucket name.
pub open spec fn encodable(h: GrawFrameHeader, data: Seq<GrawData>) -> bool {
    let full = h.frame_type == EXPECTED_FRAME_TYPE_FULL;
    &&& h.check_spec() is Ok
    &&& h.frame_size < 0x100_0000
    &&& h.event_time < 0x1_0000_0000_0000
    &&& h.n_items == data.len()
    &&& h.frame_size * SIZE_UNIT >= HEADER_SIZE_BYTES + item_bytes(full) * data.len()
    &&& data_encodable(data, full)
}

/// Whether every datum is in range with a sample of twelve bits and, in a
/// full-readout frame, stands at the place that its channel and time bucket name.
pub open spec fn data_encodable(data: Seq<GrawData>, full: bool) -> bool {
    &&& forall|i: int|
        0 <= i < data.len() ==> (#[trigger] data[i]).in_range() && 0 <= data[i].sample < 4096
    &&& full ==> forall|i: int|
        0 <= i < data.len() ==> (#[trigger] data[i]).time_bucket_id * 68 + data[i].channel
            == count_aget(data.take(i), data[i].aget_id)
}

/// `be_bytes` gives as many bytes as asked for.
pub proof fn lemma_be_bytes_len(n: nat, width: nat)
    ensures
        be_bytes(n, width).len() == width,
    decreases width,
{
    if width > 0 {
        lemma_be_bytes_len(n / 256, (width - 1) as nat);
    }
}

/// Where the bytes of a number that fits in them stand in a buffer, reading
/// a big-endian number gives that number.
pub proof fn lemma_be_read_back(s: Seq<u8>, at: int, n: nat, width: nat)
    requires
        0 <= at,
        at + width <= s.len(),
        s.subrange(at, at + width) == be_bytes(n, width),
        n < pow256(width),
    ensures
        be_nat(s, at, width) == n,
    decreases width,
{
    if width > 0 {
        let sub = s.subrange(at, at + width);
        lemma_be_bytes_len(n / 256, (width - 1) as nat);
        assert(s.subrange(at, at + width - 1) =~= sub.drop_last());
        assert(sub.drop_last() =~= be_bytes(n / 256, (width - 1) as nat));
        assert(s[at + width - 1] == sub[width - 1]);
        lemma_be_read_back(s, at, n / 256, (width - 1) as nat);
    }
}

/// The encoded items have the length of all their words, and the word of
/// each item stands at its place.
pub proof fn lemma_encoded_item_at(data: Seq<GrawData>, full: bool, i: int)
    requires
        0 <= i < data.len(),
    ensures
        encode_items(data, full).len() == item_bytes(full) * data.len(),
        encode_items(data, full).subrange(
            item_bytes(full) * i,
            item_bytes(full) * i + item_bytes(full),
        ) == be_bytes(item_word(data[i], full), item_bytes(full)),
    decreases data.len(),
{
    let w = item_bytes(full);
    let head = encode_items(data.drop_last(), full);
    let tail = be_bytes(item_word(data.last(), full), w);
    lemma_be_bytes_len(item_word(data.last(), full), w);
    lemma_encoded_items_len(data.drop_last(), full);
    if i == data.len() - 1 {
        assert((head + tail).subrange(w * i, w * i + w) =~= tail);
    } else {
        lemma_encoded_item_at(data.drop_last(), full, i);
        assert((head + tail).subrange(w * i, w * i + w) =~= head.subrange(w * i, w * i + w));
    }
}

/// The encoded items have the length of all their words.
pub proof fn lemma_encoded_items_len(data: Seq<GrawData>, full: bool)
    ensures
        encode_items(data, full).len() == item_bytes(full) * data.len(),
    decreases data.len(),
{
    if data.len() > 0 {
        lemma_be_bytes_len(item_word(data.last(), full), item_bytes(full));
        lemma_encoded_items_len(data.drop_last(), full);
    }
}

/// The powers of 256 that bound the fields of a frame.
pub proof fn lemma_pow256_values()
    ensures
        pow256(2) == 0x1_0000,
        pow256(3) == 0x100_0000,
        pow256(4) == 0x1_0000_0000,
        pow256(6) == 0x1_0000_0000_0000,
{
    reveal_with_fuel(pow256, 7);
}

/// The word of a partial-readout datum in range fits 32 bits, and unpacking
/// it gives the datum back.
pub proof fn lemma_partial_word_read_back(d: GrawData)
    requires
        d.in_range(),
        0 <= d.sample < 4096,
    ensures
        partial_word(d) < 0x1_0000_0000,
        partial_datum(partial_word(d)) == d,
{
    let w = partial_word(d) as int;
    let a = d.aget_id as int;
    let c = d.channel as int;
    let t = d.time_bucket_id as int;
    let v = d.sample as int;
    lemma_fundamental_div_mod_converse(w, 0x4000_0000, a, c * 0x80_0000 + t * 0x4000 + v);
    lemma_fundamental_div_mod_converse(w, 0x80_0000, a * 128 + c, t * 0x4000 + v);
    lemma_fundamental_div_mod_converse(a * 128 + c, 128, a, c);
    lemma_fundamental_div_mod_converse(w, 0x4000, a * 0x1_0000 + c * 512 + t, v);
    lemma_fundamental_div_mod_converse(a * 0x1_0000 + c * 512 + t, 512, a * 128 + c, t);
    lemma_fundamental_div_mod_converse(w, 4096, a * 0x4_0000 + c * 2048 + t * 4, v);
}

/// The word of a full-readout datum in range fits 16 bits, and unpacking it
/// gives the datum back when `seen` items of its AGET came before it.
pub proof fn lemma_full_word_read_back(d: GrawData, seen: nat)
    requires
        d.in_range(),
        0 <= d.sample < 4096,
        d.time_bucket_id * 68 + d.channel == seen,
    ensures
        full_word(d) < 0x1_0000,
        full_word(d) / 0x4000 == d.aget_id,
        full_datum(full_word(d), seen) == d,
{
    let w = full_word(d) as int;
    let a = d.aget_id as int;
    let v = d.sample as int;
    lemma_fundamental_div_mod_converse(w, 0x4000, a, v);
    lemma_fundamental_div_mod_converse(w, 4096, a * 4, v);
    lemma_fundamental_div_mod_converse(
        seen as int,
        68,
        d.time_bucket_id as int,
        d.channel as int,
    );
}

/// One item of a body that holds the word of `d` at place `i`, read behind
/// the data `before`, is `d`.
pub proof fn lemma_item_read_back(
    body: Seq<u8>,
    full: bool,
    i: nat,
    before: Seq<GrawData>,
    d: GrawData,
)
    requires
        datum_fits(before, d, full),
        item_bytes(full) * (i + 1) <= body.len(),
        body.subrange(
            item_bytes(full) * i as int,
            item_bytes(full) * i + item_bytes(full) as int,
        ) == be_bytes(item_word(d, full), item_bytes(full)),
    ensures
        item_at(body, full, i, before) == d,
{
    lemma_pow256_values();
    if full {
        lemma_full_word_read_back(d, count_aget(before, d.aget_id));
        lemma_be_read_back(body, 2 * i as int, full_word(d), 2);
    } else {
        lemma_partial_word_read_back(d);
        lemma_be_read_back(body, 4 * i as int, partial_word(d), 4);
    }
}

/// Reading the first `k` items of a body that begins with the encoded items
/// gives the first `k` data.
pub proof fn lemma_items_read_back(data: Seq<GrawData>, full: bool, body: Seq<u8>, k: nat)
    requires
        k <= data.len(),
        data_encodable(data, full),
        body.len() >= encode_items(data, full).len(),
        body.subrange(0, encode_items(data, full).len() as int) == encode_items(data, full),
    ensures
        decode_items(body, full, k) == Ok::<Seq<GrawData>, GrawFrameError>(data.take(k as int)),
    decreases k,
{
    if k == 0 {
        assert(data.take(0) =~= Seq::<GrawData>::empty());
    } else {
        let i = (k - 1) as int;
        let w = item_bytes(full);
        let d = data[i];
        let items = encode_items(data, full);
        lemma_items_read_back(data, full, body, (k - 1) as nat);
        lemma_encoded_item_at(data, full, i);
        assert(w * (i + 1) <= items.len()) by {
            assert(items.len() == w * data.len());
            assert(w * (i + 1) <= w * data.len()) by (nonlinear_arith)
                requires
                    i + 1 <= data.len(),
                    w >= 0,
            ;
        }
        assert(body.subrange(w * i, w * i + w) =~= items.subrange(w * i, w * i + w));
        assert(datum_fits(data.take(i), d, full));
        lemma_item_read_back(body, full, i as nat, data.take(i), d);
        assert(d.check_spec() is Ok);
        assert(data.take(i).push(d) =~= data.take(k as int));
    }
}

/// Reading the header back from its bytes gives the header.
pub proof fn lemma_header_read_back(h: GrawFrameHeader, rest: Seq<u8>)
    requires
        h.frame_size < 0x100_0000,
        h.event_time < 0x1_0000_0000_0000,
    ensures
        encode_header(h).len() == HEADER_SIZE_BYTES,
        header_of(encode_header(h) + rest) == h,
{
    let e = encode_header(h);
    let s = e + rest;
    lemma_be_bytes_len(h.frame_size as nat, 3);
    lemma_be_bytes_len(h.frame_type as nat, 2);
    lemma_be_bytes_len(h.header_size as nat, 2);
    lemma_be_bytes_len(h.item_size as nat, 2);
    lemma_be_bytes_len(h.n_items as nat, 4);
    lemma_be_bytes_len(h.event_time as nat, 6);
    lemma_be_bytes_len(h.event_id as nat, 4);
    lemma_be_bytes_len(h.read_offset as nat, 2);
    assert(e.len() == 256);
    lemma_pow256_values();
    assert(s.subrange(1, 4) =~= be_bytes(h.frame_size as nat, 3));
    lemma_be_read_back(s, 1, h.frame_size as nat, 3);
    assert(s.subrange(5, 7) =~= be_bytes(h.frame_type as nat, 2));
    lemma_be_read_back(s, 5, h.frame_type as nat, 2);
    assert(s.subrange(8, 10) =~= be_bytes(h.header_size as nat, 2));
    lemma_be_read_back(s, 8, h.header_size as nat, 2);
    assert(s.subrange(10, 12) =~= be_bytes(h.item_size as nat, 2));
    lemma_be_read_back(s, 10, h.item_size as nat, 2);
    assert(s.subrange(12, 16) =~= be_bytes(h.n_items as nat, 4));
    lemma_be_read_back(s, 12, h.n_items as nat, 4);
    assert(s.subrange(16, 22) =~= be_bytes(h.event_time as nat, 6));
    lemma_be_read_back(s, 16, h.event_time as nat, 6);
    assert(s.subrange(22, 26) =~= be_bytes(h.event_id as nat, 4));
    lemma_be_read_back(s, 22, h.event_id as nat, 4);
    assert(s.subrange(28, 30) =~= be_bytes(h.read_offset as nat, 2));
    lemma_be_read_back(s, 28, h.read_offset as nat, 2);
    assert(s[0] == h.meta_type);
    assert(s[4] == h.data_source);
    assert(s[7] == h.revision);
    assert(s[26] == h.cobo_id);
    assert(s[27] == h.asad_id);
    assert(s[30] == h.status);
}

/// Decoding the bytes of a frame that can be written gives the frame back.
pub proof fn lemma_decode_encode(h: GrawFrameHeader, data: Seq<GrawData>)
    requires
        encodable(h, data),
    ensures
        decode_frame(encode_frame(h, data)) == Ok::<
            (GrawFrameHeader, Seq<GrawData>),
            GrawFrameError,
        >((h, data)),
{
    let full = h.frame_type == EXPECTED_FRAME_TYPE_FULL;
    let items = encode_items(data, full);
    let pad = zeros((h.frame_size * SIZE_UNIT - HEADER_SIZE_BYTES - items.len()) as nat);
    let s = encode_frame(h, data);
    lemma_encoded_items_len(data, full);
    lemma_header_read_back(h, items + pad);
    assert(s =~= encode_header(h) + (items + pad));
    let body = s.subrange(HEADER_SIZE_BYTES as int, s.len() as int);
    assert(body =~= items + pad);
    assert(body.subrange(0, items.len() as int) =~= items);
    lemma_items_read_back(data, full, body, data.len());
    assert(data.take(data.len() as int) =~= data);
    assert(decode_body(h, body) == Ok::<Seq<GrawData>, GrawFrameError>(data));
}

/// Appends the `width` low bytes of `n`, highest first.
fn push_be(out: &mut Vec<u8>, n: u64, width: usize)
    ensures
        final(out)@ == old(out)@ + be_bytes(n as nat, width as nat),
    decreases width,
{
    if width > 0 {
        push_be(out, n / 256, width - 1);
        out.push((n % 256) as u8);
        assert(out@ =~= old(out)@ + be_bytes(n as nat, width as nat));
    } else {
        assert(out@ =~= old(out)@ + be_bytes(n as nat, width as nat));
    }
}

/// Appends `count` bytes of zero.
fn push_zeros(out: &mut Vec<u8>, count: usize)
    ensures
        final(out)@ == old(out)@ + zeros(count as nat),
{
    let mut done: usize = 0;
    assert(out@ =~= old(out)@ + zeros(0));
    while done < count
        invariant
            done <= count,
            out@ == old(out)@ + zeros(done as nat),
        decreases count - done,
    {
        out.push(0);
        done = done + 1;
        assert(out@ =~= old(out)@ + zeros(done as nat));
    }
}

/// Writes a frame as bytes.
pub fn encode(frame: &GrawFrame) -> (bytes: Vec<u8>)
    requires
        encodable(frame.header, frame.data@),
    ensures
        bytes@ == encode_frame(frame.header, frame.data@),
{
    let h = &frame.header;
    let full: bool = h.frame_type == EXPECTED_FRAME_TYPE_FULL;
    let mut out: Vec<u8> = Vec::new();
    out.push(h.meta_type);
    push_be(&mut out, h.frame_size as u64, 3);
    out.push(h.data_source);
    push_be(&mut out, h.frame_type as u64, 2);
    out.push(h.revision);
    push_be(&mut out, h.header_size as u64, 2);
    push_be(&mut out, h.item_size as u64, 2);
    push_be(&mut out, h.n_items as u64, 4);
    push_be(&mut out, h.event_time, 6);
    push_be(&mut out, h.event_id as u64, 4);
    out.push(h.cobo_id);
    out.push(h.asad_id);
    push_be(&mut out, h.read_offset as u64, 2);
    out.push(h.status);
    push_zeros(&mut out, 225);
    assert(out@ =~= encode_header(*h));
    proof {
        lemma_header_read_back(*h, Seq::<u8>::empty());
        lemma_encoded_items_len(frame.data@, full);
        assert(frame.data@.take(0) =~= Seq::<GrawData>::empty());
        assert(out@ =~= encode_header(*h) + encode_items(frame.data@.take(0), full));
    }
    let mut i: usize = 0;
    while i < frame.data.len()
        invariant
            i <= frame.data.len(),
            encodable(frame.header, frame.data@),
            *h == frame.header,
            full == (h.frame_type == EXPECTED_FRAME_TYPE_FULL),
            out@ == encode_header(*h) + encode_items(frame.data@.take(i as int), full),
        decreases frame.data.len() - i,
    {
        let d: GrawData = frame.data[i];
        assert(d.in_range() && 0 <= d.sample < 4096);
        let ghost before = out@;
        if full {
            push_be(&mut out, (d.aget_id as u64) * 0x4000 + (d.sample as u64), 2);
        } else {
            push_be(
                &mut out,
                (d.aget_id as u64) * 0x4000_0000 + (d.channel as u64) * 0x80_0000 + (
                d.time_bucket_id as u64) * 0x4000 + (d.sample as u64),
                4,
            );
        }
        proof {
            let next = frame.data@.take(i as int + 1);
            assert(next.drop_last() =~= frame.data@.take(i as int));
            assert(next.last() == d);
            assert(out@ =~= encode_header(*h) + encode_items(next, full));
        }
        i = i + 1;
    }
    assert(frame.data@.take(i as int) =~= frame.data@);
    let total: usize = (h.frame_size as usize) * 256;
    let pad: usize = total - out.len();
    push_zeros(&mut out, pad);
    out
}

/// One more datum counts for its own AGET and for no other.
pub proof fn lemma_count_aget_step(data: Seq<GrawData>, i: int, aget: u8)
    requires
        0 <= i < data.len(),
    ensures
        count_aget(data.take(i + 1), aget) == count_aget(data.take(i), aget) + if data[i].aget_id
            == aget {
            1nat
        } else {
            0nat
        },
{
    assert(data.take(i + 1).drop_last() =~= data.take(i));
    assert(data.take(i + 1).last() == data[i]);
}

/// Whether a datum can be written behind the data `before`.
pub open spec fn datum_fits(before: Seq<GrawData>, d: GrawData, full: bool) -> bool {
    &&& d.in_range()
    &&& 0 <= d.sample < 4096
    &&& full ==> d.time_bucket_id * 68 + d.channel == count_aget(before, d.aget_id)
}

/// Data can be written exactly when each datum can be written behind those before it.
pub proof fn lemma_data_encodable_step(data: Seq<GrawData>, i: int, full: bool)
    requires
        0 <= i < data.len(),
    ensures
        data_encodable(data.take(i + 1), full) <==> (data_encodable(data.take(i), full)
            && datum_fits(data.take(i), data[i], full)),
        data_encodable(data, full) ==> data_encodable(data.take(i + 1), full),
{
    let front = data.take(i);
    let next = data.take(i + 1);
    assert(next[i] == data[i]);
    assert(next.take(i) =~= front);
    if data_encodable(next, full) {
        assert(next[i].in_range());
        assert forall|k: int| 0 <= k < front.len() implies (#[trigger] front[k]).in_range() && 0
            <= front[k].sample < 4096 by {
            assert(next[k] == front[k]);
        }
        if full {
            assert forall|k: int| 0 <= k < front.len() implies (
            #[trigger] front[k]).time_bucket_id * 68 + front[k].channel == count_aget(
                front.take(k),
                front[k].aget_id,
            ) by {
                assert(next[k] == front[k]);
                assert(next.take(k) =~= front.take(k));
            }
        }
    }
    if data_encodable(front, full) && datum_fits(front, data[i], full) {
        assert forall|k: int| 0 <= k < next.len() implies (#[trigger] next[k]).in_range() && 0
            <= next[k].sample < 4096 by {
            if k < i {
                assert(front[k] == next[k]);
            }
        }
        if full {
            assert forall|k: int| 0 <= k < next.len() implies (
            #[trigger] next[k]).time_bucket_id * 68 + next[k].channel == count_aget(
                next.take(k),
                next[k].aget_id,
            ) by {
                if k < i {
                    assert(front[k] == next[k]);
                    assert(next.take(k) =~= front.take(k));
                }
            }
        }
    }
    if data_encodable(data, full) {
        assert forall|k: int| 0 <= k < next.len() implies (#[trigger] next[k]).in_range() && 0
            <= next[k].sample < 4096 by {
            assert(data[k] == next[k]);
        }
        if full {
            assert forall|k: int| 0 <= k < next.len() implies (
            #[trigger] next[k]).time_bucket_id * 68 + next[k].channel == count_aget(
                next.take(k),
                next[k].aget_id,
            ) by {
                assert(data[k] == next[k]);
                assert(next.take(k) =~= data.take(k));
            }
        }
    }
}

/// Tests whether the data of a frame can be written.
fn data_fit(data: &Vec<GrawData>, full: bool) -> (ok: bool)
    requires
        data@.len() <= u32::MAX,
    ensures
        ok == data_encodable(data@, full),
{
    let mut seen0: u32 = 0;
    let mut seen1: u32 = 0;
    let mut seen2: u32 = 0;
    let mut seen3: u32 = 0;
    let mut i: usize = 0;
    assert(data@.take(0) =~= Seq::<GrawData>::empty());
    while i < data.len()
        invariant
            i <= data.len() <= u32::MAX,
            data_encodable(data@.take(i as int), full),
            seen0 == count_aget(data@.take(i as int), 0),
            seen1 == count_aget(data@.take(i as int), 1),
            seen2 == count_aget(data@.take(i as int), 2),
            seen3 == count_aget(data@.take(i as int), 3),
            seen0 <= i && seen1 <= i && seen2 <= i && seen3 <= i,
        decreases data.len() - i,
    {
        let d: GrawData = data[i];
        proof {
            lemma_count_aget_step(data@, i as int, 0);
            lemma_count_aget_step(data@, i as int, 1);
            lemma_count_aget_step(data@, i as int, 2);
            lemma_count_aget_step(data@, i as int, 3);
            lemma_data_encodable_step(data@, i as int, full);
        }
        if !datum_fit(&d, full, seen0, seen1, seen2, seen3) {
            return false;
        }
        if d.aget_id == 0 {
            seen0 = seen0 + 1;
        } else if d.aget_id == 1 {
            seen1 = seen1 + 1;
        } else if d.aget_id == 2 {
            seen2 = seen2 + 1;
        } else {
            seen3 = seen3 + 1;
        }
        i = i + 1;
    }
    assert(data@.take(i as int) =~= data@);
    true
}

/// Tests whether a datum can be written when so many items of each AGET came before it.
fn datum_fit(d: &GrawData, full: bool, seen0: u32, seen1: u32, seen2: u32, seen3: u32) -> (ok:
    bool)
    ensures
        ok == (d.in_range() && 0 <= d.sample < 4096 && (full ==> d.time_bucket_id * 68 + d.channel
            == (if d.aget_id == 0 {
            seen0
        } else if d.aget_id == 1 {
            seen1
        } else if d.aget_id == 2 {
            seen2
        } else {
            seen3
        }))),
{
    let seen: u32 = if d.aget_id == 0 {
        seen0
    } else if d.aget_id == 1 {
        seen1
    } else if d.aget_id == 2 {
        seen2
    } else {
        seen3
    };
    let in_place: bool = (d.time_bucket_id as u32) * 68 + (d.channel as u32) == seen;
    d.check_data().is_ok() && 0 <= d.sample && d.sample < 4096 && (!full || in_place)
}

/// Tests whether a frame can be written.
pub fn can_encode(frame: &GrawFrame) -> (ok: bool)
    ensures
        ok == encodable(frame.header, frame.data@),
{
    let h = &frame.header;
    let full: bool = h.frame_type == EXPECTED_FRAME_TYPE_FULL;
    let width: u64 = if full {
        2
    } else {
        4
    };
    match h.check_header() {
        Err(_) => {
            return false;
        },
        Ok(()) => {},
    }
    if h.frame_size >= 0x100_0000 || h.event_time >= 0x1_0000_0000_0000 {
        return false;
    }
    if frame.data.len() != h.n_items as usize {
        return false;
    }
    if (h.frame_size as u64) * 256 < 256 + width * (h.n_items as u64) {
        return false;
    }
    data_fit(&frame.data, full)
}

/// Writes a frame as bytes, if it can be written.
pub fn try_encode(frame: &GrawFrame) -> (r: Option<Vec<u8>>)
    ensures
        match r {
            Some(bytes) => encodable(frame.header, frame.data@) && bytes@ == encode_frame(
                frame.header,
                frame.data@,
            ),
            None => !encodable(frame.header, frame.data@),
        },
{
    if can_encode(frame) {
        Some(encode(frame))
    } else {
        None
    }
}

} // verus!
