use attpc_conduit::error::{ECCReceiverError, GrawDataError, GrawFrameError};
use attpc_conduit::frame_encoding::{can_encode, encode, try_encode};
use attpc_conduit::graw_frame::{read_u16, read_u24, read_u32, read_u48, GrawData, GrawFrame, GrawFrameHeader};
use attpc_conduit::receiver::{exporter_address, plan_read, reciever_read_frame, ReadPlan};

fn header_bytes(
    meta_type: u8,
    frame_size: u32,
    frame_type: u16,
    header_size: u16,
    item_size: u16,
    n_items: u32,
    event_time: u64,
    event_id: u32,
    cobo: u8,
    asad: u8,
) -> Vec<u8> {
    let mut h = vec![0u8; 256];
    h[0] = meta_type;
    h[1..4].copy_from_slice(&frame_size.to_be_bytes()[1..4]);
    h[4] = 0x11;
    h[5..7].copy_from_slice(&frame_type.to_be_bytes());
    h[7] = 5;
    h[8..10].copy_from_slice(&header_size.to_be_bytes());
    h[10..12].copy_from_slice(&item_size.to_be_bytes());
    h[12..16].copy_from_slice(&n_items.to_be_bytes());
    h[16..22].copy_from_slice(&event_time.to_be_bytes()[2..8]);
    h[22..26].copy_from_slice(&event_id.to_be_bytes());
    h[26] = cobo;
    h[27] = asad;
    h[28..30].copy_from_slice(&0x0203u16.to_be_bytes());
    h[30] = 9;
    h
}

fn partial_item(aget: u32, channel: u32, bucket: u32, sample: u32) -> [u8; 4] {
    ((aget << 30) | (channel << 23) | (bucket << 14) | sample).to_be_bytes()
}

fn partial_frame(event_id: u32, cobo: u8, asad: u8, items: &[(u32, u32, u32, u32)]) -> Vec<u8> {
    let body_len = ((items.len() * 4 + 255) / 256) * 256;
    let frame_size = (256 + body_len) / 256;
    let mut bytes = header_bytes(8, frame_size as u32, 1, 1, 4, items.len() as u32, 0x0102_0304_0506, event_id, cobo, asad);
    for (a, c, t, s) in items {
        bytes.extend_from_slice(&partial_item(*a, *c, *t, *s));
    }
    bytes.resize(256 + body_len, 0);
    bytes
}

fn full_frame(event_id: u32, words: &[u16]) -> Vec<u8> {
    let body_len = ((words.len() * 2 + 255) / 256) * 256;
    let frame_size = (256 + body_len) / 256;
    let mut bytes = header_bytes(8, frame_size as u32, 2, 1, 2, words.len() as u32, 77, event_id, 1, 2);
    for w in words {
        bytes.extend_from_slice(&w.to_be_bytes());
    }
    bytes.resize(256 + body_len, 0);
    bytes
}

#[test]
fn big_endian_readers_give_exact_values() {
    let b = [0x12u8, 0x34, 0x56, 0x78, 0x9a, 0xbc, 0xde];
    assert_eq!(read_u16(&b, 0), 0x1234);
    assert_eq!(read_u16(&b, 5), 0xbcde);
    assert_eq!(read_u24(&b, 1), 0x345678);
    assert_eq!(read_u32(&b, 2), 0x56789abc);
    assert_eq!(read_u48(&b, 1), 0x3456_789a_bcde);
}

#[test]
fn header_fields_are_read_from_their_offsets() {
    let bytes = header_bytes(8, 3, 1, 1, 4, 130, 0x0102_0304_0506, 0xdead_beef, 10, 3);
    let h = GrawFrameHeader::from_buffer(&bytes).unwrap();
    assert_eq!(
        h,
        GrawFrameHeader {
            meta_type: 8,
            frame_size: 3,
            data_source: 0x11,
            frame_type: 1,
            revision: 5,
            header_size: 1,
            item_size: 4,
            n_items: 130,
            event_time: 0x0102_0304_0506,
            event_id: 0xdead_beef,
            cobo_id: 10,
            asad_id: 3,
            read_offset: 0x0203,
            status: 9,
        }
    );
}

#[test]
fn header_shorter_than_256_bytes_is_an_io_error() {
    let bytes = vec![8u8; 255];
    assert_eq!(GrawFrameHeader::from_buffer(&bytes), Err(GrawFrameError::IOError(256, 255)));
    assert_eq!(GrawFrameHeader::from_buffer(&[]), Err(GrawFrameError::IOError(256, 0)));
}

#[test]
fn wrong_meta_type_is_rejected() {
    let bytes = header_bytes(6, 1, 1, 1, 4, 0, 0, 1, 0, 0);
    assert_eq!(GrawFrameHeader::from_buffer(&bytes), Err(GrawFrameError::IncorrectMetaType(6)));
}

#[test]
fn wrong_frame_type_is_rejected() {
    let bytes = header_bytes(8, 1, 3, 1, 4, 0, 0, 1, 0, 0);
    assert_eq!(GrawFrameHeader::from_buffer(&bytes), Err(GrawFrameError::IncorrectFrameType(3)));
    let bytes = header_bytes(8, 1, 0, 1, 4, 0, 0, 1, 0, 0);
    assert_eq!(GrawFrameHeader::from_buffer(&bytes), Err(GrawFrameError::IncorrectFrameType(0)));
}

#[test]
fn wrong_header_size_is_rejected() {
    let bytes = header_bytes(8, 1, 1, 2, 4, 0, 0, 1, 0, 0);
    assert_eq!(GrawFrameHeader::from_buffer(&bytes), Err(GrawFrameError::IncorrectHeaderSize(2)));
}

#[test]
fn full_frame_with_partial_item_size_is_rejected() {
    let bytes = header_bytes(8, 1, 2, 1, 4, 0, 0, 1, 0, 0);
    assert_eq!(GrawFrameHeader::from_buffer(&bytes), Err(GrawFrameError::IncorrectItemSize(4)));
}

#[test]
fn partial_frame_with_full_item_size_is_rejected() {
    let bytes = header_bytes(8, 1, 1, 1, 2, 0, 0, 1, 0, 0);
    assert_eq!(GrawFrameHeader::from_buffer(&bytes), Err(GrawFrameError::IncorrectItemSize(2)));
}

#[test]
fn header_checks_fail_in_order() {
    // every rule broken at once: the meta type is reported
    let bytes = header_bytes(7, 9, 5, 3, 9, 0, 0, 1, 0, 0);
    assert!(matches!(GrawFrame::from_buffer(&bytes), Err(GrawFrameError::IncorrectMetaType(7))));
    let bytes = header_bytes(8, 9, 5, 3, 9, 0, 0, 1, 0, 0);
    assert!(matches!(GrawFrame::from_buffer(&bytes), Err(GrawFrameError::IncorrectFrameType(5))));
    let bytes = header_bytes(8, 9, 2, 3, 9, 0, 0, 1, 0, 0);
    assert!(matches!(GrawFrame::from_buffer(&bytes), Err(GrawFrameError::IncorrectHeaderSize(3))));
    let bytes = header_bytes(8, 9, 2, 1, 9, 0, 0, 1, 0, 0);
    assert!(matches!(GrawFrame::from_buffer(&bytes), Err(GrawFrameError::IncorrectItemSize(9))));
    let bytes = header_bytes(8, 9, 2, 1, 2, 0, 0, 1, 0, 0);
    assert!(matches!(GrawFrame::from_buffer(&bytes), Err(GrawFrameError::IncorrectFrameSize(9, 256))));
}

#[test]
fn declared_size_must_match_the_buffer() {
    let mut bytes = partial_frame(1, 0, 0, &[(0, 0, 0, 1)]);
    assert_eq!(bytes.len(), 512);
    bytes.push(0);
    assert!(matches!(GrawFrame::from_buffer(&bytes), Err(GrawFrameError::IncorrectFrameSize(2, 513))));
    let zero = header_bytes(8, 0, 1, 1, 4, 0, 0, 1, 0, 0);
    assert!(matches!(GrawFrame::from_buffer(&zero), Err(GrawFrameError::IncorrectFrameSize(0, 256))));
}

#[test]
fn partial_items_are_unpacked_bit_by_bit() {
    let bytes = partial_frame(42, 3, 1, &[(3, 67, 511, 4095), (0, 0, 0, 0), (2, 5, 100, 1234)]);
    let frame = GrawFrame::from_buffer(&bytes).unwrap();
    assert_eq!(frame.header.event_id, 42);
    assert_eq!(frame.header.cobo_id, 3);
    assert_eq!(frame.header.asad_id, 1);
    assert_eq!(frame.header.event_time, 0x0102_0304_0506);
    assert_eq!(
        frame.data,
        vec![
            GrawData { aget_id: 3, channel: 67, time_bucket_id: 511, sample: 4095 },
            GrawData { aget_id: 0, channel: 0, time_bucket_id: 0, sample: 0 },
            GrawData { aget_id: 2, channel: 5, time_bucket_id: 100, sample: 1234 },
        ]
    );
}

#[test]
fn partial_item_ignores_the_two_spare_bits() {
    let mut bytes = partial_frame(1, 0, 0, &[(1, 2, 3, 4)]);
    bytes[258] |= 0x30;
    let frame = GrawFrame::from_buffer(&bytes).unwrap();
    assert_eq!(frame.data, vec![GrawData { aget_id: 1, channel: 2, time_bucket_id: 3, sample: 4 }]);
}

#[test]
fn partial_item_with_channel_68_is_a_bad_datum() {
    let bytes = partial_frame(1, 0, 0, &[(0, 1, 1, 1), (1, 68, 0, 0), (0, 127, 0, 0)]);
    assert!(matches!(
        GrawFrame::from_buffer(&bytes),
        Err(GrawFrameError::BadDatum(GrawDataError::BadChannel(68)))
    ));
}

#[test]
fn items_beyond_the_buffer_are_an_io_error() {
    let mut bytes = partial_frame(1, 0, 0, &[(0, 1, 1, 1)]);
    // declare more items than the 256 bytes of body can hold
    bytes[12..16].copy_from_slice(&65u32.to_be_bytes());
    assert!(matches!(GrawFrame::from_buffer(&bytes), Err(GrawFrameError::IOError(260, 256))));
}

#[test]
fn a_bad_datum_before_the_end_of_the_buffer_wins() {
    let mut bytes = partial_frame(1, 0, 0, &[(0, 1, 1, 1), (0, 70, 1, 1)]);
    bytes[12..16].copy_from_slice(&65u32.to_be_bytes());
    assert!(matches!(
        GrawFrame::from_buffer(&bytes),
        Err(GrawFrameError::BadDatum(GrawDataError::BadChannel(70)))
    ));
}

#[test]
fn full_items_take_channel_and_bucket_from_their_place() {
    // AGETs 0,0,1,0 and then 3
    let words = [0x0001u16, 0x0002, 0x4003, 0x0fff, 0xc123];
    let frame = GrawFrame::from_buffer(&full_frame(9, &words)).unwrap();
    assert_eq!(
        frame.data,
        vec![
            GrawData { aget_id: 0, channel: 0, time_bucket_id: 0, sample: 1 },
            GrawData { aget_id: 0, channel: 1, time_bucket_id: 0, sample: 2 },
            GrawData { aget_id: 1, channel: 0, time_bucket_id: 0, sample: 3 },
            GrawData { aget_id: 0, channel: 2, time_bucket_id: 0, sample: 4095 },
            GrawData { aget_id: 3, channel: 0, time_bucket_id: 0, sample: 0x123 },
        ]
    );
}

#[test]
fn full_items_move_to_the_next_bucket_after_68_channels() {
    let words = vec![0x8005u16; 70];
    let frame = GrawFrame::from_buffer(&full_frame(9, &words)).unwrap();
    assert_eq!(frame.data.len(), 70);
    assert_eq!(frame.data[67], GrawData { aget_id: 2, channel: 67, time_bucket_id: 0, sample: 5 });
    assert_eq!(frame.data[68], GrawData { aget_id: 2, channel: 0, time_bucket_id: 1, sample: 5 });
    assert_eq!(frame.data[69], GrawData { aget_id: 2, channel: 1, time_bucket_id: 1, sample: 5 });
}

#[test]
fn full_frame_with_too_many_items_of_one_aget_runs_out_of_buckets() {
    let words = vec![0x4000u16; 68 * 512];
    let frame = GrawFrame::from_buffer(&full_frame(9, &words)).unwrap();
    assert_eq!(frame.data.len(), 68 * 512);
    assert_eq!(frame.data[68 * 512 - 1], GrawData { aget_id: 1, channel: 67, time_bucket_id: 511, sample: 0 });
    let words = vec![0x4000u16; 68 * 512 + 1];
    assert!(matches!(
        GrawFrame::from_buffer(&full_frame(9, &words)),
        Err(GrawFrameError::BadDatum(GrawDataError::BadTimeBucket(512)))
    ));
}

#[test]
fn read_takes_the_body_alone() {
    let bytes = partial_frame(4, 1, 1, &[(1, 1, 1, 1), (2, 2, 2, 2)]);
    let header = GrawFrameHeader::from_buffer(&bytes[0..256]).unwrap();
    let mut frame = GrawFrame::new(header);
    assert!(frame.data.is_empty());
    assert_eq!(frame.read(&bytes[256..]), Ok(()));
    assert_eq!(frame.data.len(), 2);
    assert_eq!(frame.data[1], GrawData { aget_id: 2, channel: 2, time_bucket_id: 2, sample: 2 });
    // a body of the wrong length leaves the frame as it was
    assert_eq!(frame.read(&bytes[256..300]), Err(GrawFrameError::IncorrectFrameSize(2, 300)));
    assert_eq!(frame.data.len(), 2);
}

#[test]
fn datum_with_aget_4_is_bad() {
    let d = GrawData { aget_id: 4, channel: 0, time_bucket_id: 0, sample: 0 };
    assert_eq!(d.check_data(), Err(GrawDataError::BadAgetID(4)));
}

#[test]
fn datum_with_channel_68_is_bad() {
    let d = GrawData { aget_id: 3, channel: 68, time_bucket_id: 0, sample: 0 };
    assert_eq!(d.check_data(), Err(GrawDataError::BadChannel(68)));
}

#[test]
fn datum_with_time_bucket_512_is_bad() {
    let d = GrawData { aget_id: 3, channel: 67, time_bucket_id: 512, sample: 0 };
    assert_eq!(d.check_data(), Err(GrawDataError::BadTimeBucket(512)));
}

#[test]
fn datum_at_the_upper_edges_is_good() {
    let d = GrawData { aget_id: 3, channel: 67, time_bucket_id: 511, sample: -7 };
    assert_eq!(d.check_data(), Ok(()));
}

#[test]
fn datum_errors_come_in_field_order() {
    let d = GrawData { aget_id: 9, channel: 99, time_bucket_id: 999, sample: 0 };
    assert_eq!(d.check_data(), Err(GrawDataError::BadAgetID(9)));
    let d = GrawData { aget_id: 0, channel: 99, time_bucket_id: 999, sample: 0 };
    assert_eq!(d.check_data(), Err(GrawDataError::BadChannel(99)));
}

#[test]
fn errors_convert_between_layers() {
    assert_eq!(
        GrawFrameError::from(GrawDataError::BadChannel(70)),
        GrawFrameError::BadDatum(GrawDataError::BadChannel(70))
    );
    assert_eq!(
        ECCReceiverError::from(GrawFrameError::IncorrectMetaType(1)),
        ECCReceiverError::BadFrame(GrawFrameError::IncorrectMetaType(1))
    );
}

#[test]
fn zero_length_message_is_skipped() {
    assert_eq!(plan_read(0), ReadPlan::Skip);
    assert_eq!(plan_read(1), ReadPlan::ReadFrame(1));
    assert_eq!(plan_read(512), ReadPlan::ReadFrame(512));
}

#[test]
fn receiver_decodes_a_message_or_reports_the_bad_frame() {
    let bytes = partial_frame(5, 2, 0, &[(1, 2, 3, 4)]);
    let frame = reciever_read_frame(&bytes).unwrap();
    assert_eq!(frame.header.event_id, 5);
    assert_eq!(frame.data, vec![GrawData { aget_id: 1, channel: 2, time_bucket_id: 3, sample: 4 }]);
    let mut bad = bytes.clone();
    bad[0] = 1;
    assert!(matches!(
        reciever_read_frame(&bad),
        Err(ECCReceiverError::BadFrame(GrawFrameError::IncorrectMetaType(1)))
    ));
    assert!(matches!(
        reciever_read_frame(&bytes[0..100]),
        Err(ECCReceiverError::BadFrame(GrawFrameError::IOError(256, 100)))
    ));
}

#[test]
fn exporters_sit_at_consecutive_addresses() {
    assert_eq!(exporter_address(0), [192, 168, 41, 60]);
    assert_eq!(exporter_address(10), [192, 168, 41, 70]);
}

#[test]
fn encode_writes_the_bytes_of_the_format() {
    let bytes = partial_frame(42, 3, 1, &[(3, 67, 511, 4095), (2, 5, 100, 1234)]);
    let frame = GrawFrame::from_buffer(&bytes).unwrap();
    assert_eq!(encode(&frame), bytes);
    let bytes = full_frame(9, &[0x0001u16, 0x0002, 0x4003, 0x0fff, 0xc123]);
    let frame = GrawFrame::from_buffer(&bytes).unwrap();
    assert_eq!(encode(&frame), bytes);
}

#[test]
fn decoding_an_encoded_frame_gives_it_back() {
    let mut frame = GrawFrame::new(GrawFrameHeader {
        meta_type: 8,
        frame_size: 3,
        data_source: 200,
        frame_type: 1,
        revision: 5,
        header_size: 1,
        item_size: 4,
        n_items: 3,
        event_time: 0xffff_ffff_ffff,
        event_id: u32::MAX,
        cobo_id: 255,
        asad_id: 254,
        read_offset: 65535,
        status: 1,
    });
    frame.data.push(GrawData { aget_id: 3, channel: 67, time_bucket_id: 511, sample: 4095 });
    frame.data.push(GrawData { aget_id: 0, channel: 0, time_bucket_id: 0, sample: 0 });
    frame.data.push(GrawData { aget_id: 1, channel: 30, time_bucket_id: 256, sample: 2048 });
    let bytes = encode(&frame);
    assert_eq!(bytes.len(), 768);
    assert_eq!(&bytes[256..260], &[0xe1, 0xff, 0xcf, 0xff]);
    let back = GrawFrame::from_buffer(&bytes).unwrap();
    assert_eq!(back.header, frame.header);
    assert_eq!(back.data, frame.data);
}

#[test]
fn decoding_an_encoded_full_frame_gives_it_back() {
    let mut frame = GrawFrame::new(GrawFrameHeader {
        meta_type: 8,
        frame_size: 2,
        data_source: 0,
        frame_type: 2,
        revision: 5,
        header_size: 1,
        item_size: 2,
        n_items: 70,
        event_time: 12345,
        event_id: 6,
        cobo_id: 1,
        asad_id: 2,
        read_offset: 0,
        status: 0,
    });
    for seen in 0..69u16 {
        frame.data.push(GrawData {
            aget_id: 2,
            channel: (seen % 68) as u8,
            time_bucket_id: seen / 68,
            sample: seen as i16,
        });
    }
    frame.data.push(GrawData { aget_id: 0, channel: 0, time_bucket_id: 0, sample: 7 });
    let back = GrawFrame::from_buffer(&encode(&frame)).unwrap();
    assert_eq!(back.header, frame.header);
    assert_eq!(back.data, frame.data);
}

fn small_frame(frame_type: u16, item_size: u16, data: &[(u8, u8, u16, i16)]) -> GrawFrame {
    let mut frame = GrawFrame::new(GrawFrameHeader {
        meta_type: 8,
        frame_size: 2,
        data_source: 0,
        frame_type,
        revision: 5,
        header_size: 1,
        item_size,
        n_items: data.len() as u32,
        event_time: 1,
        event_id: 1,
        cobo_id: 0,
        asad_id: 0,
        read_offset: 0,
        status: 0,
    });
    for (aget, channel, bucket, sample) in data {
        frame.data.push(GrawData { aget_id: *aget, channel: *channel, time_bucket_id: *bucket, sample: *sample });
    }
    frame
}

#[test]
fn frames_that_fit_the_format_are_written() {
    let frame = small_frame(1, 4, &[(3, 67, 511, 4095), (0, 0, 0, 0)]);
    assert!(can_encode(&frame));
    let bytes = try_encode(&frame).unwrap();
    assert_eq!(bytes.len(), 512);
    assert_eq!(GrawFrame::from_buffer(&bytes).unwrap().data, frame.data);
    let frame = small_frame(2, 2, &[(1, 0, 0, 5), (0, 0, 0, 6), (1, 1, 0, 7)]);
    assert!(can_encode(&frame));
    assert_eq!(GrawFrame::from_buffer(&try_encode(&frame).unwrap()).unwrap().data, frame.data);
}

#[test]
fn frames_that_do_not_fit_the_format_are_not_written() {
    // a sample of more than twelve bits
    assert!(try_encode(&small_frame(1, 4, &[(0, 0, 0, 4096)])).is_none());
    assert!(try_encode(&small_frame(1, 4, &[(0, 0, 0, -1)])).is_none());
    // a datum out of range
    assert!(try_encode(&small_frame(1, 4, &[(0, 68, 0, 1)])).is_none());
    // a full-readout datum out of place
    assert!(try_encode(&small_frame(2, 2, &[(1, 1, 0, 5)])).is_none());
    assert!(try_encode(&small_frame(2, 2, &[(1, 0, 0, 5), (1, 0, 0, 5)])).is_none());
    // a header that breaks a rule, or counts other items than there are
    let mut frame = small_frame(1, 4, &[(0, 0, 0, 1)]);
    frame.header.meta_type = 7;
    assert!(!can_encode(&frame));
    let mut frame = small_frame(1, 4, &[(0, 0, 0, 1)]);
    frame.header.n_items = 2;
    assert!(!can_encode(&frame));
    // a declared size too small for the items
    let mut frame = small_frame(1, 4, &[(0, 0, 0, 1)]);
    frame.header.frame_size = 1;
    assert!(!can_encode(&frame));
    // numbers too wide for their fields
    let mut frame = small_frame(1, 4, &[(0, 0, 0, 1)]);
    frame.header.event_time = 1 << 48;
    assert!(!can_encode(&frame));
}
