use attpc_conduit::error::PadMapError;
use attpc_conduit::pad_map::PadMap;

fn ids(pm: &PadMap) -> Vec<(u8, u8, u8, u8, u16)> {
    let mut v: Vec<(u8, u8, u8, u8, u16)> =
        pm.map.values().map(|h| (h.cobo_id, h.asad_id, h.aget_id, h.channel, h.pad_id)).collect();
    v.sort();
    v
}

#[test]
fn text_with_three_records_gives_three_entries() {
    let pm = PadMap::from_text(b"0,0,0,0,0\n1,2,3,67,10239\n10,3,3,5,65535\n").unwrap();
    assert_eq!(ids(&pm), vec![(0, 0, 0, 0, 0), (1, 2, 3, 67, 10239), (10, 3, 3, 5, 65535)]);
    let hw = pm.get_hardware_id(&1, &2, &3, &67).unwrap();
    assert_eq!(hw.pad_id, 10239);
    assert!(pm.get_hardware_id(&1, &2, &3, &66).is_none());
}

#[test]
fn last_line_needs_no_line_feed() {
    let pm = PadMap::from_text(b"0,0,0,0,7\n255,255,255,255,9").unwrap();
    assert_eq!(ids(&pm), vec![(0, 0, 0, 0, 7), (255, 255, 255, 255, 9)]);
}

#[test]
fn empty_text_gives_an_empty_map() {
    let pm = PadMap::from_text(b"").unwrap();
    assert!(pm.map.is_empty());
}

#[test]
fn leading_zeros_are_read_as_numbers() {
    let pm = PadMap::from_text(b"001,02,3,004,00012\n").unwrap();
    assert_eq!(ids(&pm), vec![(1, 2, 3, 4, 12)]);
}

#[test]
fn later_record_replaces_earlier_one_with_the_same_coordinates() {
    let pm = PadMap::from_text(b"1,1,1,1,5\n1,1,1,1,6\n").unwrap();
    assert_eq!(ids(&pm), vec![(1, 1, 1, 1, 6)]);
}

#[test]
fn white_space_is_a_bad_format() {
    for text in [
        &b" 1,2,3,4,5\n"[..],
        b"1,2,3,4,5 \n",
        b"1, 2,3,4,5\n",
        b"1,2,3,4,5\r\n",
        b"1,2,3,4,5\n\t1,2,3,4,5\n",
    ] {
        assert!(matches!(PadMap::from_text(text), Err(PadMapError::BadFileFormat)));
    }
}

#[test]
fn wrong_number_of_fields_is_a_bad_format() {
    for text in [
        &b"1,2,3,4\n"[..],
        b"1,2,3,4,5,6\n",
        b"1,2,3,4,5,\n",
        b"12345\n",
        b"1,2,3,4,5\n\n1,2,3,4,6\n",
        b"\n",
    ] {
        assert!(matches!(PadMap::from_text(text), Err(PadMapError::BadFileFormat)));
    }
}

#[test]
fn field_that_is_no_number_is_a_parsing_error() {
    for text in [
        &b"1,2,x,4,5\n"[..],
        b"1,2,,4,5\n",
        b"1,2,3,4,-5\n",
        b"1,2,3,4,+5\n",
        b"1,2,3,4,5.0\n",
        b",,,,\n",
    ] {
        assert!(matches!(PadMap::from_text(text), Err(PadMapError::ParsingError)));
    }
}

#[test]
fn number_too_large_for_its_field_is_a_parsing_error() {
    for text in [
        &b"256,0,0,0,0\n"[..],
        b"0,0,0,256,0\n",
        b"0,0,0,0,65536\n",
        b"0,0,0,0,99999999999999999999\n",
    ] {
        assert!(matches!(PadMap::from_text(text), Err(PadMapError::ParsingError)));
    }
    assert!(PadMap::from_text(b"255,255,255,255,65535\n").is_ok());
}

#[test]
fn first_failing_line_decides_the_error() {
    assert!(matches!(
        PadMap::from_text(b"1,2,3,4,5\n1,2,3,4,x\n1,2,3\n"),
        Err(PadMapError::ParsingError)
    ));
    assert!(matches!(
        PadMap::from_text(b"1,2,3,4,5\n1,2,3\n1,2,3,4,x\n"),
        Err(PadMapError::BadFileFormat)
    ));
    // within one line the format is judged before the numbers
    assert!(matches!(PadMap::from_text(b"x,2,3,4\n"), Err(PadMapError::BadFileFormat)));
}
