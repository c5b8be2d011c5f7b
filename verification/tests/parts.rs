use fastlz::buffer::copy_literals;
use fastlz::decode::copy_reference;
use fastlz::encode::{emit_literals, emit_reference, emit_run};
use fastlz::finder::{enter, enter_range, find_match, match_length, Match};
use fastlz::format::{
    MAX_DISTANCE, MAX_LITERAL_RUN, MAX_MATCH_LEN, MAX_SHORT_MATCH_LEN, MIN_MATCH_LEN,
};
use fastlz::index::{signature_of, HashIndex, INDEX_SLOTS};

#[test]
fn format_limits() {
    assert_eq!(MAX_LITERAL_RUN, 32);
    assert_eq!(MIN_MATCH_LEN, 3);
    assert_eq!(MAX_SHORT_MATCH_LEN, 8);
    assert_eq!(MAX_MATCH_LEN, 264);
    assert_eq!(MAX_DISTANCE, 8192);
    assert_eq!(INDEX_SLOTS, 8192);
}

#[test]
fn signature_values() {
    assert_eq!(signature_of(0, 0, 0), 0);
    assert_eq!(signature_of(1, 0, 0), 5062);
    assert_eq!(signature_of(0x41, 0x41, 0x41), 1342);
    assert_eq!(signature_of(1, 2, 3), 3914);
    assert_eq!(signature_of(255, 255, 255), 857);
}

#[test]
fn signature_stays_in_the_table() {
    for a in (0..=255u8).step_by(5) {
        for b in (0..=255u8).step_by(17) {
            for c in (0..=255u8).step_by(3) {
                assert!(signature_of(a, b, c) < INDEX_SLOTS);
            }
        }
    }
}

#[test]
fn index_keeps_the_latest_position() {
    let mut index = HashIndex::new();
    assert_eq!(index.lookup(0), 0);
    assert_eq!(index.lookup(8191), 0);
    index.record(17, 40);
    index.record(18, 50);
    assert_eq!(index.lookup(17), 40);
    index.record(17, 90);
    assert_eq!(index.lookup(17), 90);
    assert_eq!(index.lookup(18), 50);
    assert_eq!(index.lookup(16), 0);
}

#[test]
fn match_length_counts_agreeing_bytes() {
    let data = b"abcdXabcdYabcdX";
    assert_eq!(match_length(data, 0, 5, 264), 4);
    assert_eq!(match_length(data, 0, 10, 264), 5);
    assert_eq!(match_length(data, 0, 10, 3), 3);
    assert_eq!(match_length(data, 0, 10, 0), 0);
    assert_eq!(match_length(data, 1, 5, 264), 0);
    assert_eq!(match_length(data, 0, 15, 264), 0);
    let same = [3u8; 600];
    assert_eq!(match_length(&same, 0, 1, 264), 264);
    assert_eq!(match_length(&same, 0, 400, 264), 200);
}

#[test]
fn enter_records_positions_with_three_bytes() {
    let data = [1u8, 2, 3, 1, 2];
    let slot = signature_of(1, 2, 3);
    let mut index = HashIndex::new();
    enter(&data, &mut index, 0);
    assert_eq!(index.lookup(slot), 0);
    index.record(slot, 77);
    enter(&data, &mut index, 3);
    enter(&data, &mut index, 4);
    enter(&data, &mut index, 5);
    enter(&data, &mut index, usize::MAX);
    assert_eq!(index.lookup(slot), 77);
    enter(&data, &mut index, 0);
    assert_eq!(index.lookup(slot), 0);
    enter(&[1, 2], &mut index, 0);
    assert_eq!(index.lookup(slot), 0);
}

#[test]
fn enter_range_records_in_rising_order() {
    let data = [5u8; 10];
    let slot = signature_of(5, 5, 5);
    let mut index = HashIndex::new();
    enter_range(&data, &mut index, 2, 6);
    assert_eq!(index.lookup(slot), 5);
    enter_range(&data, &mut index, 6, 10);
    assert_eq!(index.lookup(slot), 7);
    enter_range(&data, &mut index, 3, 3);
    enter_range(&data, &mut index, 4, 2);
    assert_eq!(index.lookup(slot), 7);
}

#[test]
fn finder_proposes_the_indexed_repeat() {
    let data = b"abcdef__abcdeZ";
    let mut index = HashIndex::new();
    assert_eq!(find_match(data, &index, 0), None);
    enter_range(data, &mut index, 0, 8);
    assert_eq!(find_match(data, &index, 8), Some(Match { distance: 8, length: 5 }));
    assert_eq!(find_match(data, &index, 9), Some(Match { distance: 8, length: 4 }));
    assert_eq!(find_match(data, &index, 11), None);
    assert_eq!(find_match(data, &index, 12), None);
    assert_eq!(find_match(data, &index, 14), None);
    assert_eq!(find_match(data, &index, 200), None);
}

#[test]
fn finder_rejects_what_is_too_short_or_too_far() {
    let mut data = vec![0u8; 9000];
    for (place, byte) in data.iter_mut().enumerate() {
        *byte = (place % 7 + place / 7 % 11) as u8;
    }
    data[0] = 200;
    data[1] = 201;
    data[2] = 202;
    data[8192] = 200;
    data[8193] = 201;
    data[8194] = 202;
    data[8195] = 250;
    data[8500] = 200;
    data[8501] = 201;
    data[8502] = 202;
    data[8503] = 251;
    let mut index = HashIndex::new();
    enter(&data, &mut index, 0);
    assert_eq!(find_match(&data, &index, 8192), Some(Match { distance: 8192, length: 3 }));
    assert_eq!(find_match(&data, &index, 8500), None);
    enter(&data, &mut index, 8192);
    assert_eq!(find_match(&data, &index, 8500), Some(Match { distance: 308, length: 3 }));

    let near = [9u8, 9, 8, 9, 9, 7, 0];
    let mut index = HashIndex::new();
    index.record(signature_of(9, 9, 7), 0);
    assert_eq!(find_match(&near, &index, 3), None);
    index.record(signature_of(9, 9, 7), 3);
    assert_eq!(find_match(&near, &index, 3), None);
    index.record(signature_of(9, 9, 7), 5);
    assert_eq!(find_match(&near, &index, 3), None);
}

#[test]
fn finder_proposes_nothing_near_the_end() {
    let index = HashIndex::new();
    assert_eq!(find_match(&[], &index, 0), None);
    assert_eq!(find_match(&[4, 4], &index, 1), None);
    assert_eq!(find_match(&[4, 4, 4], &index, 1), None);
    assert_eq!(find_match(&[4, 4, 4, 4], &index, 1), Some(Match { distance: 1, length: 3 }));
    assert_eq!(find_match(&[4, 4, 4, 4], &index, 2), None);
}

#[test]
fn finder_caps_the_length() {
    let data = [1u8; 1000];
    let mut index = HashIndex::new();
    enter(&data, &mut index, 0);
    assert_eq!(find_match(&data, &index, 1), Some(Match { distance: 1, length: 264 }));
    assert_eq!(find_match(&data, &index, 900), Some(Match { distance: 900, length: 100 }));
    assert_eq!(find_match(&data, &index, 997), Some(Match { distance: 997, length: 3 }));
    assert_eq!(find_match(&data, &index, 998), None);
}

#[test]
fn copy_literals_writes_only_its_bytes() {
    let mut buffer = [0u8; 8];
    copy_literals(b"hello", 1, 3, &mut buffer, 2);
    assert_eq!(buffer, [0, 0, b'e', b'l', b'l', 0, 0, 0]);
    copy_literals(b"hello", 5, 0, &mut buffer, 8);
    assert_eq!(buffer, [0, 0, b'e', b'l', b'l', 0, 0, 0]);
}

#[test]
fn copy_reference_repeats_what_it_wrote() {
    let mut buffer = [b'a', b'b', 0, 0, 0, 0, 0, 9];
    copy_reference(&mut buffer, 2, 2, 5);
    assert_eq!(&buffer, b"abababa\x09");
    let mut buffer = [b'x', b'y', b'z', 1, 1, 1, 1];
    copy_reference(&mut buffer, 3, 1, 3);
    assert_eq!(&buffer, b"xyzzzz\x01");
    copy_reference(&mut buffer, 3, 3, 0);
    assert_eq!(&buffer, b"xyzzzz\x01");
}

#[test]
fn emit_run_writes_count_and_bytes() {
    let mut buffer = [0xffu8; 6];
    emit_run(b"abcdef", 2, 3, &mut buffer, 1);
    assert_eq!(buffer, [0xff, 2, b'c', b'd', b'e', 0xff]);
}

#[test]
fn emit_literals_splits_into_runs() {
    let data: Vec<u8> = (0..70u8).collect();
    let mut buffer = [0xffu8; 80];
    assert_eq!(emit_literals(&data, 0, 70, &mut buffer, 2), 75);
    assert_eq!(buffer[2], 31);
    assert_eq!(&buffer[3..35], &data[0..32]);
    assert_eq!(buffer[35], 31);
    assert_eq!(&buffer[36..68], &data[32..64]);
    assert_eq!(buffer[68], 5);
    assert_eq!(&buffer[69..75], &data[64..70]);
    assert_eq!(&buffer[..2], &[0xff, 0xff]);
    assert_eq!(&buffer[75..], &[0xff; 5]);

    let mut buffer = [0xffu8; 40];
    assert_eq!(emit_literals(&data, 10, 10, &mut buffer, 7), 7);
    assert_eq!(buffer, [0xffu8; 40]);
    assert_eq!(emit_literals(&data, 0, 32, &mut buffer, 0), 33);
    assert_eq!(emit_literals(&data, 0, 33, &mut buffer, 0), 35);
    assert_eq!(&buffer[33..35], &[0, 32]);
}

#[test]
fn emit_reference_short_and_long() {
    let mut buffer = [0xffu8; 4];
    assert_eq!(emit_reference(Match { distance: 1, length: 3 }, &mut buffer, 0), 2);
    assert_eq!(buffer, [0x20, 0, 0xff, 0xff]);
    assert_eq!(emit_reference(Match { distance: 8192, length: 8 }, &mut buffer, 1), 3);
    assert_eq!(buffer, [0x20, 0xdf, 0xff, 0xff]);
    assert_eq!(emit_reference(Match { distance: 8192, length: 9 }, &mut buffer, 1), 4);
    assert_eq!(buffer, [0x20, 0xff, 0, 0xff]);
    assert_eq!(emit_reference(Match { distance: 258, length: 264 }, &mut buffer, 0), 3);
    assert_eq!(buffer, [0xe1, 0xff, 1, 0xff]);
    assert_eq!(emit_reference(Match { distance: 300, length: 5 }, &mut buffer, 2), 4);
    assert_eq!(buffer, [0xe1, 0xff, 0x61, 43]);
}
