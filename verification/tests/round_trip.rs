use fastlz::{compress, decompress};

fn noise(count: usize, seed: u64) -> Vec<u8> {
    let mut state = seed;
    let mut bytes = Vec::with_capacity(count);
    for _ in 0..count {
        state ^= state << 13;
        state ^= state >> 7;
        state ^= state << 17;
        bytes.push((state >> 32) as u8);
    }
    bytes
}

fn round_trip(data: &[u8]) -> usize {
    let mut packed = vec![0u8; data.len() + data.len() / 20 + 66];
    let written = compress(data, &mut packed).unwrap();
    assert!(written <= data.len() + (data.len() + 19) / 20);
    let mut unpacked = vec![0u8; data.len()];
    let read = decompress(&packed[..written], &mut unpacked).unwrap();
    assert_eq!(read, data.len());
    assert_eq!(&unpacked[..], data);
    written
}

#[test]
fn compress_and_decompress() {
    let data = "This is a sample string to compress then decompress".as_bytes();

    let mut compressed_buffer: [u8; 100] = [0; 100];
    let mut uncompressed_buffer: [u8; 100] = [0; 100];

    let written = compress(&data, &mut compressed_buffer).unwrap();
    let compressed = &compressed_buffer[..written];
    let read = decompress(compressed, &mut uncompressed_buffer).unwrap();
    let decompressed = &uncompressed_buffer[..read];

    assert_eq!(&data, &decompressed);
}

#[test]
fn sample_string_block() {
    let data = "This is a sample string to compress then decompress".as_bytes();
    let mut packed = [0u8; 100];
    let written = compress(data, &mut packed).unwrap();
    let expected: [u8; 47] = [
        4, 84, 104, 105, 115, 32, 32, 2, 31, 97, 32, 115, 97, 109, 112, 108, 101, 32, 115, 116,
        114, 105, 110, 103, 32, 116, 111, 32, 99, 111, 109, 112, 114, 101, 115, 115, 32, 116, 104,
        101, 110, 2, 32, 100, 101, 192, 15,
    ];
    assert_eq!(&packed[..written], &expected[..]);
}

#[test]
fn repeated_byte_collapses() {
    let data = [0x41u8; 1000];
    let mut packed = [0u8; 1050];
    let written = compress(&data, &mut packed).unwrap();
    assert_eq!(
        &packed[..written],
        &[0u8, 0x41, 224, 255, 0, 224, 255, 0, 224, 255, 0, 224, 198, 0][..]
    );
    let mut unpacked = [0u8; 1000];
    assert_eq!(decompress(&packed[..written], &mut unpacked), Ok(1000));
    assert_eq!(unpacked, data);
}

#[test]
fn noise_stays_within_margin() {
    let data = noise(1000, 0x9e3779b97f4a7c15);
    let written = round_trip(&data);
    assert_eq!(written, 1032);
    assert!(written <= 1050);
}

#[test]
fn shortest_input_round_trips() {
    let data: Vec<u8> = (0u8..16).collect();
    let mut packed = [0u8; 66];
    let written = compress(&data, &mut packed).unwrap();
    assert_eq!(written, 17);
    assert_eq!(packed[0], 15);
    assert_eq!(&packed[1..17], &data[..]);
    let mut unpacked = [0u8; 16];
    assert_eq!(decompress(&packed[..written], &mut unpacked), Ok(16));
    assert_eq!(&unpacked[..], &data[..]);
}

#[test]
fn reference_that_overlaps_itself() {
    let data = [b'a'; 16];
    let mut packed = [0u8; 66];
    let written = compress(&data, &mut packed).unwrap();
    assert_eq!(&packed[..written], &[0u8, b'a', 224, 6, 0][..]);
    let mut unpacked = [0u8; 16];
    assert_eq!(decompress(&packed[..written], &mut unpacked), Ok(16));
    assert_eq!(unpacked, data);
}

#[test]
fn period_of_three() {
    let data = b"abcabcabcabcabcabc";
    let mut packed = [0u8; 66];
    let written = compress(data, &mut packed).unwrap();
    assert_eq!(&packed[..written], &[2u8, b'a', b'b', b'c', 224, 6, 2][..]);
    assert_eq!(round_trip(data), 7);
}

#[test]
fn second_half_repeats_first() {
    let data = b"0123456789abcdef0123456789abcdef";
    let mut packed = [0u8; 66];
    let written = compress(data, &mut packed).unwrap();
    assert_eq!(written, 20);
    assert_eq!(packed[0], 15);
    assert_eq!(&packed[1..17], &data[..16]);
    assert_eq!(&packed[17..20], &[224u8, 7, 15][..]);
    assert_eq!(round_trip(data), 20);
}

#[test]
fn match_at_the_edge_of_the_window() {
    let half = noise(8192, 7);
    let mut data = half.clone();
    data.extend_from_slice(&half);
    assert_eq!(round_trip(&data), 8592);
}

#[test]
fn repeat_beyond_the_window_is_not_found() {
    let half = noise(8193, 7);
    let mut data = half.clone();
    data.extend_from_slice(&half);
    assert_eq!(round_trip(&data), 16897);
}

#[test]
fn long_mixed_input_round_trips() {
    let mut data = Vec::new();
    for round in 0..40u64 {
        data.extend_from_slice(&noise(100 + 37 * round as usize, round + 1));
        data.extend_from_slice(&vec![round as u8; 300 + 11 * round as usize]);
        data.extend_from_slice(b"the quick brown fox jumps over the lazy dog ");
        data.extend_from_slice(b"the quick brown fox jumps over the lazy dog ");
    }
    let written = round_trip(&data);
    assert!(written < data.len());
}

#[test]
fn every_length_round_trips() {
    let source = noise(400, 99);
    for size in 16..400 {
        let mut data = source[..size].to_vec();
        for place in (size / 2)..size {
            data[place] = data[place - size / 2];
        }
        round_trip(&data);
    }
}

#[test]
fn same_input_gives_same_block() {
    let data = noise(300, 5);
    let mut first = vec![0u8; 400];
    let mut second = vec![0xffu8; 500];
    let written = compress(&data, &mut first).unwrap();
    let again = compress(&data, &mut second).unwrap();
    assert_eq!(written, again);
    assert_eq!(&first[..written], &second[..again]);
    let mut third = vec![0x55u8; 400];
    assert_eq!(compress(&data, &mut third), Ok(written));
    assert_eq!(&first[..written], &third[..written]);
}

#[test]
fn bytes_behind_the_block_are_left_alone() {
    let data = [7u8; 64];
    let mut packed = [0xeeu8; 80];
    let written = compress(&data, &mut packed).unwrap();
    assert_eq!(&packed[..written], &[0u8, 7, 224, 54, 0][..]);
    assert!(packed[written..].iter().all(|byte| *byte == 0xee));
    let mut unpacked = [0xddu8; 70];
    assert_eq!(decompress(&packed[..written], &mut unpacked), Ok(64));
    assert_eq!(&unpacked[..64], &data[..]);
    assert!(unpacked[64..].iter().all(|byte| *byte == 0xdd));
}

#[test]
fn block_may_be_longer_than_input() {
    let data = noise(64, 3);
    let mut packed = [0u8; 68];
    assert_eq!(compress(&data, &mut packed), Ok(66));
}
