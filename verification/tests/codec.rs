use thermal_rs::codec::{
    decode_chunk, encode_chunk, from_text, rle_decode, rle_encode, to_text, MAX_RUN,
};

#[test]
fn rle_round_trip_small() {
    let data: Vec<u8> = vec![1, 1, 1, 2, 3, 3];
    let code = rle_encode(&data);
    assert_eq!(code, vec![3, 1, 1, 2, 2, 3]);
    assert_eq!(rle_decode(&code), Some(data));
}

#[test]
fn rle_of_nothing_is_nothing() {
    let data: Vec<u8> = Vec::new();
    assert_eq!(rle_encode(&data), Vec::<u8>::new());
    assert_eq!(rle_decode(&[]), Some(Vec::new()));
}

#[test]
fn rle_single_byte() {
    assert_eq!(rle_encode(&[9]), vec![1, 9]);
}

#[test]
fn rle_alternating_values_make_one_pair_each() {
    assert_eq!(rle_encode(&[0, 1, 0, 1]), vec![1, 0, 1, 1, 1, 0, 1, 1]);
}

#[test]
fn rle_run_of_exactly_the_cap_is_one_pair() {
    assert_eq!(MAX_RUN, 255);
    let data = vec![7u8; 255];
    assert_eq!(rle_encode(&data), vec![255, 7]);
}

#[test]
fn rle_run_one_past_the_cap_is_split() {
    let data = vec![7u8; 256];
    assert_eq!(rle_encode(&data), vec![255, 7, 1, 7]);
    assert_eq!(rle_decode(&rle_encode(&data)), Some(data));
}

#[test]
fn rle_run_of_300_is_split_into_255_and_45() {
    let data = vec![4u8; 300];
    let code = rle_encode(&data);
    assert_eq!(code, vec![255, 4, 45, 4]);
    assert_eq!(rle_decode(&code), Some(data));
}

#[test]
fn rle_run_of_twice_the_cap_is_two_full_pairs() {
    let data = vec![0u8; 510];
    assert_eq!(rle_encode(&data), vec![255, 0, 255, 0]);
}

#[test]
fn rle_single_giant_run_round_trips() {
    let data = vec![0u8; 4096];
    let code = rle_encode(&data);
    assert_eq!(code.len(), 2 * 17);
    assert_eq!(code[32], 16);
    assert_eq!(rle_decode(&code), Some(data));
}

#[test]
fn rle_long_run_between_other_values() {
    let mut data = vec![1u8];
    data.extend(vec![2u8; 600]);
    data.push(3);
    let code = rle_encode(&data);
    assert_eq!(code, vec![1, 1, 255, 2, 255, 2, 90, 2, 1, 3]);
    assert_eq!(rle_decode(&code), Some(data));
}

#[test]
fn rle_round_trips_every_byte_value() {
    let mut data: Vec<u8> = Vec::new();
    for v in 0..=255u8 {
        for _ in 0..(v as usize % 7 + 1) {
            data.push(v);
        }
    }
    assert_eq!(rle_decode(&rle_encode(&data)), Some(data));
}

#[test]
fn rle_decode_refuses_odd_length() {
    assert_eq!(rle_decode(&[3]), None);
    assert_eq!(rle_decode(&[3, 1, 2]), None);
}

#[test]
fn rle_decode_pair_with_count_zero_stands_for_nothing() {
    assert_eq!(rle_decode(&[0, 9, 2, 5]), Some(vec![5, 5]));
}

#[test]
fn text_is_two_lower_case_hex_digits_per_byte() {
    assert_eq!(to_text(&[0x00, 0x1b, 0xff, 0xa0]), b"001bffa0".to_vec());
    assert_eq!(to_text(&[]), Vec::<u8>::new());
}

#[test]
fn text_reads_back() {
    assert_eq!(from_text(b"001bffa0"), Some(vec![0x00, 0x1b, 0xff, 0xa0]));
    assert_eq!(from_text(b""), Some(Vec::new()));
}

#[test]
fn text_accepts_upper_case_digits() {
    assert_eq!(from_text(b"1BFFA0"), Some(vec![0x1b, 0xff, 0xa0]));
}

#[test]
fn text_refuses_odd_length_and_other_bytes() {
    assert_eq!(from_text(b"abc"), None);
    assert_eq!(from_text(b"0g"), None);
    assert_eq!(from_text(b"g0"), None);
    assert_eq!(from_text(b" 0"), None);
    assert_eq!(from_text(b"0/"), None);
    assert_eq!(from_text(b"0:"), None);
    assert_eq!(from_text(b"@1"), None);
    assert_eq!(from_text(b"G1"), None);
    assert_eq!(from_text(b"`1"), None);
}

#[test]
fn text_round_trips_every_byte_value() {
    let data: Vec<u8> = (0..=255u8).collect();
    assert_eq!(from_text(&to_text(&data)), Some(data));
}

#[test]
fn chunk_of_uniform_material_is_one_pair() {
    let buffer = vec![0u8; 27];
    assert_eq!(encode_chunk(&buffer), b"1b00".to_vec());
    assert_eq!(decode_chunk(b"1b00"), Some(buffer));
}

#[test]
fn chunk_round_trips() {
    let mut buffer = vec![1u8; 1000];
    buffer.extend(vec![0u8; 3]);
    buffer.extend(vec![255u8; 256]);
    let text = encode_chunk(&buffer);
    assert_eq!(text, b"ff01ff01ff01eb010300ffff01ff".to_vec());
    assert_eq!(decode_chunk(&text), Some(buffer));
}

#[test]
fn chunk_decode_refuses_text_of_half_a_pair() {
    assert_eq!(decode_chunk(b"1b"), None);
    assert_eq!(decode_chunk(b"1b0"), None);
    assert_eq!(decode_chunk(b"zz00"), None);
}
