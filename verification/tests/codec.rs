use length_prefix::codec::{encode_len, read_len, read_len_within, write_len};
use length_prefix::error::FrameError;

fn representative_lengths() -> Vec<usize> {
    vec![
        0,
        1,
        126,
        127,
        128,
        16383,
        16384,
        (1usize << 32) - 1,
        (1usize << 63) - 1,
        usize::MAX,
    ]
}

#[test]
fn encodes_the_literal_vectors() {
    assert_eq!(encode_len(0), vec![0x00]);
    assert_eq!(encode_len(127), vec![0x7F]);
    assert_eq!(encode_len(128), vec![0x81, 0x00]);
    assert_eq!(encode_len(16384), vec![0x81, 0x80, 0x00]);
}

#[test]
fn encodes_more_known_values() {
    assert_eq!(encode_len(1), vec![0x01]);
    assert_eq!(encode_len(126), vec![0x7E]);
    assert_eq!(encode_len(300), vec![0x82, 0x2C]);
    assert_eq!(encode_len(16383), vec![0xFF, 0x7F]);
    assert_eq!(encode_len((1usize << 32) - 1), vec![0x8F, 0xFF, 0xFF, 0xFF, 0x7F]);
    assert_eq!(
        encode_len((1usize << 63) - 1),
        vec![0xFF, 0xFF, 0xFF, 0xFF, 0xFF, 0xFF, 0xFF, 0xFF, 0x7F]
    );
    assert_eq!(
        encode_len(u64::MAX as usize),
        vec![0x81, 0xFF, 0xFF, 0xFF, 0xFF, 0xFF, 0xFF, 0xFF, 0xFF, 0x7F]
    );
}

#[test]
fn decoding_undoes_encoding() {
    for len in representative_lengths() {
        let bytes = encode_len(len);
        assert_eq!(read_len(&bytes), Ok((len, bytes.len())));
    }
}

#[test]
fn decoding_undoes_encoding_for_every_small_length() {
    for len in 0..40000usize {
        let bytes = encode_len(len);
        assert_eq!(read_len(&bytes), Ok((len, bytes.len())));
    }
}

#[test]
fn encoded_length_is_the_number_of_base_128_digits() {
    assert_eq!(encode_len(0).len(), 1);
    assert_eq!(encode_len(127).len(), 1);
    assert_eq!(encode_len(128).len(), 2);
    assert_eq!(encode_len(16383).len(), 2);
    assert_eq!(encode_len(16384).len(), 3);
    assert_eq!(encode_len(2097151).len(), 3);
    assert_eq!(encode_len(2097152).len(), 4);
    assert_eq!(encode_len((1usize << 32) - 1).len(), 5);
    assert_eq!(encode_len((1usize << 63) - 1).len(), 9);
    assert_eq!(encode_len(1usize << 63).len(), 10);
}

#[test]
fn encoding_has_flags_on_all_but_the_last_byte() {
    for len in representative_lengths() {
        let bytes = encode_len(len);
        let last = bytes.len() - 1;
        assert!(bytes[last] < 0x80);
        for b in &bytes[..last] {
            assert!(*b >= 0x80);
        }
    }
}

#[test]
fn encoding_has_no_redundant_leading_group() {
    for len in representative_lengths() {
        let bytes = encode_len(len);
        if bytes.len() > 1 {
            assert_ne!(bytes[0], 0x80);
        }
    }
}

#[test]
fn padded_prefix_decodes_to_the_same_length_but_is_longer() {
    let padded = vec![0x80, 0x81, 0x00];
    assert_eq!(read_len(&padded), Ok((128, 3)));
    assert!(encode_len(128).len() < padded.len());
    assert_eq!(read_len(&[0x80, 0x00]), Ok((0, 2)));
}

#[test]
fn canonical_prefix_is_reproduced_by_encoding() {
    let prefix = vec![0x82, 0x2C];
    let (len, used) = read_len(&prefix).unwrap();
    assert_eq!(used, 2);
    assert_eq!(encode_len(len), prefix);
}

#[test]
fn read_len_stops_at_the_terminator() {
    let input = vec![0x81, 0x00, 0xFF, 0xFF, 0x01];
    assert_eq!(read_len(&input), Ok((128, 2)));
    assert_eq!(read_len(&input[2..]), Ok((0x3FFF * 128 + 1, 3)));
}

#[test]
fn empty_input_is_truncated() {
    assert_eq!(read_len(&[]), Err(FrameError::Truncated));
}

#[test]
fn prefix_cut_before_its_terminator_is_truncated() {
    assert_eq!(read_len(&[0x81]), Err(FrameError::Truncated));
    assert_eq!(read_len(&[0x81, 0x80]), Err(FrameError::Truncated));
    for len in representative_lengths() {
        let bytes = encode_len(len);
        for cut in 0..bytes.len() {
            assert_eq!(read_len(&bytes[..cut]), Err(FrameError::Truncated));
        }
    }
}

#[test]
fn value_beyond_usize_is_an_overflow() {
    // Eleven groups of seven one bits are 77 bits: more than any usize holds.
    let mut input = vec![0xFF; 10];
    input.push(0x7F);
    assert_eq!(read_len(&input), Err(FrameError::LengthOverflow));
}

#[test]
fn one_more_than_usize_max_is_an_overflow() {
    let mut input = encode_len(usize::MAX);
    let last = input.len() - 1;
    input[last] |= 0x80;
    input.push(0x00);
    assert_eq!(read_len(&input), Err(FrameError::LengthOverflow));
}

#[test]
fn overflow_is_reported_before_the_terminator() {
    let input = vec![0xFF; 11];
    assert_eq!(read_len(&input), Err(FrameError::LengthOverflow));
}

#[test]
fn leading_zero_groups_never_overflow() {
    let mut input = vec![0x80; 40];
    input.push(0x05);
    assert_eq!(read_len(&input), Ok((5, 41)));
}

#[test]
fn limit_is_the_largest_accepted_length() {
    assert_eq!(read_len_within(&encode_len(1000), 1000), Ok((1000, 2)));
    assert_eq!(read_len_within(&encode_len(1001), 1000), Err(FrameError::LengthOverflow));
    assert_eq!(read_len_within(&[0x00], 0), Ok((0, 1)));
    assert_eq!(read_len_within(&[0x01], 0), Err(FrameError::LengthOverflow));
}

#[test]
fn limit_is_applied_to_the_groups_read_so_far() {
    // 0x88 alone stands for 8; with one more group it is at least 1024.
    assert_eq!(read_len_within(&[0x88], 100), Err(FrameError::Truncated));
    assert_eq!(read_len_within(&[0x88, 0x80], 100), Err(FrameError::LengthOverflow));
}

#[test]
fn write_len_appends_the_encoding() {
    let mut out = vec![0xAA, 0xBB];
    write_len(&mut out, 16384);
    assert_eq!(out, vec![0xAA, 0xBB, 0x81, 0x80, 0x00]);
    write_len(&mut out, 0);
    assert_eq!(out, vec![0xAA, 0xBB, 0x81, 0x80, 0x00, 0x00]);
}
