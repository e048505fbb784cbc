use arithmetic_coder::arithmetic_encoder::ArithmeticEncoder;
use arithmetic_coder::cumulative::CumulativeTable;
use arithmetic_coder::error::CodecError;
use arithmetic_coder::model::{FrequencyModel, ModelEntry};
use arithmetic_coder::probability::probability_of;

fn letters() -> Vec<u8> {
    vec![0x41, 0x42, 0x41, 0x43]
}

#[test]
fn concrete_scenario_model_order() {
    let model = FrequencyModel::build(&letters()).unwrap();
    assert_eq!(model.len(), 3);
    assert_eq!(model.entry(0), ModelEntry { symbol: 0x41, count: 2 });
    assert_eq!(model.entry(1), ModelEntry { symbol: 0x42, count: 1 });
    assert_eq!(model.entry(2), ModelEntry { symbol: 0x43, count: 1 });
    assert_eq!(model.symbol_count(), 4);
    assert_eq!(f64::from_bits(model.probability(0)), 0.5);
    assert_eq!(f64::from_bits(model.probability(1)), 0.25);
    assert_eq!(f64::from_bits(model.probability(2)), 0.25);
    let sum: f64 = (0..model.len()).map(|place| f64::from_bits(model.probability(place))).sum();
    assert!((sum - 1.0).abs() < 1e-9);
}

#[test]
fn concrete_scenario_artifact_bytes() {
    let mut coder = ArithmeticEncoder::new(0, 0xFFFF);
    let artifact = coder.encode(&letters()).unwrap();
    let expected: Vec<u8> = vec![
        0, 0, 0, 0, // lower bound
        255, 255, 0, 0, // upper bound
        4, 0, 0, 0, // symbols
        3, 0, 0, 0, // entries
        0x41, 0, 0, 0, 0, 0, 0, 0xE0, 0x3F, // 'A', 0.5
        0x42, 0, 0, 0, 0, 0, 0, 0xD0, 0x3F, // 'B', 0.25
        0x43, 0, 0, 0, 0, 0, 0, 0xD0, 0x3F, // 'C', 0.25
        1, // the digit that the pending straddle resolves to
        0x60, 0x71, 0x01, 0x00, // the last lower bound, 94560
    ];
    assert_eq!(artifact, expected);
}

#[test]
fn concrete_scenario_symbol_count_in_header() {
    let mut coder = ArithmeticEncoder::new(0, 0xFFFF);
    let artifact = coder.encode(&letters()).unwrap();
    assert_eq!(u32::from_le_bytes([artifact[8], artifact[9], artifact[10], artifact[11]]), 4);
    let mut reader = ArithmeticEncoder::new(0, 1);
    assert_eq!(reader.decode_header(&artifact), Ok((16 + 9 * 3, 4)));
}

#[test]
fn concrete_scenario_round_trip() {
    let mut coder = ArithmeticEncoder::new(0, 0xFFFF);
    let artifact = coder.encode(&letters()).unwrap();
    let mut reader = ArithmeticEncoder::new(0, 1);
    assert_eq!(reader.decode(&artifact), Ok(letters()));
    assert_eq!(reader.lower_bound(), 0);
    assert_eq!(reader.upper_bound(), 0xFFFF);
    assert_eq!(reader.probabilities(), coder.probabilities());
}

#[test]
fn empty_input_is_refused() {
    let mut coder = ArithmeticEncoder::new(0, 0xFFFF);
    assert_eq!(coder.encode(&[]), Err(CodecError::EmptyInput));
    assert_eq!(coder.probabilities().len(), 0);
    assert_eq!(FrequencyModel::build(&[]), Err(CodecError::EmptyInput));
    assert_eq!(coder.calculate_probabilities(&[]), Err(CodecError::EmptyInput));
}

#[test]
fn encoding_twice_gives_the_same_model_and_artifact() {
    let data: Vec<u8> = b"the same input, encoded two times over".to_vec();
    let mut first = ArithmeticEncoder::new(0, u32::MAX);
    let mut second = ArithmeticEncoder::new(0, u32::MAX);
    let one = first.encode(&data).unwrap();
    let two = second.encode(&data).unwrap();
    assert_eq!(one, two);
    assert_eq!(first.probabilities(), second.probabilities());
    let again = first.encode(&data).unwrap();
    assert_eq!(one, again);
}

#[test]
fn single_symbol_round_trip() {
    let data: Vec<u8> = vec![0x41; 1000];
    let mut coder = ArithmeticEncoder::new(0, 0xFFFF);
    let artifact = coder.encode(&data).unwrap();
    assert_eq!(coder.probabilities().len(), 1);
    assert_eq!(coder.probabilities().entry(0), ModelEntry { symbol: 0x41, count: 1000 });
    assert_eq!(f64::from_bits(coder.probabilities().probability(0)), 1.0);
    assert_eq!(probability_of(1000, 1000), 1.0f64.to_bits());
    assert_eq!(&artifact[16..25], &[0x41, 0, 0, 0, 0, 0, 0, 0xF0, 0x3F]);
    // Nothing ever settles: the stream is the flush of the lower bound.
    assert_eq!(&artifact[25..], &[0, 0, 0, 0]);
    assert_eq!(artifact.len(), 29);
    let mut reader = ArithmeticEncoder::new(0, 1);
    assert_eq!(reader.decode(&artifact), Ok(data));
}

#[test]
fn single_symbol_round_trip_on_the_narrowest_range() {
    let data: Vec<u8> = vec![7; 50];
    let mut coder = ArithmeticEncoder::new(4, 5);
    let artifact = coder.encode(&data).unwrap();
    let mut reader = ArithmeticEncoder::new(0, 1);
    assert_eq!(reader.decode(&artifact), Ok(data));
}

#[test]
fn alphabet_saturation_round_trip() {
    let data: Vec<u8> = (0..=255u8).collect();
    let mut coder = ArithmeticEncoder::new(0, 0xFFFF);
    let artifact = coder.encode(&data).unwrap();
    let table = CumulativeTable::compute_cumulative_probabilities(coder.probabilities());
    assert_eq!(table.len(), 256);
    assert_eq!(table.symbol_count(), 256);
    for symbol in 0..=255u8 {
        let place = symbol as usize;
        assert_eq!(
            table.find_byte_data(symbol),
            Ok((place, place as u32 + 1, place as u32))
        );
    }
    let mut reader = ArithmeticEncoder::new(0, 1);
    assert_eq!(reader.decode(&artifact), Ok(data));
}

#[test]
fn alphabet_saturation_in_reverse_round_trip() {
    let data: Vec<u8> = (0..=255u8).rev().collect();
    let mut coder = ArithmeticEncoder::new(0, 999_999_999);
    let artifact = coder.encode(&data).unwrap();
    assert_eq!(coder.probabilities().len(), 256);
    assert_eq!(coder.probabilities().entry(0), ModelEntry { symbol: 0, count: 1 });
    assert_eq!(coder.probabilities().entry(255), ModelEntry { symbol: 255, count: 1 });
    let mut reader = ArithmeticEncoder::new(0, 1);
    assert_eq!(reader.decode(&artifact), Ok(data));
}

#[test]
fn a_truncated_stream_is_refused_or_decodes_to_other_data() {
    let cases: [(u32, &[u8]); 4] = [
        (0xFFFF, b"abracadabra, abracadabra, abracadabra"),
        (99_999, b"abracadabra, abracadabra, abracadabra"),
        (999_999_999, b"abracadabra, abracadabra, abracadabra"),
        (u32::MAX, b"abracadabra"),
    ];
    for (upper, text) in cases {
        let data: Vec<u8> = text.to_vec();
        let mut coder = ArithmeticEncoder::new(0, upper);
        let artifact = coder.encode(&data).unwrap();
        let header = 16 + 9 * coder.probabilities().len();
        assert!(artifact.len() >= header + 4);
        for cut in 1..=(artifact.len() - header) {
            let mut reader = ArithmeticEncoder::new(0, 1);
            let result = reader.decode(&artifact[..artifact.len() - cut]);
            match result {
                Ok(other) => {
                    assert_ne!(other, data);
                    assert_eq!(other.len(), data.len());
                }
                Err(e) => assert_eq!(e, CodecError::TruncatedStream),
            }
        }
    }
}

#[test]
fn every_truncation_of_the_concrete_scenario_is_detected() {
    let mut coder = ArithmeticEncoder::new(0, 0xFFFF);
    let artifact = coder.encode(&letters()).unwrap();
    assert_eq!(artifact.len(), 43 + 5);
    for cut in 1..=5 {
        let mut reader = ArithmeticEncoder::new(0, 1);
        assert_eq!(
            reader.decode(&artifact[..artifact.len() - cut]),
            Err(CodecError::TruncatedStream)
        );
    }
}

#[test]
fn every_truncation_of_a_longer_stream_is_detected() {
    let data: Vec<u8> = b"abracadabra, abracadabra, abracadabra".to_vec();
    let mut coder = ArithmeticEncoder::new(0, 0xFFFF);
    let artifact = coder.encode(&data).unwrap();
    let header = 16 + 9 * coder.probabilities().len();
    for cut in 1..=(artifact.len() - header) {
        let mut reader = ArithmeticEncoder::new(0, 1);
        assert_eq!(
            reader.decode(&artifact[..artifact.len() - cut]),
            Err(CodecError::TruncatedStream)
        );
    }
}

#[test]
fn a_stream_without_room_for_the_flush_is_truncated() {
    let data: Vec<u8> = b"abracadabra".to_vec();
    let mut coder = ArithmeticEncoder::new(0, 0xFFFF);
    let artifact = coder.encode(&data).unwrap();
    let header = 16 + 9 * coder.probabilities().len();
    for left in 0..4 {
        let mut reader = ArithmeticEncoder::new(0, 1);
        assert_eq!(
            reader.decode(&artifact[..header + left]),
            Err(CodecError::TruncatedStream)
        );
    }
}

#[test]
fn digits_that_run_out_are_a_truncated_stream() {
    let mut coder = ArithmeticEncoder::new(0, 0xFFFF);
    let mut artifact = coder.encode(&letters()).unwrap();
    assert_eq!(&artifact[43..], &[1, 0x60, 0x71, 0x01, 0x00]);
    // No digit byte, and the flush value 19456: the code value is right, but
    // the straddle after the last symbol finds no digit to take in.
    artifact.truncate(43);
    artifact.extend_from_slice(&19_456u32.to_le_bytes());
    let mut reader = ArithmeticEncoder::new(0, 1);
    assert_eq!(reader.decode(&artifact), Err(CodecError::TruncatedStream));
}

#[test]
fn a_cut_artifact_can_be_the_artifact_of_other_data() {
    let longer: Vec<u8> = b"dbaadcdcc".to_vec();
    let shorter: Vec<u8> = b"dbaadcccd".to_vec();
    let mut coder = ArithmeticEncoder::new(0, 99);
    let long_artifact = coder.encode(&longer).unwrap();
    let short_artifact = coder.encode(&shorter).unwrap();
    assert_eq!(&long_artifact[52..], &[6, 5, 2, 6, 6, 0, 0, 0, 0]);
    assert_eq!(&short_artifact[52..], &[6, 5, 2, 6, 6, 0, 0, 0]);
    assert_eq!(&long_artifact[..long_artifact.len() - 1], &short_artifact[..]);
    let mut reader = ArithmeticEncoder::new(0, 1);
    assert_eq!(reader.decode(&long_artifact[..long_artifact.len() - 1]), Ok(shorter));
    assert_eq!(reader.decode(&long_artifact), Ok(longer));
}

#[test]
fn truncation_into_the_header_is_a_corrupt_header() {
    let mut coder = ArithmeticEncoder::new(0, 0xFFFF);
    let artifact = coder.encode(&letters()).unwrap();
    for keep in 0..(16 + 9 * 3) {
        let mut reader = ArithmeticEncoder::new(3, 9);
        assert_eq!(reader.decode(&artifact[..keep]), Err(CodecError::CorruptHeader));
        assert_eq!(reader.lower_bound(), 3);
        assert_eq!(reader.upper_bound(), 9);
    }
}

#[test]
fn range_collapse_is_reported() {
    let mut coder = ArithmeticEncoder::new(0, 1);
    assert_eq!(coder.encode(b"abc"), Err(CodecError::RangeCollapse));
}

#[test]
fn bytes_behind_the_stream_are_taken_for_the_flush() {
    let mut coder = ArithmeticEncoder::new(0, 0xFFFF);
    let mut artifact = coder.encode(&letters()).unwrap();
    artifact.extend_from_slice(&[200, 201]);
    let mut reader = ArithmeticEncoder::new(0, 1);
    // The last four bytes now write a number that is no value of the frame.
    assert_eq!(reader.decode(&artifact), Err(CodecError::TruncatedStream));
}

#[test]
fn digits_left_over_do_not_belong_to_the_flush_value() {
    let mut coder = ArithmeticEncoder::new(0, 0xFFFF);
    let artifact = coder.encode(&letters()).unwrap();
    let mut longer = artifact[..43].to_vec();
    // The same code value 19456, written with its first digit as a digit
    // byte, its other digits in the flush value, and a digit too many.
    longer.extend_from_slice(&[1, 9, 4]);
    longer.extend_from_slice(&56_000u32.to_le_bytes());
    let mut reader = ArithmeticEncoder::new(0, 1);
    assert_eq!(reader.decode(&longer), Err(CodecError::TruncatedStream));
    // A byte that is no digit is not what an encoder writes.
    longer[44] = 10;
    assert_eq!(reader.decode(&longer), Err(CodecError::CorruptHeader));
}

#[test]
fn ten_digit_frame_flushes_what_four_bytes_hold() {
    let data: Vec<u8> = b"abracadabra".to_vec();
    let mut coder = ArithmeticEncoder::new(0, u32::MAX);
    let artifact = coder.encode(&data).unwrap();
    let header = 16 + 9 * 5;
    // Seven settled digits, then the lower bound 1048518600.
    assert_eq!(&artifact[header..], &[1, 1, 3, 8, 4, 0, 3, 200, 31, 127, 62]);
    let mut reader = ArithmeticEncoder::new(0, 1);
    assert_eq!(reader.decode(&artifact), Ok(data));
    // One symbol a thousand times never moves the lower bound.
    let same: Vec<u8> = vec![0x41; 1000];
    let artifact = coder.encode(&same).unwrap();
    assert_eq!(&artifact[25..], &[0, 0, 0, 0]);
    assert_eq!(reader.decode(&artifact), Ok(same));
}

#[test]
fn ten_digit_frame_fails_where_four_bytes_do_not_hold_the_lower_bound() {
    let mut coder = ArithmeticEncoder::new(0, u32::MAX);
    assert_eq!(coder.encode(b"abc"), Err(CodecError::RangeCollapse));
    assert_eq!(coder.encode(b"hello world"), Err(CodecError::RangeCollapse));
    // The two bounds straddle four thousand million: a digit is pending at
    // the end, and the nine that it stands for leads the flush value.
    let mut narrow = ArithmeticEncoder::new(3_950_000_000, 4_050_000_000);
    assert_eq!(narrow.encode(&[0x41]), Err(CodecError::RangeCollapse));
    let mut nine = ArithmeticEncoder::new(0, 999_999_999);
    assert!(nine.encode(b"abc").is_ok());
    assert!(nine.encode(b"hello world").is_ok());
}

#[test]
fn one_byte_between_zero_and_nine() {
    let mut coder = ArithmeticEncoder::new(0, 9);
    let artifact = coder.encode(&[7]).unwrap();
    assert_eq!(artifact.len(), 16 + 9 + 4);
    assert_eq!(&artifact[25..], &[0, 0, 0, 0]);
    let mut reader = ArithmeticEncoder::new(0, 1);
    assert_eq!(reader.decode(&artifact), Ok(vec![7]));
}
