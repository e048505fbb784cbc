use arithmetic_coder::cumulative::CumulativeTable;
use arithmetic_coder::decoder::{decode_digits, decode_process};
use arithmetic_coder::encoder::encode_process;
use arithmetic_coder::error::CodecError;
use arithmetic_coder::model::{FrequencyModel, ModelEntry};
use arithmetic_coder::radix::Frame;

fn stream_of(lower: u32, upper: u32, data: &[u8]) -> Result<Vec<u8>, CodecError> {
    let model = FrequencyModel::build(data).unwrap();
    let table = CumulativeTable::compute_cumulative_probabilities(&model);
    let frame = Frame::for_bound(upper);
    encode_process(&table, &frame, lower, upper, data)
}

fn symbols_of(lower: u32, upper: u32, data: &[u8], stream: &[u8]) -> Result<Vec<u8>, CodecError> {
    let model = FrequencyModel::build(data).unwrap();
    let table = CumulativeTable::compute_cumulative_probabilities(&model);
    let frame = Frame::for_bound(upper);
    decode_process(&table, &frame, lower, upper, data.len() as u32, stream)
}

fn digits_read(
    lower: u32,
    upper: u32,
    data: &[u8],
    digits: &[u8],
) -> Result<(Vec<u8>, usize), CodecError> {
    let model = FrequencyModel::build(data).unwrap();
    let table = CumulativeTable::compute_cumulative_probabilities(&model);
    let frame = Frame::for_bound(upper);
    decode_digits(&table, &frame, lower, upper, data.len() as u32, digits)
}

fn letters_table() -> CumulativeTable {
    let entries = vec![
        ModelEntry { symbol: 0x41, count: 2 },
        ModelEntry { symbol: 0x42, count: 1 },
        ModelEntry { symbol: 0x43, count: 1 },
    ];
    let model = FrequencyModel::from_entries(entries, 4).unwrap();
    CumulativeTable::compute_cumulative_probabilities(&model)
}

#[test]
fn a_settled_digit_is_followed_by_the_last_lower_bound() {
    // [0, 99999] narrows to [50000, 74999], then to [62500, 68749]; the six
    // settles and leaves [25000, 87499].
    let table = letters_table();
    let frame = Frame::for_bound(99_999);
    assert_eq!(
        encode_process(&table, &frame, 0, 99_999, &[0x42, 0x42]),
        Ok(vec![0x06, 0xA8, 0x61, 0x00, 0x00])
    );
    assert_eq!(
        decode_process(&table, &frame, 0, 99_999, 2, &[0x06, 0xA8, 0x61, 0x00, 0x00]),
        Ok(vec![0x42, 0x42])
    );
}

#[test]
fn without_a_settled_digit_the_stream_is_the_last_lower_bound() {
    // [0, 65535] narrows to [32768, 49151], and nothing settles.
    let table = letters_table();
    let frame = Frame::for_bound(0xFFFF);
    assert_eq!(
        encode_process(&table, &frame, 0, 0xFFFF, &[0x42]),
        Ok(vec![0x00, 0x80, 0x00, 0x00])
    );
    assert_eq!(
        decode_process(&table, &frame, 0, 0xFFFF, 1, &[0x00, 0x80, 0x00, 0x00]),
        Ok(vec![0x42])
    );
}

#[test]
fn straddle_resolved_on_the_upper_side_writes_zeros() {
    // The digits 1 0, then 54650; the digits 4 0 0, then 17920.
    assert_eq!(stream_of(0, 99999, b"abcd"), Ok(vec![1, 0, 122, 213, 0, 0]));
    assert_eq!(
        stream_of(0, 65535, b"aacbbbc"),
        Ok(vec![4, 0, 0, 0, 70, 0, 0])
    );
}

#[test]
fn straddle_resolved_on_the_lower_side_writes_nines() {
    // The digits 8 9, then 6200; the digits 8 9 9, then 16300.
    assert_eq!(stream_of(0, 99999, b"dcba"), Ok(vec![8, 9, 56, 24, 0, 0]));
    assert_eq!(
        stream_of(0, 99999, b"cdadba"),
        Ok(vec![8, 9, 9, 172, 63, 0, 0])
    );
}

#[test]
fn straddle_pending_at_the_end_is_resolved_towards_the_lower_bound() {
    // The lower bound 14560 with one pending digit stands for 1 9 4560: the
    // leading digit is written, and the nine leads the flush value 94560.
    assert_eq!(
        stream_of(0, 0xFFFF, &[0x41, 0x42, 0x41, 0x43]),
        Ok(vec![1, 0x60, 0x71, 0x01, 0x00])
    );
}

#[test]
fn streams_with_straddles_decode() {
    for data in [&b"abcd"[..], b"dcba", b"cdadba", b"aacbbbc"] {
        for upper in [65535u32, 99999] {
            let stream = stream_of(0, upper, data).unwrap();
            assert_eq!(symbols_of(0, upper, data, &stream), Ok(data.to_vec()));
        }
    }
}

#[test]
fn digit_decoder_reports_how_much_it_took_in() {
    let data = b"abcd";
    let digits = [1u8, 0, 5, 4, 6, 5, 0, 3, 3, 3];
    assert_eq!(digits_read(0, 99999, data, &digits), Ok((data.to_vec(), 7)));
    assert_eq!(
        digits_read(0, 99999, data, &digits[..6]),
        Err(CodecError::TruncatedStream)
    );
}

#[test]
fn decoding_no_symbol_takes_the_first_code_value_only() {
    let model = FrequencyModel::build(b"ab").unwrap();
    let table = CumulativeTable::compute_cumulative_probabilities(&model);
    let frame = Frame::for_bound(99999);
    assert_eq!(
        decode_digits(&table, &frame, 0, 99999, 0, &[1, 2, 3, 4, 5, 6]),
        Ok((vec![], 5))
    );
    assert_eq!(
        decode_digits(&table, &frame, 0, 99999, 0, &[1, 2, 3, 4]),
        Err(CodecError::TruncatedStream)
    );
    assert_eq!(
        decode_process(&table, &frame, 0, 99999, 0, &12_345u32.to_le_bytes()),
        Ok(vec![])
    );
    assert_eq!(
        decode_process(&table, &frame, 0, 99999, 0, &[1, 2, 3]),
        Err(CodecError::TruncatedStream)
    );
}

#[test]
fn unknown_symbol_is_reported_by_the_encoder() {
    let model = FrequencyModel::build(b"aab").unwrap();
    let table = CumulativeTable::compute_cumulative_probabilities(&model);
    let frame = Frame::for_bound(99999);
    assert_eq!(
        encode_process(&table, &frame, 0, 99999, b"abz"),
        Err(CodecError::UnknownSymbol)
    );
    assert_eq!(table.find_byte_data(b'z'), Err(CodecError::UnknownSymbol));
}

#[test]
fn a_byte_that_is_no_digit_makes_the_artifact_corrupt() {
    let data = b"abcd";
    let digits = [1u8, 0, 5, 4, 6, 5, 0];
    for at in 0..digits.len() {
        let mut broken = digits.to_vec();
        broken[at] = 10;
        assert_eq!(
            digits_read(0, 99999, data, &broken),
            Err(CodecError::CorruptHeader)
        );
    }
    // In a stream, the digit bytes in front of the flush value are checked.
    let stream = stream_of(0, 99999, data).unwrap();
    for at in 0..stream.len() - 4 {
        let mut broken = stream.clone();
        broken[at] = 10;
        assert_eq!(
            symbols_of(0, 99999, data, &broken),
            Err(CodecError::CorruptHeader)
        );
    }
}

#[test]
fn a_code_value_outside_the_range_counts_as_truncated() {
    assert_eq!(
        digits_read(100, 65535, b"ab", &[0, 0, 0, 9, 9, 0, 0]),
        Err(CodecError::TruncatedStream)
    );
    assert_eq!(
        digits_read(0, 65535, b"ab", &[6, 5, 5, 3, 6, 0, 0]),
        Err(CodecError::TruncatedStream)
    );
    assert_eq!(
        symbols_of(100, 65535, b"ab", &99u32.to_le_bytes()),
        Err(CodecError::TruncatedStream)
    );
    assert_eq!(
        symbols_of(0, 65535, b"ab", &65_536u32.to_le_bytes()),
        Err(CodecError::TruncatedStream)
    );
}

#[test]
fn a_flush_value_outside_the_frame_counts_as_truncated() {
    assert_eq!(
        symbols_of(0, 65535, b"ab", &100_000u32.to_le_bytes()),
        Err(CodecError::TruncatedStream)
    );
    assert_eq!(
        symbols_of(0, 65535, b"ab", &u32::MAX.to_le_bytes()),
        Err(CodecError::TruncatedStream)
    );
}

#[test]
fn collapse_needs_a_range_narrower_than_the_data() {
    assert_eq!(stream_of(0, 1, b"abc"), Err(CodecError::RangeCollapse));
    assert_eq!(stream_of(0, 2, b"abc").map(|s| s.len() >= 1), Ok(true));
}

fn noise(seed: u64, length: usize, alphabet: u64) -> Vec<u8> {
    let mut state = seed;
    let mut data = Vec::with_capacity(length);
    for _ in 0..length {
        state = state.wrapping_mul(6364136223846793005).wrapping_add(1442695040888963407);
        let pick = (state >> 33) % alphabet;
        // Skew the distribution: low values come far more often.
        let symbol = (pick * pick / alphabet) as u8;
        data.push(symbol);
    }
    data
}

#[test]
fn skewed_data_round_trips_over_many_bounds() {
    let bounds: [(u32, u32); 8] = [
        (0, 0xFFFF),
        (0, 999_999_999),
        (0, u32::MAX),
        (0, 9_999),
        (0, 99_999),
        (17, 70_000),
        (1_000, 4_000_000_000),
        (123_456, 123_456_789),
    ];
    for (round, (lower, upper)) in bounds.iter().enumerate() {
        for length in [1usize, 2, 3, 10, 100, 1000] {
            for alphabet in [1u64, 2, 5, 40, 256] {
                let data = noise(round as u64 * 977 + length as u64, length, alphabet);
                match stream_of(*lower, *upper, &data) {
                    Ok(stream) => {
                        assert_eq!(
                            symbols_of(*lower, *upper, &data, &stream),
                            Ok(data.clone())
                        );
                    }
                    Err(e) => {
                        assert_eq!(e, CodecError::RangeCollapse);
                        // Short data in a wide enough range of at most nine
                        // digits never fails.
                        let width = upper.to_string().len() as u32;
                        let room = 10u64.pow(width - 1) / 10 + 1;
                        let span = (*upper - *lower) as u64 + 1;
                        assert!(width == 10 || length as u64 > room || length as u64 > span);
                    }
                }
            }
        }
    }
}

#[test]
fn long_data_compresses_and_round_trips() {
    let data = noise(42, 50_000, 6);
    let stream = stream_of(0, 999_999_999, &data).unwrap();
    // Six skewed symbols need far less than a decimal digit and a half each.
    assert!(stream.len() < data.len());
    assert_eq!(symbols_of(0, 999_999_999, &data, &stream), Ok(data.clone()));
}
