use arithmetic_coder::cli::{Cli, Operation};
use arithmetic_coder::cumulative::CumulativeTable;
use arithmetic_coder::error::CodecError;
use arithmetic_coder::model::{FrequencyModel, ModelEntry};
use arithmetic_coder::radix::{first_digit, get_minimal_integer, remove_trailing_zeros, Frame};
use arithmetic_coder::range::{CodingRange, Scaling};

#[test]
fn frame_has_the_digits_of_the_upper_bound() {
    let cases: [(u32, u32, u64); 9] = [
        (0, 1, 1),
        (1, 1, 1),
        (9, 1, 1),
        (10, 2, 10),
        (99, 2, 10),
        (100, 3, 100),
        (65_535, 5, 10_000),
        (999_999_999, 9, 100_000_000),
        (u32::MAX, 10, 1_000_000_000),
    ];
    for (bound, width, unit) in cases {
        let frame = Frame::for_bound(bound);
        assert_eq!(frame.digit_count(), width);
        assert_eq!(frame.leading_unit(), unit);
    }
}

#[test]
fn first_digit_is_taken_in_the_frame() {
    assert_eq!(first_digit(32_767, 10_000), 3);
    assert_eq!(first_digit(999, 10_000), 0);
    assert_eq!(first_digit(9_999_999_999, 1_000_000_000), 9);
    assert_eq!(first_digit(7, 1), 7);
}

#[test]
fn model_is_ordered_by_count_then_symbol() {
    let model = FrequencyModel::build(b"zzzyyyxxwwa").unwrap();
    let expected = [(b'y', 3u32), (b'z', 3), (b'w', 2), (b'x', 2), (b'a', 1)];
    assert_eq!(model.len(), expected.len());
    for (place, (symbol, count)) in expected.iter().enumerate() {
        assert_eq!(model.entry(place), ModelEntry { symbol: *symbol, count: *count });
    }
    assert_eq!(model.symbol_count(), 11);
}

#[test]
fn model_from_entries_checks_them() {
    let entry = |symbol: u8, count: u32| ModelEntry { symbol, count };
    assert!(FrequencyModel::from_entries(vec![entry(1, 2), entry(0, 3)], 5).is_some());
    assert!(FrequencyModel::from_entries(vec![entry(1, 2), entry(0, 3)], 6).is_none());
    assert!(FrequencyModel::from_entries(vec![entry(1, 2), entry(0, 3)], 4).is_none());
    assert!(FrequencyModel::from_entries(vec![entry(1, 2), entry(1, 3)], 5).is_none());
    assert!(FrequencyModel::from_entries(vec![entry(1, 0), entry(0, 5)], 5).is_none());
    assert!(FrequencyModel::from_entries(vec![], 0).is_none());
    assert!(FrequencyModel::from_entries(vec![entry(9, u32::MAX)], u32::MAX).is_some());
    assert!(
        FrequencyModel::from_entries(vec![entry(9, u32::MAX), entry(8, 1)], u32::MAX).is_none()
    );
    let all: Vec<ModelEntry> = (0..=255u8).map(|symbol| entry(symbol, 2)).collect();
    assert!(FrequencyModel::from_entries(all, 512).is_some());
}

#[test]
fn cumulative_bounds_rise_to_the_total() {
    let model = FrequencyModel::build(b"zzzyyyxxwwa").unwrap();
    let table = CumulativeTable::compute_cumulative_probabilities(&model);
    assert_eq!(table.len(), 5);
    assert_eq!(table.symbol_count(), 11);
    assert_eq!(table.find_byte_data(b'y'), Ok((0, 3, 0)));
    assert_eq!(table.find_byte_data(b'z'), Ok((1, 6, 3)));
    assert_eq!(table.find_byte_data(b'w'), Ok((2, 8, 6)));
    assert_eq!(table.find_byte_data(b'x'), Ok((3, 10, 8)));
    assert_eq!(table.find_byte_data(b'a'), Ok((4, 11, 10)));
    assert_eq!(table.find_byte_data(b'b'), Err(CodecError::UnknownSymbol));
    let mut last = 0;
    for place in 0..table.len() {
        let (found, upper, lower) = table.find_byte_data(table.symbol_at(place)).unwrap();
        assert_eq!(found, place);
        assert_eq!(lower, last);
        assert!(upper > lower);
        last = upper;
    }
    assert_eq!(last, 11);
    let uppers: Vec<u32> = (0..table.len()).map(|place| table.cumulative(place)).collect();
    assert_eq!(uppers, vec![3, 6, 8, 10, 11]);
}

#[test]
fn every_target_lies_in_one_share() {
    let model = FrequencyModel::build(b"zzzyyyxxwwa").unwrap();
    let table = CumulativeTable::compute_cumulative_probabilities(&model);
    let places = [0, 0, 0, 1, 1, 1, 2, 2, 3, 3, 4];
    for (target, place) in places.iter().enumerate() {
        let (found, upper, lower) = table.find_share(target as u32);
        assert_eq!(found, *place);
        assert!(lower as usize <= target && target < upper as usize);
    }
}

#[test]
fn narrowing_takes_the_floor_of_the_share() {
    let frame = Frame::for_bound(65_535);
    let range = CodingRange::new(0, 65_535);
    assert_eq!(range.narrow(&frame, 0, 2, 4), Ok(CodingRange::new(0, 32_767)));
    assert_eq!(range.narrow(&frame, 2, 3, 4), Ok(CodingRange::new(32_768, 49_151)));
    assert_eq!(range.narrow(&frame, 3, 4, 4), Ok(CodingRange::new(49_152, 65_535)));
    assert_eq!(range.narrow(&frame, 0, 1, 3), Ok(CodingRange::new(0, 21_844)));
    assert_eq!(range.narrow(&frame, 1, 2, 3), Ok(CodingRange::new(21_845, 43_689)));
    assert_eq!(range.narrow(&frame, 2, 3, 3), Ok(CodingRange::new(43_690, 65_535)));
    let small = CodingRange::new(16_384, 20_479);
    assert_eq!(small.narrow(&frame, 3, 4, 4), Ok(CodingRange::new(19_456, 20_479)));
}

#[test]
fn narrowing_to_an_empty_share_collapses() {
    let frame = Frame::for_bound(9);
    let range = CodingRange::new(0, 1);
    assert_eq!(range.narrow(&frame, 0, 1, 3), Err(CodecError::RangeCollapse));
    assert_eq!(range.narrow(&frame, 1, 2, 3), Ok(CodingRange::new(0, 0)));
    assert_eq!(range.narrow(&frame, 2, 3, 3), Ok(CodingRange::new(1, 1)));
    assert_eq!(range.narrow(&frame, 1, 1, 3), Err(CodecError::RangeCollapse));
}

#[test]
fn shift_drops_the_common_leading_digit() {
    let frame = Frame::for_bound(99_999);
    let range = CodingRange::new(12_345, 12_999);
    assert_eq!(range.scaling(&frame), Scaling::Shift);
    assert_eq!(range.offset(&frame), 100_000);
    assert_eq!(range.scaled(&frame), CodingRange::new(23_450, 29_999));
    let low = CodingRange::new(0, 9_999);
    assert_eq!(low.scaling(&frame), Scaling::Shift);
    assert_eq!(low.scaled(&frame), CodingRange::new(0, 99_999));
}

#[test]
fn straddle_drops_the_second_digit() {
    let frame = Frame::for_bound(99_999);
    let range = CodingRange::new(19_456, 20_479);
    assert_eq!(range.scaling(&frame), Scaling::Straddle);
    assert_eq!(range.offset(&frame), 180_000);
    assert_eq!(range.scaled(&frame), CodingRange::new(14_560, 24_799));
    assert_eq!(range.scaled(&frame).scaling(&frame), Scaling::Settled);
    let tight = CodingRange::new(49_999, 50_000);
    assert_eq!(tight.scaling(&frame), Scaling::Straddle);
    assert_eq!(tight.scaled(&frame), CodingRange::new(49_990, 50_009));
    assert_eq!(tight.scaled(&frame).scaling(&frame), Scaling::Straddle);
}

#[test]
fn wide_ranges_are_settled() {
    let frame = Frame::for_bound(99_999);
    assert_eq!(CodingRange::new(0, 99_999).scaling(&frame), Scaling::Settled);
    assert_eq!(CodingRange::new(18_999, 20_000).scaling(&frame), Scaling::Settled);
    assert_eq!(CodingRange::new(19_000, 20_999).scaling(&frame), Scaling::Straddle);
    assert_eq!(CodingRange::new(19_000, 21_000).scaling(&frame), Scaling::Settled);
    assert_eq!(CodingRange::new(19_999, 30_000).scaling(&frame), Scaling::Settled);
    let single = Frame::for_bound(9);
    assert_eq!(CodingRange::new(4, 5).scaling(&single), Scaling::Settled);
    assert_eq!(CodingRange::new(4, 4).scaling(&single), Scaling::Shift);
    assert_eq!(CodingRange::new(4, 4).scaled(&single), CodingRange::new(0, 9));
}

#[test]
fn errors_describe_themselves() {
    assert_eq!(CodecError::EmptyInput.describe(), "empty input");
    assert_eq!(CodecError::UnknownSymbol.describe(), "unknown symbol");
    assert_eq!(CodecError::RangeCollapse.describe(), "range collapse");
    assert_eq!(CodecError::CorruptHeader.describe(), "corrupt header");
    assert_eq!(CodecError::TruncatedStream.describe(), "truncated stream");
}

#[test]
fn operation_is_decode_only_when_asked() {
    let mut cli = Cli::new("input.bin".to_string());
    assert!(cli.encode);
    assert!(!cli.decode);
    assert_eq!(cli.lower_bound, 0);
    assert_eq!(cli.upper_bound, u32::MAX);
    assert_eq!(cli.output, "output");
    assert_eq!(cli.filename, "input.bin");
    assert_eq!(cli.operation(), Operation::Encode);
    cli.decode = true;
    assert_eq!(cli.operation(), Operation::Decode);
    cli.encode = false;
    assert_eq!(cli.operation(), Operation::Decode);
    cli.decode = false;
    assert_eq!(cli.operation(), Operation::Encode);
}

#[test]
fn operations_have_names() {
    assert_eq!(Operation::Encode.name(), "encode");
    assert_eq!(Operation::Decode.name(), "decode");
}

#[test]
fn trailing_zeros_are_removed() {
    assert_eq!(remove_trailing_zeros(0), 0);
    assert_eq!(remove_trailing_zeros(7), 7);
    assert_eq!(remove_trailing_zeros(10), 1);
    assert_eq!(remove_trailing_zeros(1_200), 12);
    assert_eq!(remove_trailing_zeros(1_020), 102);
    assert_eq!(remove_trailing_zeros(4_000_000_000), 4);
    assert_eq!(remove_trailing_zeros(u32::MAX), u32::MAX);
}

#[test]
fn minimal_integer_has_no_spare_bytes() {
    assert_eq!(get_minimal_integer(0), vec![0]);
    assert_eq!(get_minimal_integer(1), vec![1]);
    assert_eq!(get_minimal_integer(255), vec![255]);
    assert_eq!(get_minimal_integer(256), vec![0, 1]);
    assert_eq!(get_minimal_integer(0x01_02_03), vec![3, 2, 1]);
    assert_eq!(get_minimal_integer(0x01_00_00_00), vec![0, 0, 0, 1]);
    assert_eq!(get_minimal_integer(u32::MAX), vec![255, 255, 255, 255]);
}

#[test]
fn range_stays_in_order_through_every_step() {
    let data = b"the range never turns over, whatever the symbols are";
    let model = FrequencyModel::build(data).unwrap();
    let table = CumulativeTable::compute_cumulative_probabilities(&model);
    for upper in [999u32, 65_535, 99_999, u32::MAX] {
        let frame = Frame::for_bound(upper);
        let limit = 10 * frame.leading_unit();
        let mut range = CodingRange::new(0, upper as u64);
        let mut steps = 0;
        for symbol in data.iter() {
            let (_, above, below) = table.find_byte_data(*symbol).unwrap();
            let before = range;
            range = match range.narrow(&frame, below, above, table.symbol_count()) {
                Ok(narrowed) => narrowed,
                Err(e) => {
                    assert_eq!(e, CodecError::RangeCollapse);
                    assert_eq!(upper, 999);
                    break;
                }
            };
            assert!(before.low <= range.low && range.low <= range.high);
            assert!(range.high <= before.high);
            while range.scaling(&frame) != Scaling::Settled {
                let width = range.high - range.low + 1;
                range = range.scaled(&frame);
                assert!(range.low <= range.high && range.high < limit);
                assert_eq!(range.high - range.low + 1, 10 * width);
                steps += 1;
            }
            assert!(range.high - range.low + 1 > frame.leading_unit() / 10);
        }
        assert!(steps > 0 || upper == 999);
    }
}
