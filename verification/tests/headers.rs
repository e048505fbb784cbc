use arithmetic_coder::arithmetic_encoder::ArithmeticEncoder;
use arithmetic_coder::error::CodecError;
use arithmetic_coder::header::{decode_header, encode_header};
use arithmetic_coder::model::{FrequencyModel, ModelEntry};

fn header_with(lower: u32, upper: u32, total: u32, entries: &[(u8, f64)]) -> Vec<u8> {
    let mut bytes = Vec::new();
    bytes.extend_from_slice(&lower.to_le_bytes());
    bytes.extend_from_slice(&upper.to_le_bytes());
    bytes.extend_from_slice(&total.to_le_bytes());
    bytes.extend_from_slice(&(entries.len() as u32).to_le_bytes());
    for (symbol, probability) in entries {
        bytes.push(*symbol);
        bytes.extend_from_slice(&probability.to_le_bytes());
    }
    bytes
}

#[test]
fn header_layout_is_fixed_width_little_endian() {
    let model = FrequencyModel::build(b"hello world").unwrap();
    let bytes = encode_header(0x0102_0304, 0xA0B0_C0D0, &model);
    let entries: Vec<(u8, f64)> = vec![
        (b'l', 3.0 / 11.0),
        (b'o', 2.0 / 11.0),
        (b' ', 1.0 / 11.0),
        (b'd', 1.0 / 11.0),
        (b'e', 1.0 / 11.0),
        (b'h', 1.0 / 11.0),
        (b'r', 1.0 / 11.0),
        (b'w', 1.0 / 11.0),
    ];
    assert_eq!(bytes, header_with(0x0102_0304, 0xA0B0_C0D0, 11, &entries));
    assert_eq!(&bytes[0..4], &[0x04, 0x03, 0x02, 0x01]);
    assert_eq!(&bytes[4..8], &[0xD0, 0xC0, 0xB0, 0xA0]);
    assert_eq!(bytes.len(), 16 + 9 * 8);
}

#[test]
fn header_is_read_back_as_written() {
    let model = FrequencyModel::build(b"hello world").unwrap();
    let mut bytes = encode_header(5, 70_000, &model);
    bytes.extend_from_slice(&[1, 2, 3]);
    let header = decode_header(&bytes).unwrap();
    assert_eq!(header.lower_bound, 5);
    assert_eq!(header.upper_bound, 70_000);
    assert_eq!(header.symbol_count, 11);
    assert_eq!(header.model, model);
}

#[test]
fn header_order_is_taken_as_stored() {
    // Not in the order of a model: the rarer symbol first.
    let bytes = header_with(0, 99, 3, &[(b'b', 1.0 / 3.0), (b'a', 2.0 / 3.0)]);
    let header = decode_header(&bytes).unwrap();
    assert_eq!(header.model.len(), 2);
    assert_eq!(header.model.entry(0), ModelEntry { symbol: b'b', count: 1 });
    assert_eq!(header.model.entry(1), ModelEntry { symbol: b'a', count: 2 });
}

#[test]
fn short_header_is_corrupt() {
    let full = header_with(0, 99, 3, &[(b'a', 2.0 / 3.0), (b'b', 1.0 / 3.0)]);
    assert!(decode_header(&full).is_ok());
    for keep in 0..full.len() {
        assert_eq!(
            decode_header(&full[..keep]).map(|_| ()),
            Err(CodecError::CorruptHeader)
        );
    }
}

#[test]
fn bounds_out_of_order_are_corrupt() {
    let entries = [(b'a', 2.0 / 3.0), (b'b', 1.0 / 3.0)];
    assert!(decode_header(&header_with(98, 99, 3, &entries)).is_ok());
    assert_eq!(
        decode_header(&header_with(99, 99, 3, &entries)).map(|_| ()),
        Err(CodecError::CorruptHeader)
    );
    assert_eq!(
        decode_header(&header_with(100, 99, 3, &entries)).map(|_| ()),
        Err(CodecError::CorruptHeader)
    );
}

#[test]
fn entries_that_are_no_model_are_corrupt() {
    let corrupt = |total: u32, entries: &[(u8, f64)]| {
        assert_eq!(
            decode_header(&header_with(0, 99, total, entries)).map(|_| ()),
            Err(CodecError::CorruptHeader)
        );
    };
    // A probability that no count has.
    corrupt(4, &[(b'a', 0.3), (b'b', 0.7)]);
    corrupt(4, &[(b'a', 0.0), (b'b', 1.0)]);
    corrupt(4, &[(b'a', f64::NAN)]);
    // Probabilities that do not add up to one.
    corrupt(4, &[(b'a', 0.5), (b'b', 0.25)]);
    corrupt(4, &[(b'a', 0.75), (b'b', 0.5)]);
    // A symbol with two entries.
    corrupt(4, &[(b'a', 0.5), (b'a', 0.5)]);
    // No symbols at all.
    corrupt(0, &[]);
    corrupt(4, &[]);
}

#[test]
fn more_declared_entries_than_bytes_is_corrupt() {
    let mut bytes = header_with(0, 99, 3, &[(b'a', 2.0 / 3.0), (b'b', 1.0 / 3.0)]);
    bytes[12] = 3;
    assert_eq!(decode_header(&bytes).map(|_| ()), Err(CodecError::CorruptHeader));
    bytes[12] = 2;
    bytes[15] = 0x40;
    assert_eq!(decode_header(&bytes).map(|_| ()), Err(CodecError::CorruptHeader));
}

#[test]
fn corrupt_header_leaves_the_coder_as_it_was() {
    let mut coder = ArithmeticEncoder::new(3, 30);
    coder.calculate_probabilities(b"xyz").unwrap();
    let before = coder.probabilities().clone();
    assert_eq!(coder.decode(&[1, 2, 3]), Err(CodecError::CorruptHeader));
    assert_eq!(coder.decode_header(&[1, 2, 3]), Err(CodecError::CorruptHeader));
    assert_eq!(coder.lower_bound(), 3);
    assert_eq!(coder.upper_bound(), 30);
    assert_eq!(coder.probabilities(), &before);
}

#[test]
fn an_artifact_written_by_hand_decodes() {
    // Two symbols, a then b, between 0 and 99: 'a' owns [0, 49], 'b' [50, 99].
    let mut artifact = header_with(0, 99, 2, &[(b'a', 0.5), (b'b', 0.5)]);
    // 'a' narrows to [0, 49]; 'b' to [25, 49]; nothing settles; flush 25.
    artifact.extend_from_slice(&[25, 0, 0, 0]);
    let mut coder = ArithmeticEncoder::new(0, 1);
    assert_eq!(coder.decode(&artifact), Ok(b"ab".to_vec()));
    let mut writer = ArithmeticEncoder::new(0, 99);
    assert_eq!(writer.encode(b"ab"), Ok(artifact));
}
