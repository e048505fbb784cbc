//! The header of an artifact: the bounds, the number of symbols, and the
//! model, in a fixed little-endian layout.

use vstd::prelude::*;
use crate::error::CodecError;
use crate::model::{lemma_prefix_total_grows, valid_model, FrequencyModel, ModelEntry};
use crate::probability::{
    count_from_bits,
    count_of_bits,
    is_probability,
    lemma_count_of_bits,
    lemma_probability_shape,
    lemma_pow2_values,
    probability_bits,
};
use crate::radix::{
    le_bytes,
    le_value,
    lemma_le_bytes_len,
    lemma_le_round_trip,
    lemma_le_value_bound,
    lemma_pow256_values,
    push_le,
    read_le,
};

verus! {

/// The bytes of one entry: its symbol, then its probability as a double.
pub open spec fn entry_bytes(entry: ModelEntry, total: nat) -> Seq<u8> {
    seq![entry.symbol] + le_bytes(probability_bits(entry.count as nat, total) as nat, 8)
}

/// The bytes of the entries, one after the other.
pub open spec fn entries_bytes(entries: Seq<ModelEntry>, total: nat) -> Seq<u8>
    decreases entries.len(),
{
    if entries.len() == 0 {
        Seq::empty()
    } else {
        entries_bytes(entries.drop_last(), total) + entry_bytes(entries.last(), total)
    }
}

/// What a header holds.
pub struct HeaderFields {
    pub lower_bound: u32,
    pub upper_bound: u32,
    pub symbol_count: u32,
    pub entries: Seq<ModelEntry>,
}

impl HeaderFields {
    /// The bounds are in order and the entries are a model of as many
    /// symbols as the header counts.
    pub open spec fn wf(self) -> bool {
        &&& self.lower_bound < self.upper_bound
        &&& valid_model(self.entries, self.symbol_count as int)
    }

    /// The number of bytes of the header.
    pub open spec fn size(self) -> int {
        16 + 9 * (self.entries.len() as int)
    }
}

/// The bytes of a header: the lower bound, the upper bound, the number of
/// symbols and the number of entries, four bytes each, then the entries.
pub open spec fn header_bytes(fields: HeaderFields) -> Seq<u8> {
    le_bytes(fields.lower_bound as nat, 4) + le_bytes(fields.upper_bound as nat, 4) + le_bytes(
        fields.symbol_count as nat,
        4,
    ) + le_bytes(fields.entries.len(), 4) + entries_bytes(
        fields.entries,
        fields.symbol_count as nat,
    )
}

/// The four-byte field at `at`.
pub open spec fn field(bytes: Seq<u8>, at: int) -> nat {
    le_value(bytes.subrange(at, at + 4))
}

/// The bits of the probability of the entry at `index`.
pub open spec fn stored_bits(bytes: Seq<u8>, index: int) -> int {
    le_value(bytes.subrange(16 + 9 * index + 1, 16 + 9 * index + 9)) as int
}

/// The entry at `index` of the header in `bytes`, for a model of `total`
/// symbols.
pub open spec fn stored_entry(bytes: Seq<u8>, total: nat, index: int) -> ModelEntry {
    ModelEntry {
        symbol: bytes[16 + 9 * index],
        count: count_of_bits(stored_bits(bytes, index), total) as u32,
    }
}

/// The header that `bytes` starts with, if it starts with one: the four
/// fields must be there, the bounds in order, the bytes of all declared
/// entries available, each probability that of a count, and the entries a
/// valid model.
pub open spec fn parse_header(bytes: Seq<u8>) -> Option<HeaderFields> {
    if bytes.len() < 16 {
        None
    } else {
        let total = field(bytes, 8);
        let entries = Seq::new(field(bytes, 12), |i: int| stored_entry(bytes, total, i));
        if field(bytes, 0) >= field(bytes, 4) || bytes.len() < 16 + 9 * field(bytes, 12) || !(
        forall|i: int| 0 <= i < field(bytes, 12) ==> is_probability(
            #[trigger] stored_bits(bytes, i),
            total,
        )) || !valid_model(entries, total as int) {
            None
        } else {
            Some(
                HeaderFields {
                    lower_bound: field(bytes, 0) as u32,
                    upper_bound: field(bytes, 4) as u32,
                    symbol_count: total as u32,
                    entries,
                },
            )
        }
    }
}

/// The entries take nine bytes each, and the bytes of each entry stand at
/// its place.
pub proof fn lemma_entries_bytes(entries: Seq<ModelEntry>, total: nat, index: int)
    requires
        0 <= index < entries.len(),
    ensures
        entries_bytes(entries, total).len() == 9 * entries.len(),
        entries_bytes(entries, total).subrange(9 * index, 9 * index + 9) == entry_bytes(
            entries[index],
            total,
        ),
    decreases entries.len(),
{
    let front = entries.drop_last();
    lemma_entries_bytes_len(front, total);
    lemma_le_bytes_len(probability_bits(entries.last().count as nat, total) as nat, 8);
    let all = entries_bytes(entries, total);
    if index == entries.len() - 1 {
        assert(all.subrange(9 * index, 9 * index + 9) =~= entry_bytes(entries.last(), total));
    } else {
        lemma_entries_bytes(front, total, index);
        assert(all.subrange(9 * index, 9 * index + 9) =~= entries_bytes(front, total).subrange(
            9 * index,
            9 * index + 9,
        ));
    }
}

/// The entries take nine bytes each.
pub proof fn lemma_entries_bytes_len(entries: Seq<ModelEntry>, total: nat)
    ensures
        entries_bytes(entries, total).len() == 9 * entries.len(),
    decreases entries.len(),
{
    if entries.len() > 0 {
        lemma_entries_bytes_len(entries.drop_last(), total);
        lemma_le_bytes_len(probability_bits(entries.last().count as nat, total) as nat, 8);
    }
}

/// Reading is the exact inverse of writing: bytes that start with a
/// well-formed header parse to that header, whatever follows it.
pub proof fn lemma_header_round_trip(fields: HeaderFields, rest: Seq<u8>)
    requires
        fields.wf(),
    ensures
        parse_header(header_bytes(fields) + rest) == Some(fields),
        header_bytes(fields).len() == fields.size(),
{
    let total = fields.symbol_count as nat;
    let count = fields.entries.len();
    let a = le_bytes(fields.lower_bound as nat, 4);
    let b = le_bytes(fields.upper_bound as nat, 4);
    let c = le_bytes(total, 4);
    let d = le_bytes(count, 4);
    let e = entries_bytes(fields.entries, total);
    let bytes = header_bytes(fields) + rest;
    lemma_pow256_values();
    lemma_pow2_values();
    lemma_le_bytes_len(fields.lower_bound as nat, 4);
    lemma_le_bytes_len(fields.upper_bound as nat, 4);
    lemma_le_bytes_len(total, 4);
    lemma_le_bytes_len(count, 4);
    lemma_entries_bytes_len(fields.entries, total);
    lemma_le_round_trip(fields.lower_bound as nat, 4);
    lemma_le_round_trip(fields.upper_bound as nat, 4);
    lemma_le_round_trip(total, 4);
    lemma_le_round_trip(count, 4);
    assert(bytes.subrange(0, 4) =~= a);
    assert(bytes.subrange(4, 8) =~= b);
    assert(bytes.subrange(8, 12) =~= c);
    assert(bytes.subrange(12, 16) =~= d);
    assert(bytes.subrange(16, 16 + 9 * (count as int)) =~= e);
    let parsed = Seq::new(field(bytes, 12), |i: int| stored_entry(bytes, total, i));
    assert forall|i: int| 0 <= i < count implies is_probability(
        #[trigger] stored_bits(bytes, i),
        total,
    ) && stored_entry(bytes, total, i) == fields.entries[i] by {
        let entry = fields.entries[i];
        let bits = probability_bits(entry.count as nat, total);
        lemma_entries_bytes(fields.entries, total, i);
        lemma_prefix_total_grows(fields.entries, i, i + 1);
        lemma_prefix_total_grows(fields.entries, i + 1, count as int);
        lemma_prefix_total_grows(fields.entries, 0, i);
        lemma_probability_shape(entry.count as nat, total);
        lemma_count_of_bits(entry.count as nat, total);
        lemma_le_round_trip(bits as nat, 8);
        lemma_le_bytes_len(bits as nat, 8);
        let stored = entry_bytes(entry, total);
        assert(bytes.subrange(16 + 9 * i, 16 + 9 * i + 9) =~= e.subrange(9 * i, 9 * i + 9));
        assert(bytes[16 + 9 * i] == stored[0]);
        assert(bytes.subrange(16 + 9 * i + 1, 16 + 9 * i + 9) =~= stored.subrange(1, 9));
        assert(stored.subrange(1, 9) =~= le_bytes(bits as nat, 8));
    }
    assert(parsed =~= fields.entries);
}

/// A header that parses is well formed, and all its bytes are there.
pub proof fn lemma_parsed_wf(bytes: Seq<u8>)
    requires
        parse_header(bytes) is Some,
    ensures
        parse_header(bytes)->Some_0.wf(),
        parse_header(bytes)->Some_0.size() <= bytes.len(),
{
    lemma_pow256_values();
    lemma_le_value_bound(bytes.subrange(0, 4));
    lemma_le_value_bound(bytes.subrange(4, 8));
    lemma_le_value_bound(bytes.subrange(8, 12));
    lemma_le_value_bound(bytes.subrange(12, 16));
}

/// The header of an artifact.
#[derive(Clone, Debug)]
pub struct Header {
    pub lower_bound: u32,
    pub upper_bound: u32,
    pub symbol_count: u32,
    pub model: FrequencyModel,
}

impl View for Header {
    type V = HeaderFields;

    open spec fn view(&self) -> HeaderFields {
        HeaderFields {
            lower_bound: self.lower_bound,
            upper_bound: self.upper_bound,
            symbol_count: self.symbol_count,
            entries: self.model@,
        }
    }
}

/// Writes the header of an artifact: the bounds, the number of symbols that
/// the model was counted over, the number of entries, and the entries with
/// their probabilities.
pub fn encode_header(lower_bound: u32, upper_bound: u32, model: &FrequencyModel) -> (bytes: Vec<
    u8,
>)
    requires
        model.wf(),
    ensures
        bytes@ == header_bytes(
            HeaderFields {
                lower_bound,
                upper_bound,
                symbol_count: model.total() as u32,
                entries: model@,
            },
        ),
{
    let total: u32 = model.symbol_count();
    let mut out: Vec<u8> = Vec::new();
    push_le(&mut out, lower_bound as u64, 4);
    push_le(&mut out, upper_bound as u64, 4);
    push_le(&mut out, total as u64, 4);
    push_le(&mut out, model.len() as u64, 4);
    let ghost fixed = out@;
    let mut i: usize = 0;
    proof {
        assert(model@.take(0) =~= Seq::empty());
        assert(fixed + entries_bytes(model@.take(0), total as nat) =~= fixed);
    }
    while i < model.len()
        invariant
            i <= model@.len(),
            model.wf(),
            total == model.total(),
            out@ == fixed + entries_bytes(model@.take(i as int), total as nat),
        decreases model@.len() - i,
    {
        let entry: ModelEntry = model.entry(i);
        let bits: u64 = model.probability(i);
        let ghost before = out@;
        out.push(entry.symbol);
        push_le(&mut out, bits, 8);
        proof {
            let longer = model@.take(i + 1);
            assert(longer.drop_last() =~= model@.take(i as int));
            assert(longer.last() == entry);
            assert(out@ =~= before + entry_bytes(entry, total as nat));
            assert(out@ =~= fixed + entries_bytes(longer, total as nat));
        }
        i = i + 1;
    }
    proof {
        assert(model@.take(i as int) =~= model@);
    }
    out
}

/// Reads the header that `bytes` starts with. Fails when the bytes end
/// before the declared entries do, when the bounds are not in order, or
/// when the entries are no model for the declared number of symbols.
pub fn decode_header(bytes: &[u8]) -> (result: Result<Header, CodecError>)
    ensures
        match result {
            Ok(header) => parse_header(bytes@) == Some(header@) && header@.wf() && header.model.wf()
                && header.model.total() == header.symbol_count && header@.size() <= bytes@.len(),
            Err(e) => e == CodecError::CorruptHeader && parse_header(bytes@) is None,
        },
{
    if bytes.len() < 16 {
        return Err(CodecError::CorruptHeader);
    }
    proof {
        lemma_pow256_values();
        lemma_le_value_bound(bytes@.subrange(0, 4));
        lemma_le_value_bound(bytes@.subrange(4, 8));
        lemma_le_value_bound(bytes@.subrange(8, 12));
        lemma_le_value_bound(bytes@.subrange(12, 16));
    }
    let lower_bound: u32 = read_le(bytes, 0, 4) as u32;
    let upper_bound: u32 = read_le(bytes, 4, 4) as u32;
    let total: u32 = read_le(bytes, 8, 4) as u32;
    let declared: u32 = read_le(bytes, 12, 4) as u32;
    let ghost parsed = Seq::new(declared as nat, |i: int| stored_entry(bytes@, total as nat, i));
    if lower_bound >= upper_bound {
        return Err(CodecError::CorruptHeader);
    }
    if declared > 256 {
        return Err(CodecError::CorruptHeader);
    }
    let count: usize = declared as usize;
    if bytes.len() - 16 < 9 * count {
        return Err(CodecError::CorruptHeader);
    }
    let mut entries: Vec<ModelEntry> = Vec::new();
    let mut i: usize = 0;
    while i < count
        invariant
            i <= count <= 256,
            16 + 9 * count <= bytes@.len(),
            count == field(bytes@, 12),
            total == field(bytes@, 8),
            entries@.len() == i,
            forall|k: int|
                0 <= k < i ==> is_probability(#[trigger] stored_bits(bytes@, k), total as nat),
            forall|k: int|
                0 <= k < i ==> #[trigger] entries@[k] == stored_entry(bytes@, total as nat, k),
        decreases count - i,
    {
        let at: usize = 16 + 9 * i;
        let symbol: u8 = bytes[at];
        let bits: u64 = read_le(bytes, at + 1, 8);
        match count_from_bits(bits, total) {
            Some(found) => {
                entries.push(ModelEntry { symbol, count: found });
            },
            None => {
                proof {
                    assert(!is_probability(stored_bits(bytes@, i as int), total as nat));
                }
                return Err(CodecError::CorruptHeader);
            },
        }
        i = i + 1;
    }
    proof {
        assert(entries@ =~= parsed);
    }
    match FrequencyModel::from_entries(entries, total) {
        Some(model) => Ok(Header { lower_bound, upper_bound, symbol_count: total, model }),
        None => Err(CodecError::CorruptHeader),
    }
}

} // verus!
