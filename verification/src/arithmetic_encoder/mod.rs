//! The coder as a whole: from bytes to an artifact, and from an artifact
//! back to bytes.

use vstd::prelude::*;
use crate::codebook::Codebook;
use crate::cumulative::CumulativeTable;
use crate::decoder::{decode_process, decode_stream};
use crate::encoder::{emit_symbols, encode_process, lemma_emit_symbols_errors, prepend};
use crate::error::CodecError;
use crate::header::{decode_header, encode_header, header_bytes, parse_header, HeaderFields};
use crate::model::{
    holds,
    is_model_of,
    lemma_count_of_member,
    model_of,
    FrequencyModel,
    ModelEntry,
};
use crate::radix::{digit_width, Frame};

verus! {

/// The codebook that a header sets up: its model, and the frame with as
/// many digits as its upper bound has.
pub open spec fn book_of(fields: HeaderFields) -> Codebook {
    Codebook {
        entries: fields.entries,
        total: fields.symbol_count as int,
        width: digit_width(fields.upper_bound as nat),
    }
}

/// The header of `data` encoded between the two bounds with the model
/// `entries`.
pub open spec fn fields_of(
    lower_bound: u32,
    upper_bound: u32,
    entries: Seq<ModelEntry>,
    data: Seq<u8>,
) -> HeaderFields {
    HeaderFields { lower_bound, upper_bound, symbol_count: data.len() as u32, entries }
}

/// The artifact of `data` encoded with the model `entries`: the header,
/// then the stream, which is the digit bytes and the last lower bound in
/// four little-endian bytes.
pub open spec fn artifact_from(
    lower_bound: u32,
    upper_bound: u32,
    entries: Seq<ModelEntry>,
    data: Seq<u8>,
) -> Result<Seq<u8>, CodecError> {
    let fields = fields_of(lower_bound, upper_bound, entries, data);
    prepend(
        header_bytes(fields),
        emit_symbols(book_of(fields), lower_bound as int, upper_bound as int, 0, 0, data),
    )
}

/// What encoding `data` between the two bounds yields: empty data is
/// refused, other data is encoded with its own model.
pub open spec fn encoded(lower_bound: u32, upper_bound: u32, data: Seq<u8>) -> Result<
    Seq<u8>,
    CodecError,
> {
    if data.len() == 0 {
        Err(CodecError::EmptyInput)
    } else {
        artifact_from(lower_bound, upper_bound, model_of(data), data)
    }
}

/// What decoding `artifact` yields: its header is read, and then as many
/// symbols as the header counts are read from the stream behind the header.
pub open spec fn decoded(artifact: Seq<u8>) -> Result<Seq<u8>, CodecError> {
    match parse_header(artifact) {
        None => Err(CodecError::CorruptHeader),
        Some(fields) => decode_stream(
            book_of(fields),
            fields.lower_bound as int,
            fields.upper_bound as int,
            artifact.skip(fields.size()),
            fields.symbol_count as nat,
        ),
    }
}

/// The view of what an operation of the coder yields: the bytes, or the
/// failure.
pub open spec fn bytes_of(result: Result<Vec<u8>, CodecError>) -> Result<Seq<u8>, CodecError> {
    match result {
        Ok(bytes) => Ok(bytes@),
        Err(e) => Err(e),
    }
}

/// An arithmetic coder with its two bounds and the model of the input that
/// it last worked on.
#[derive(Clone, Debug)]
pub struct ArithmeticEncoder {
    lower_bound: u32,
    upper_bound: u32,
    probabilities: FrequencyModel,
}

impl ArithmeticEncoder {
    /// The lower bound of the initial coding range.
    pub closed spec fn lower(&self) -> u32 {
        self.lower_bound
    }

    /// The upper bound of the initial coding range.
    pub closed spec fn upper(&self) -> u32 {
        self.upper_bound
    }

    /// The entries of the model that the coder holds.
    pub closed spec fn model(&self) -> Seq<ModelEntry> {
        self.probabilities@
    }

    /// The number of symbols that the model was counted over.
    pub closed spec fn symbol_total(&self) -> nat {
        self.probabilities.total()
    }

    /// A coder for the range from `lower_bound` to `upper_bound`, with no
    /// model yet.
    pub fn new(lower_bound: u32, upper_bound: u32) -> (coder: ArithmeticEncoder)
        ensures
            coder.lower() == lower_bound,
            coder.upper() == upper_bound,
            coder.model().len() == 0,
    {
        ArithmeticEncoder { lower_bound, upper_bound, probabilities: FrequencyModel::empty() }
    }

    /// The lower bound of the initial coding range.
    pub fn lower_bound(&self) -> (bound: u32)
        ensures
            bound == self.lower(),
    {
        self.lower_bound
    }

    /// The upper bound of the initial coding range.
    pub fn upper_bound(&self) -> (bound: u32)
        ensures
            bound == self.upper(),
    {
        self.upper_bound
    }

    /// The model that the coder holds.
    pub fn probabilities(&self) -> (model: &FrequencyModel)
        ensures
            model@ == self.model(),
    {
        &self.probabilities
    }

    /// Builds the model of `data` and keeps it. Fails on empty data, and
    /// then keeps the model it had.
    pub fn calculate_probabilities(&mut self, data: &[u8]) -> (result: Result<(), CodecError>)
        requires
            data@.len() <= u32::MAX,
        ensures
            final(self).lower() == old(self).lower(),
            final(self).upper() == old(self).upper(),
            data@.len() == 0 <==> result is Err,
            result is Err ==> result->Err_0 == CodecError::EmptyInput && final(self).model() == old(
                self,
            ).model(),
            result is Ok ==> final(self).model() == model_of(data@) && is_model_of(
                final(self).model(),
                data@,
            ) && final(self).symbol_total() == data@.len(),
    {
        match FrequencyModel::build(data) {
            Ok(model) => {
                self.probabilities = model;
                Ok(())
            },
            Err(e) => Err(e),
        }
    }

    /// Encodes `data` into an artifact: the header with the bounds, the
    /// number of symbols and the model of `data`, then the digit bytes, then
    /// the last lower bound in four little-endian bytes. The coder keeps the
    /// model.
    ///
    /// Empty data is refused. Other data fails only when the range
    /// collapses: when it has no code value left for a symbol.
    pub fn encode(&mut self, data: &[u8]) -> (result: Result<Vec<u8>, CodecError>)
        requires
            old(self).lower() < old(self).upper(),
            data@.len() <= u32::MAX,
        ensures
            bytes_of(result) == encoded(old(self).lower(), old(self).upper(), data@),
            final(self).lower() == old(self).lower(),
            final(self).upper() == old(self).upper(),
            data@.len() > 0 ==> final(self).model() == model_of(data@),
            data@.len() > 0 ==> final(self).symbol_total() == data@.len(),
            data@.len() == 0 ==> final(self).model() == old(self).model() && result == Err::<
                Vec<u8>,
                CodecError,
            >(CodecError::EmptyInput),
            data@.len() > 0 && result is Err ==> result->Err_0 == CodecError::RangeCollapse,
    {
        match self.calculate_probabilities(data) {
            Ok(()) => {},
            Err(e) => {
                return Err(e);
            },
        }
        let mut artifact: Vec<u8> = encode_header(
            self.lower_bound,
            self.upper_bound,
            &self.probabilities,
        );
        let table: CumulativeTable = CumulativeTable::compute_cumulative_probabilities(
            &self.probabilities,
        );
        let frame: Frame = Frame::for_bound(self.upper_bound);
        let ghost fields = fields_of(self.lower_bound, self.upper_bound, model_of(data@), data@);
        proof {
            assert forall|i: int| 0 <= i < data@.len() implies holds(
                table@,
                #[trigger] data@[i],
            ) by {
                lemma_count_of_member(data@, i);
            }
            lemma_emit_symbols_errors(
                book_of(fields),
                self.lower_bound as int,
                self.upper_bound as int,
                0,
                0,
                data@,
            );
        }
        match encode_process(&table, &frame, self.lower_bound, self.upper_bound, data) {
            Ok(mut stream) => {
                artifact.append(&mut stream);
                Ok(artifact)
            },
            Err(e) => Err(e),
        }
    }

    /// Reads the header that `artifact` starts with and takes over its
    /// bounds and its model. Returns the number of bytes of the header and
    /// the number of symbols that the artifact holds. On a corrupt header
    /// the coder stays as it was.
    pub fn decode_header(&mut self, artifact: &[u8]) -> (result: Result<(usize, u32), CodecError>)
        ensures
            match parse_header(artifact@) {
                Some(fields) => {
                    &&& result == Ok::<(usize, u32), CodecError>(
                        (fields.size() as usize, fields.symbol_count),
                    )
                    &&& fields.size() <= artifact@.len()
                    &&& fields.wf()
                    &&& final(self).lower() == fields.lower_bound
                    &&& final(self).upper() == fields.upper_bound
                    &&& final(self).model() == fields.entries
                    &&& final(self).symbol_total() == fields.symbol_count
                },
                None => {
                    &&& result == Err::<(usize, u32), CodecError>(CodecError::CorruptHeader)
                    &&& *final(self) == *old(self)
                },
            },
    {
        match decode_header(artifact) {
            Ok(header) => {
                let size: usize = 16 + 9 * header.model.len();
                let count: u32 = header.symbol_count;
                self.lower_bound = header.lower_bound;
                self.upper_bound = header.upper_bound;
                self.probabilities = header.model;
                Ok((size, count))
            },
            Err(e) => Err(e),
        }
    }

    /// Decodes an artifact into the bytes that it was encoded from. The
    /// coder takes over the bounds and the model of the header.
    ///
    /// Fails with `CorruptHeader` where no header can be read or a digit
    /// byte is no digit, and with `TruncatedStream` where the stream does
    /// not hold what the header promises: the flush value is missing, the
    /// digits end before the last symbol has been read and the range has
    /// settled, or the last four bytes are not the flush value that belongs
    /// to the digits.
    pub fn decode(&mut self, artifact: &[u8]) -> (result: Result<Vec<u8>, CodecError>)
        ensures
            bytes_of(result) == decoded(artifact@),
            match parse_header(artifact@) {
                Some(fields) => {
                    &&& final(self).lower() == fields.lower_bound
                    &&& final(self).upper() == fields.upper_bound
                    &&& final(self).model() == fields.entries
                    &&& final(self).symbol_total() == fields.symbol_count
                },
                None => *final(self) == *old(self),
            },
    {
        let (size, count): (usize, u32) = match self.decode_header(artifact) {
            Ok(found) => found,
            Err(e) => {
                return Err(e);
            },
        };
        let table: CumulativeTable = CumulativeTable::compute_cumulative_probabilities(
            &self.probabilities,
        );
        let frame: Frame = Frame::for_bound(self.upper_bound);
        let stream: &[u8] = vstd::slice::slice_subrange(artifact, size, artifact.len());
        proof {
            assert(stream@ =~= artifact@.skip(size as int));
        }
        decode_process(&table, &frame, self.lower_bound, self.upper_bound, count, stream)
    }
}

} // verus!
