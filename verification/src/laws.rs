//! What holds of the coder as a whole.

use vstd::arithmetic::div_mod::{lemma_div_is_ordered, lemma_mod_bound};
use vstd::prelude::*;
use crate::arithmetic_encoder::{artifact_from, book_of, decoded, encoded, fields_of};
use crate::codebook::{lemma_book_unit, lemma_narrow_symbol, Codebook};
use crate::cumulative::lemma_position_unique;
use crate::encoder::{emit_settling, emit_symbols, flush_number};
use crate::error::CodecError;
use crate::decoder::decode_stream;
use crate::header::{
    header_bytes,
    lemma_header_round_trip,
    lemma_parsed_wf,
    parse_header,
    HeaderFields,
};
use crate::model::{
    count_below,
    count_of,
    holds,
    is_model_of,
    lemma_count_below_all,
    lemma_count_below_step,
    lemma_count_of_member,
    lemma_model_exists,
    lemma_model_unique,
    model_of,
    prefix_total,
    ModelEntry,
};
use crate::probability::{lemma_probability_one, probability_bits};
use crate::radix::{
    all_digits,
    digit_width,
    lemma_digit_width_bounds,
    lemma_pow10_monotonic,
    lemma_pow10_values,
    pow10,
};
use crate::range::{
    lemma_leading,
    lemma_narrow,
    lemma_scale,
    scale_ready,
    scaled_high,
    scaled_low,
    shift_ready,
};
use crate::roundtrip::{lemma_decoded_count, lemma_stream_cut, lemma_stream_round_trip};

verus! {

/// The header and the codebook of an encoding are well formed.
proof fn lemma_encoding_setup(lower_bound: u32, upper_bound: u32, data: Seq<u8>)
    requires
        lower_bound < upper_bound,
        1 <= data.len() <= u32::MAX,
    ensures
        is_model_of(model_of(data), data),
        fields_of(lower_bound, upper_bound, model_of(data), data).wf(),
        book_of(fields_of(lower_bound, upper_bound, model_of(data), data)).wf(),
        book_of(fields_of(lower_bound, upper_bound, model_of(data), data)).admits(
            lower_bound as int,
            upper_bound as int,
        ),
{
    lemma_model_exists(data);
    lemma_digit_width_bounds(upper_bound as nat);
    let width = digit_width(upper_bound as nat);
    assert(pow10(width) == 10 * pow10((width - 1) as nat));
}

/// An artifact made of a well-formed header and a stream decodes as the
/// stream does under that header.
proof fn lemma_artifact_parts(fields: HeaderFields, stream: Seq<u8>)
    requires
        fields.wf(),
    ensures
        parse_header(header_bytes(fields) + stream) == Some(fields),
        header_bytes(fields).len() == fields.size(),
        decoded(header_bytes(fields) + stream) == decode_stream(
            book_of(fields),
            fields.lower_bound as int,
            fields.upper_bound as int,
            stream,
            fields.symbol_count as nat,
        ),
{
    lemma_header_round_trip(fields, stream);
    assert((header_bytes(fields) + stream).skip(fields.size()) =~= stream);
}

/// Round trip: whenever data is encoded, decoding the artifact gives the
/// data back. The header of the artifact holds the bounds, the length of
/// the data and its model; behind it come digit bytes, each a decimal
/// digit, and last the four bytes of the flush value.
#[verifier::rlimit(30)]
pub proof fn lemma_round_trip(lower_bound: u32, upper_bound: u32, data: Seq<u8>)
    requires
        lower_bound < upper_bound,
        1 <= data.len() <= u32::MAX,
        encoded(lower_bound, upper_bound, data) is Ok,
    ensures
        decoded(encoded(lower_bound, upper_bound, data)->Ok_0) == Ok::<Seq<u8>, CodecError>(data),
        parse_header(encoded(lower_bound, upper_bound, data)->Ok_0) == Some(
            fields_of(lower_bound, upper_bound, model_of(data), data),
        ),
        encoded(lower_bound, upper_bound, data)->Ok_0.len() >= fields_of(
            lower_bound,
            upper_bound,
            model_of(data),
            data,
        ).size() + 4,
        all_digits(
            encoded(lower_bound, upper_bound, data)->Ok_0.subrange(
                fields_of(lower_bound, upper_bound, model_of(data), data).size(),
                encoded(lower_bound, upper_bound, data)->Ok_0.len() - 4,
            ),
        ),
{
    let fields = fields_of(lower_bound, upper_bound, model_of(data), data);
    let book = book_of(fields);
    let stream = emit_symbols(book, lower_bound as int, upper_bound as int, 0, 0, data)->Ok_0;
    let artifact = encoded(lower_bound, upper_bound, data)->Ok_0;
    lemma_encoding_setup(lower_bound, upper_bound, data);
    assert(artifact == header_bytes(fields) + stream);
    lemma_artifact_parts(fields, stream);
    lemma_stream_round_trip(book, lower_bound as int, upper_bound as int, data);
    assert(artifact.subrange(fields.size(), artifact.len() - 4) =~= stream.take(stream.len() - 4));
}

/// The number of bytes of the stream of an encoded artifact: what follows
/// its header.
pub open spec fn stream_length(lower_bound: u32, upper_bound: u32, data: Seq<u8>) -> int {
    encoded(lower_bound, upper_bound, data)->Ok_0.len() - fields_of(
        lower_bound,
        upper_bound,
        model_of(data),
        data,
    ).size()
}

/// An encoded artifact without its last `cut` bytes.
pub open spec fn cut_short(lower_bound: u32, upper_bound: u32, data: Seq<u8>, cut: int) -> Seq<
    u8,
> {
    encoded(lower_bound, upper_bound, data)->Ok_0.take(
        encoded(lower_bound, upper_bound, data)->Ok_0.len() - cut,
    )
}

/// Corruption detection: an artifact whose stream has lost its last `cut`
/// bytes is refused as truncated, unless what is left is an artifact that
/// decodes to other data of the same length. It never decodes to the data
/// that it was encoded from, and never to fewer symbols than the header
/// counts.
#[verifier::rlimit(30)]
pub proof fn lemma_truncation_detected(
    lower_bound: u32,
    upper_bound: u32,
    data: Seq<u8>,
    cut: int,
)
    requires
        lower_bound < upper_bound,
        1 <= data.len() <= u32::MAX,
        encoded(lower_bound, upper_bound, data) is Ok,
        1 <= cut <= stream_length(lower_bound, upper_bound, data),
    ensures
        decoded(cut_short(lower_bound, upper_bound, data, cut)) != Ok::<Seq<u8>, CodecError>(data),
        decoded(cut_short(lower_bound, upper_bound, data, cut)) is Ok ==> decoded(
            cut_short(lower_bound, upper_bound, data, cut),
        )->Ok_0.len() == data.len(),
        decoded(cut_short(lower_bound, upper_bound, data, cut)) is Err ==> decoded(
            cut_short(lower_bound, upper_bound, data, cut),
        ) == Err::<Seq<u8>, CodecError>(CodecError::TruncatedStream),
{
    let fields = fields_of(lower_bound, upper_bound, model_of(data), data);
    let book = book_of(fields);
    let stream = emit_symbols(book, lower_bound as int, upper_bound as int, 0, 0, data)->Ok_0;
    let artifact = encoded(lower_bound, upper_bound, data)->Ok_0;
    let keep = stream.len() - cut;
    let kept = stream.take(keep);
    let answer = decode_stream(
        book,
        lower_bound as int,
        upper_bound as int,
        kept,
        data.len(),
    );
    lemma_encoding_setup(lower_bound, upper_bound, data);
    assert(artifact == header_bytes(fields) + stream);
    assert(decoded(cut_short(lower_bound, upper_bound, data, cut)) == answer) by {
        lemma_artifact_parts(fields, stream);
        lemma_artifact_parts(fields, kept);
        assert(artifact.take(artifact.len() - cut) =~= header_bytes(fields) + kept);
    }
    assert(stream_length(lower_bound, upper_bound, data) == stream.len()) by {
        lemma_artifact_parts(fields, stream);
    }
    lemma_stream_cut(book, lower_bound as int, upper_bound as int, data, keep);
    if answer is Ok {
        lemma_decoded_count(book, lower_bound as int, upper_bound as int, kept, data.len());
    }
}

/// A decode never returns a short result: an artifact that decodes gives
/// exactly as many symbols as its header counts.
pub proof fn lemma_decoded_length(artifact: Seq<u8>)
    requires
        decoded(artifact) is Ok,
    ensures
        parse_header(artifact) is Some,
        decoded(artifact)->Ok_0.len() == parse_header(artifact)->Some_0.symbol_count,
{
    let fields = parse_header(artifact)->Some_0;
    lemma_parsed_wf(artifact);
    lemma_digit_width_bounds(fields.upper_bound as nat);
    let width = digit_width(fields.upper_bound as nat);
    assert(pow10(width) == 10 * pow10((width - 1) as nat));
    lemma_decoded_count(
        book_of(fields),
        fields.lower_bound as int,
        fields.upper_bound as int,
        artifact.skip(fields.size()),
        fields.symbol_count as nat,
    );
}

/// Range invariant: every step of the two engines leaves the range in
/// order and inside the frame. A narrowing that does not collapse stays
/// inside the range it narrows, and a scaling makes the range ten times as
/// wide.
pub proof fn lemma_range_invariant(book: Codebook, low: int, high: int, symbol: u8)
    requires
        book.wf(),
        book.admits(low, high),
        holds(book.entries, symbol),
    ensures
        book.narrow_low(low, high, symbol) <= book.narrow_high(low, high, symbol) ==> {
            &&& book.admits(book.narrow_low(low, high, symbol), book.narrow_high(low, high, symbol))
            &&& low <= book.narrow_low(low, high, symbol)
            &&& book.narrow_high(low, high, symbol) <= high
        },
        scale_ready(low, high, book.unit()) ==> {
            &&& book.admits(
                scaled_low(low, high, book.unit()),
                scaled_high(low, high, book.unit()),
            )
            &&& scaled_high(low, high, book.unit()) - scaled_low(low, high, book.unit()) + 1 == 10
                * (high - low + 1)
        },
{
    lemma_book_unit(book);
    lemma_narrow_symbol(book, low, high, symbol);
    if scale_ready(low, high, book.unit()) {
        lemma_scale(low, high, book.unit());
    }
}

/// Model determinism: any two models of the same data are the same model,
/// and so are the artifacts that are written with them.
pub proof fn lemma_encoding_deterministic(
    lower_bound: u32,
    upper_bound: u32,
    data: Seq<u8>,
    first: Seq<ModelEntry>,
    second: Seq<ModelEntry>,
)
    requires
        is_model_of(first, data),
        is_model_of(second, data),
    ensures
        first == second,
        first == model_of(data),
        artifact_from(lower_bound, upper_bound, first, data) == artifact_from(
            lower_bound,
            upper_bound,
            second,
            data,
        ),
        data.len() > 0 ==> artifact_from(lower_bound, upper_bound, first, data) == encoded(
            lower_bound,
            upper_bound,
            data,
        ),
{
    lemma_model_unique(first, second, data);
    lemma_model_unique(first, model_of(data), data);
}

/// In a frame of at most nine digits, four bytes hold every flush value.
pub proof fn lemma_flush_fits(book: Codebook, low: int, pending: nat)
    requires
        1 <= book.width <= 9,
        0 <= low < 10 * book.unit(),
    ensures
        0 <= flush_number(book, low, pending) <= u32::MAX,
{
    lemma_book_unit(book);
    lemma_pow10_values();
    lemma_pow10_monotonic(book.width, 9);
    lemma_mod_bound(low, book.unit());
    assert(10 * book.unit() == pow10(book.width));
}

/// In a frame of at most nine digits, an encoder whose range is always at
/// least as wide as the total cannot fail: after every scaling the range is
/// wider than a tenth of the unit.
pub proof fn lemma_emit_settling_roomy(
    book: Codebook,
    low: int,
    high: int,
    pending: nat,
    anchor: int,
    symbols: Seq<u8>,
)
    requires
        book.wf(),
        book.admits(low, high),
        book.width <= 9,
        book.total <= book.unit() / 10 + 1,
        forall|i: int| 0 <= i < symbols.len() ==> holds(book.entries, #[trigger] symbols[i]),
    ensures
        emit_settling(book, low, high, pending, anchor, symbols) is Ok,
    decreases symbols.len(), 1int, 10 * book.unit() - (high - low + 1),
{
    let unit = book.unit();
    lemma_book_unit(book);
    if scale_ready(low, high, unit) {
        lemma_scale(low, high, unit);
        let sl = scaled_low(low, high, unit);
        let sh = scaled_high(low, high, unit);
        if shift_ready(low, high, unit) {
            lemma_emit_settling_roomy(book, sl, sh, 0, anchor, symbols);
        } else {
            lemma_emit_settling_roomy(book, sl, sh, pending + 1, low / unit, symbols);
        }
    } else {
        lemma_leading(low, unit);
        lemma_leading(high, unit);
        lemma_div_is_ordered(low, high, unit);
        assert((low / unit) * unit + unit <= (high / unit) * unit) by (nonlinear_arith)
            requires
                low / unit + 1 <= high / unit,
                unit >= 1,
        ;
        lemma_emit_symbols_roomy(book, low, high, pending, anchor, symbols);
    }
}

/// An encoder at a range that is at least as wide as the total, and that
/// scales to such ranges, cannot fail.
pub proof fn lemma_emit_symbols_roomy(
    book: Codebook,
    low: int,
    high: int,
    pending: nat,
    anchor: int,
    symbols: Seq<u8>,
)
    requires
        book.wf(),
        book.admits(low, high),
        book.width <= 9,
        book.total <= book.unit() / 10 + 1,
        book.total <= high - low + 1,
        forall|i: int| 0 <= i < symbols.len() ==> holds(book.entries, #[trigger] symbols[i]),
    ensures
        emit_symbols(book, low, high, pending, anchor, symbols) is Ok,
    decreases symbols.len(), 0int, 0int,
{
    lemma_flush_fits(book, low, pending);
    if symbols.len() > 0 {
        let symbol = symbols[0];
        assert(holds(book.entries, symbol));
        lemma_narrow_symbol(book, low, high, symbol);
        let rest = symbols.skip(1);
        assert forall|i: int| 0 <= i < rest.len() implies holds(book.entries, #[trigger] rest[i]) by {
            assert(rest[i] == symbols[i + 1]);
        }
        lemma_emit_settling_roomy(
            book,
            book.narrow_low(low, high, symbol),
            book.narrow_high(low, high, symbol),
            pending,
            anchor,
            rest,
        );
    }
}

/// Encoding succeeds, and so the data makes the round trip, whenever the
/// upper bound has at most nine digits and the data is no longer than the
/// initial range is wide, and no longer than a hundredth of the frame and
/// one: the range never collapses then, and four bytes hold the last lower
/// bound.
pub proof fn lemma_encode_succeeds(lower_bound: u32, upper_bound: u32, data: Seq<u8>)
    requires
        lower_bound < upper_bound,
        1 <= data.len() <= u32::MAX,
        digit_width(upper_bound as nat) <= 9,
        data.len() <= upper_bound - lower_bound + 1,
        data.len() <= pow10((digit_width(upper_bound as nat) - 1) as nat) / 10 + 1,
    ensures
        encoded(lower_bound, upper_bound, data) is Ok,
        decoded(encoded(lower_bound, upper_bound, data)->Ok_0) == Ok::<Seq<u8>, CodecError>(data),
{
    let fields = fields_of(lower_bound, upper_bound, model_of(data), data);
    let book = book_of(fields);
    lemma_encoding_setup(lower_bound, upper_bound, data);
    assert forall|i: int| 0 <= i < data.len() implies holds(book.entries, #[trigger] data[i]) by {
        lemma_count_of_member(data, i);
    }
    lemma_emit_symbols_roomy(book, lower_bound as int, upper_bound as int, 0, 0, data);
    lemma_round_trip(lower_bound, upper_bound, data);
}

/// Data that repeats one symbol holds that symbol as often as it is long,
/// and no other symbol.
pub proof fn lemma_count_of_repeated(symbol: u8, length: nat, other: u8)
    ensures
        count_of(Seq::new(length, |i: int| symbol), other) == if other == symbol {
            length
        } else {
            0
        },
    decreases length,
{
    if length > 0 {
        let data = Seq::new(length, |i: int| symbol);
        lemma_count_of_repeated(symbol, (length - 1) as nat, other);
        assert(data.drop_last() =~= Seq::new((length - 1) as nat, |i: int| symbol));
    }
}

/// With a single entry in the model, every narrowing keeps the whole
/// range, so in a frame of at most nine digits the encoder cannot fail.
pub proof fn lemma_emit_settling_single(
    book: Codebook,
    low: int,
    high: int,
    pending: nat,
    anchor: int,
    symbols: Seq<u8>,
)
    requires
        book.wf(),
        book.admits(low, high),
        book.width <= 9,
        book.entries.len() == 1,
        forall|i: int| 0 <= i < symbols.len() ==> #[trigger] symbols[i] == book.entries[0].symbol,
    ensures
        emit_settling(book, low, high, pending, anchor, symbols) is Ok,
    decreases symbols.len(), 1int, 10 * book.unit() - (high - low + 1),
{
    let unit = book.unit();
    lemma_book_unit(book);
    if scale_ready(low, high, unit) {
        lemma_scale(low, high, unit);
        let sl = scaled_low(low, high, unit);
        let sh = scaled_high(low, high, unit);
        if shift_ready(low, high, unit) {
            lemma_emit_settling_single(book, sl, sh, 0, anchor, symbols);
        } else {
            lemma_emit_settling_single(book, sl, sh, pending + 1, low / unit, symbols);
        }
    } else {
        lemma_emit_symbols_single(book, low, high, pending, anchor, symbols);
    }
}

/// With a single entry in the model, every narrowing keeps the whole
/// range. So the encoder cannot fail in a frame of at most nine digits, nor
/// from a settled range without pending digits whose lower bound four bytes
/// hold: that range stays as it is to the end.
pub proof fn lemma_emit_symbols_single(
    book: Codebook,
    low: int,
    high: int,
    pending: nat,
    anchor: int,
    symbols: Seq<u8>,
)
    requires
        book.wf(),
        book.admits(low, high),
        book.width <= 9 || (!scale_ready(low, high, book.unit()) && pending == 0 && low
            <= u32::MAX),
        book.entries.len() == 1,
        forall|i: int| 0 <= i < symbols.len() ==> #[trigger] symbols[i] == book.entries[0].symbol,
    ensures
        emit_symbols(book, low, high, pending, anchor, symbols) is Ok,
    decreases symbols.len(), 0int, 0int,
{
    if book.width <= 9 {
        lemma_flush_fits(book, low, pending);
    }
    if symbols.len() > 0 {
        let symbol = symbols[0];
        lemma_position_unique(book.entries, 0);
        assert(prefix_total(book.entries, 1) == prefix_total(book.entries, 0)
            + book.entries[0].count);
        lemma_narrow(low, high, 0, book.total, book.total);
        let rest = symbols.skip(1);
        assert forall|i: int| 0 <= i < rest.len() implies #[trigger] rest[i]
            == book.entries[0].symbol by {
            assert(rest[i] == symbols[i + 1]);
        }
        if book.width <= 9 {
            lemma_emit_settling_single(book, low, high, pending, anchor, rest);
        } else {
            lemma_emit_symbols_single(book, low, high, pending, anchor, rest);
        }
    }
}

/// A single distinct symbol: data that repeats one symbol has a model of
/// exactly one entry, whose count is the total and whose probability is
/// 1.0. It makes the round trip wherever the upper bound has at most nine
/// digits, and with an upper bound of ten digits wherever no scaling
/// applies to the two bounds.
pub proof fn lemma_single_symbol(lower_bound: u32, upper_bound: u32, symbol: u8, length: nat)
    requires
        lower_bound < upper_bound,
        1 <= length <= u32::MAX,
        digit_width(upper_bound as nat) <= 9 || !scale_ready(
            lower_bound as int,
            upper_bound as int,
            pow10((digit_width(upper_bound as nat) - 1) as nat) as int,
        ),
    ensures
        model_of(Seq::new(length, |i: int| symbol)) == seq![
            ModelEntry { symbol, count: length as u32 },
        ],
        probability_bits(length, length) == 0x3FF0_0000_0000_0000,
        encoded(lower_bound, upper_bound, Seq::new(length, |i: int| symbol)) is Ok,
        decoded(encoded(lower_bound, upper_bound, Seq::new(length, |i: int| symbol))->Ok_0) == Ok::<
            Seq<u8>,
            CodecError,
        >(Seq::new(length, |i: int| symbol)),
{
    let data = Seq::new(length, |i: int| symbol);
    let single = seq![ModelEntry { symbol, count: length as u32 }];
    lemma_probability_one(length);
    assert(is_model_of(single, data)) by {
        assert(prefix_total(single, 1) == prefix_total(single, 0) + single[0].count);
        assert forall|b: u8| #[trigger] count_of(data, b) > 0 implies holds(single, b) by {
            lemma_count_of_repeated(symbol, length, b);
            assert(single[0].symbol == b);
        }
        lemma_count_of_repeated(symbol, length, symbol);
    }
    lemma_encoding_setup(lower_bound, upper_bound, data);
    lemma_model_unique(single, model_of(data), data);
    let book = book_of(fields_of(lower_bound, upper_bound, model_of(data), data));
    lemma_emit_symbols_single(book, lower_bound as int, upper_bound as int, 0, 0, data);
    lemma_round_trip(lower_bound, upper_bound, data);
}

/// Symbols among which every value below `bound` occurs are at least
/// `bound` symbols below it.
proof fn lemma_symbols_counted(symbols: Seq<u8>, bound: int)
    requires
        0 <= bound <= 256,
        forall|b: u8| (b as int) < bound ==> #[trigger] count_of(symbols, b) >= 1,
    ensures
        count_below(symbols, bound) >= bound,
    decreases bound,
{
    if bound == 0 {
    } else {
        let top = (bound - 1) as u8;
        lemma_symbols_counted(symbols, bound - 1);
        lemma_count_below_step(symbols, top);
        assert(count_of(symbols, top) >= 1);
    }
}

/// Alphabet saturation: the model of data in which every byte value occurs
/// has 256 entries, and so has its cumulative table.
pub proof fn lemma_saturated_model(data: Seq<u8>)
    requires
        data.len() <= u32::MAX,
        forall|b: u8| #[trigger] count_of(data, b) >= 1,
    ensures
        model_of(data).len() == 256,
{
    assert(data.len() >= 1) by {
        if data.len() == 0 {
            assert(count_of(data, 0u8) == 0);
        }
    }
    lemma_model_exists(data);
    let entries = model_of(data);
    let symbols = Seq::new(entries.len(), |i: int| entries[i].symbol);
    assert forall|b: u8| (b as int) < 256 implies #[trigger] count_of(symbols, b) >= 1 by {
        assert(count_of(data, b) > 0);
        assert(holds(entries, b));
        let i = choose|i: int| 0 <= i < entries.len() && #[trigger] entries[i].symbol == b;
        assert(symbols[i] == b);
        lemma_count_of_member(symbols, i);
    }
    lemma_symbols_counted(symbols, 256);
    lemma_count_below_all(symbols);
}

} // verus!
