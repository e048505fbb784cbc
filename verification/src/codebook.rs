//! The codebook: what the encoder and the decoder share while they work on
//! one input.

use vstd::prelude::*;
use crate::cumulative::{lemma_cumulative_increasing, position_of, CumulativeTable};
use crate::model::{holds, prefix_total, valid_model, ModelEntry};
use crate::radix::{lemma_pow10_positive, pow10, Frame};
use crate::range::{lemma_narrow, narrowed_high, narrowed_low};

verus! {

/// What the two engines share: the entries of the model in their order, the
/// total of their counts, and the number of digits of the frame.
pub struct Codebook {
    pub entries: Seq<ModelEntry>,
    pub total: int,
    pub width: nat,
}

impl Codebook {
    /// The weight of the leading digit.
    pub open spec fn unit(self) -> int {
        pow10((self.width - 1) as nat) as int
    }

    /// The entries are a valid model and the frame has at least one digit.
    pub open spec fn wf(self) -> bool {
        &&& valid_model(self.entries, self.total)
        &&& self.width >= 1
    }

    /// Whether `[low, high]` is a range of the frame.
    pub open spec fn admits(self, low: int, high: int) -> bool {
        0 <= low <= high < 10 * self.unit()
    }

    /// The lower bound of `[low, high]` narrowed to the share of `symbol`.
    pub open spec fn narrow_low(self, low: int, high: int, symbol: u8) -> int {
        narrowed_low(
            low,
            high,
            prefix_total(self.entries, position_of(self.entries, symbol)),
            self.total,
        )
    }

    /// The upper bound of `[low, high]` narrowed to the share of `symbol`.
    pub open spec fn narrow_high(self, low: int, high: int, symbol: u8) -> int {
        narrowed_high(
            low,
            high,
            prefix_total(self.entries, position_of(self.entries, symbol) + 1),
            self.total,
        )
    }
}

/// The codebook of a table in a frame.
pub open spec fn codebook(table: CumulativeTable, frame: Frame) -> Codebook {
    Codebook { entries: table@, total: table.total() as int, width: frame.width() }
}

/// The unit of a codebook is one or a multiple of ten.
pub proof fn lemma_book_unit(book: Codebook)
    requires
        book.width >= 1,
    ensures
        book.unit() >= 1,
        book.unit() == 1 || book.unit() % 10 == 0,
        book.width >= 2 ==> book.unit() >= 10,
        book.width == 1 ==> book.unit() == 1,
{
    lemma_pow10_positive((book.width - 1) as nat);
    reveal_with_fuel(pow10, 2);
}

/// Narrowing to the share of a symbol of the model stays inside the range.
pub proof fn lemma_narrow_symbol(book: Codebook, low: int, high: int, symbol: u8)
    requires
        book.wf(),
        book.admits(low, high),
        holds(book.entries, symbol),
    ensures
        low <= book.narrow_low(low, high, symbol),
        book.narrow_high(low, high, symbol) <= high,
        book.narrow_low(low, high, symbol) <= book.narrow_high(low, high, symbol) + 1,
        high - low + 1 >= book.total ==> book.narrow_low(low, high, symbol) <= book.narrow_high(
            low,
            high,
            symbol,
        ),
{
    let i = position_of(book.entries, symbol);
    lemma_cumulative_increasing(book.entries, book.total);
    assert(prefix_total(book.entries, i) < prefix_total(book.entries, i + 1));
    lemma_narrow(
        low,
        high,
        prefix_total(book.entries, i),
        prefix_total(book.entries, i + 1),
        book.total,
    );
}

} // verus!
