//! The cumulative table: the share of the coding range that each symbol of a
//! model owns, with the lookups that the two engines need.

use vstd::prelude::*;
use crate::error::CodecError;
use crate::model::{
    distinct_symbols,
    holds,
    lemma_prefix_total_grows,
    prefix_total,
    valid_model,
    FrequencyModel,
    ModelEntry,
};

verus! {

/// The place of `symbol` among the entries. Meaningful when `holds` is true.
pub open spec fn position_of(entries: Seq<ModelEntry>, symbol: u8) -> int {
    choose|i: int| 0 <= i < entries.len() && #[trigger] entries[i].symbol == symbol
}

/// The place of the entry whose share `[lower, upper)` holds `target`.
/// Meaningful when `target` is below the total.
pub open spec fn locate(entries: Seq<ModelEntry>, target: int) -> int {
    choose|i: int|
        0 <= i < entries.len() && prefix_total(entries, i) <= target < #[trigger] prefix_total(
            entries,
            i + 1,
        )
}

/// Where no symbol has two entries, a symbol's place is the only entry for it.
pub proof fn lemma_position_unique(entries: Seq<ModelEntry>, i: int)
    requires
        distinct_symbols(entries),
        0 <= i < entries.len(),
    ensures
        holds(entries, entries[i].symbol),
        position_of(entries, entries[i].symbol) == i,
{
    let symbol = entries[i].symbol;
    let found = position_of(entries, symbol);
    assert(entries[found].symbol == symbol);
    if found < i {
        assert(entries[found].symbol != entries[i].symbol);
    } else if i < found {
        assert(entries[i].symbol != entries[found].symbol);
    }
}

/// The shares of a model do not overlap: a target lies in the share of one
/// entry only.
pub proof fn lemma_locate_unique(entries: Seq<ModelEntry>, target: int, i: int)
    requires
        0 <= i < entries.len(),
        prefix_total(entries, i) <= target < prefix_total(entries, i + 1),
    ensures
        locate(entries, target) == i,
{
    let found = locate(entries, target);
    if found < i {
        lemma_prefix_total_grows(entries, found + 1, i);
    } else if i < found {
        lemma_prefix_total_grows(entries, i + 1, found);
    }
}

/// The cumulative bounds of a model rise strictly from entry to entry, and
/// the last one is the total: the shares tile the whole range.
pub proof fn lemma_cumulative_increasing(entries: Seq<ModelEntry>, total: int)
    requires
        valid_model(entries, total),
    ensures
        entries.len() >= 1,
        prefix_total(entries, entries.len() as int) == total,
        forall|i: int, j: int|
            0 <= i < j <= entries.len() ==> #[trigger] prefix_total(entries, i)
                < #[trigger] prefix_total(entries, j),
        forall|i: int| 0 <= i <= entries.len() ==> 0 <= #[trigger] prefix_total(entries, i) <= total,
{
    assert forall|i: int, j: int| 0 <= i < j <= entries.len() implies #[trigger] prefix_total(
        entries,
        i,
    ) < #[trigger] prefix_total(entries, j) by {
        lemma_prefix_total_grows(entries, i, j);
    }
    assert forall|i: int| 0 <= i <= entries.len() implies 0 <= #[trigger] prefix_total(entries, i)
        <= total by {
        lemma_prefix_total_grows(entries, i, entries.len() as int);
    }
}

/// Every target below the total lies in the share of some entry.
pub proof fn lemma_locate_exists(entries: Seq<ModelEntry>, total: int, target: int)
    requires
        valid_model(entries, total),
        0 <= target < total,
    ensures
        0 <= locate(entries, target) < entries.len(),
        prefix_total(entries, locate(entries, target)) <= target < prefix_total(
            entries,
            locate(entries, target) + 1,
        ),
{
    lemma_first_above(entries, target, entries.len() as int);
}

/// Among the first `n` prefix sums, if the last exceeds the target then some
/// share up to there holds it.
proof fn lemma_first_above(entries: Seq<ModelEntry>, target: int, n: int)
    requires
        0 <= n <= entries.len(),
        0 <= target < prefix_total(entries, n),
    ensures
        exists|i: int|
            0 <= i < entries.len() && prefix_total(entries, i) <= target < #[trigger] prefix_total(
                entries,
                i + 1,
            ),
    decreases n,
{
    if prefix_total(entries, n - 1) <= target {
        assert(prefix_total(entries, n - 1) <= target < prefix_total(entries, (n - 1) + 1));
    } else {
        lemma_first_above(entries, target, n - 1);
    }
}

/// The cumulative table of a model. The entries keep the order of the model;
/// the `i`-th share is `[prefix_total(i), prefix_total(i + 1))` out of the
/// total.
#[derive(Clone, Debug)]
pub struct CumulativeTable {
    entries: Vec<ModelEntry>,
    uppers: Vec<u32>,
    places: Vec<u16>,
    total: u32,
}

impl View for CumulativeTable {
    type V = Seq<ModelEntry>;

    closed spec fn view(&self) -> Seq<ModelEntry> {
        self.entries@
    }
}

impl CumulativeTable {
    /// The sum of all counts.
    pub closed spec fn total(&self) -> nat {
        self.total as nat
    }

    /// The cumulative upper bounds that the table stores, one for each entry.
    pub closed spec fn bounds(&self) -> Seq<u32> {
        self.uppers@
    }

    /// The table belongs to a valid model, and its stored bounds and its
    /// index agree with the entries.
    pub open spec fn wf(&self) -> bool {
        &&& valid_model(self@, self.total() as int)
        &&& self.consistent()
    }

    /// The stored bounds are the prefix sums of the counts, and the index
    /// leads to the entry of each symbol that has one.
    pub closed spec fn consistent(&self) -> bool {
        &&& self.uppers@.len() == self.entries@.len()
        &&& forall|i: int|
            0 <= i < self.uppers@.len() ==> #[trigger] self.uppers@[i] == prefix_total(
                self.entries@,
                i + 1,
            )
        &&& self.places@.len() == 256
        &&& forall|b: u8|
            (#[trigger] self.places@[b as int]) < self.entries@.len() ==> self.entries@[self.places@[b as int] as int].symbol
                == b
        &&& forall|b: u8|
            (#[trigger] self.places@[b as int]) >= self.entries@.len() ==> !holds(self.entries@, b)
    }

    /// Lays out the shares of `model` in its order: the cumulative bound of
    /// each entry is the sum of the counts up to it. The bounds rise strictly,
    /// and the last one is the total.
    pub fn compute_cumulative_probabilities(model: &FrequencyModel) -> (table: CumulativeTable)
        requires
            model.wf(),
        ensures
            table.wf(),
            table@ == model@,
            table.total() == model.total(),
            table.bounds().len() == model@.len(),
            forall|i: int|
                0 <= i < model@.len() ==> #[trigger] table.bounds()[i] == prefix_total(
                    model@,
                    i + 1,
                ),
            forall|i: int, j: int|
                0 <= i < j < model@.len() ==> #[trigger] table.bounds()[i]
                    < #[trigger] table.bounds()[j],
            table.bounds().last() == model.total(),
    {
        let mut entries: Vec<ModelEntry> = Vec::new();
        let mut uppers: Vec<u32> = Vec::new();
        let mut places: Vec<u16> = vec![256u16; 256];
        let total: u32 = model.symbol_count();
        let mut sum: u32 = 0;
        let mut i: usize = 0;
        while i < model.len()
            invariant
                i <= model@.len(),
                model.wf(),
                total == model.total(),
                entries@ == model@.take(i as int),
                uppers@.len() == i,
                sum == prefix_total(model@, i as int),
                forall|k: int| 0 <= k < i ==> #[trigger] uppers@[k] == prefix_total(model@, k + 1),
                places@.len() == 256,
                forall|b: u8|
                    (#[trigger] places@[b as int]) < i ==> model@[places@[b as int] as int].symbol
                        == b,
                forall|b: u8|
                    (#[trigger] places@[b as int]) >= i ==> places@[b as int] == 256 && !holds(
                        model@.take(i as int),
                        b,
                    ),
            decreases model@.len() - i,
        {
            let entry: ModelEntry = model.entry(i);
            proof {
                lemma_prefix_total_grows(model@, i + 1, model@.len() as int);
            }
            sum = sum + entry.count;
            let ghost places_before = places@;
            entries.push(entry);
            uppers.push(sum);
            proof {
                if places@[entry.symbol as int] < i {
                    assert(model@[places@[entry.symbol as int] as int].symbol
                        != model@[i as int].symbol);
                }
            }
            places.set(entry.symbol as usize, i as u16);
            proof {
                let seen = model@.take(i + 1);
                assert(entries@ =~= seen);
                assert forall|b: u8| (#[trigger] places@[b as int]) >= i + 1 implies places@[b as int]
                    == 256 && !holds(seen, b) by {
                    assert(b != entry.symbol);
                    assert(places@[b as int] == places_before[b as int]);
                    if holds(seen, b) {
                        let k = choose|k: int| 0 <= k < seen.len() && #[trigger] seen[k].symbol == b;
                        assert(k < i);
                        assert(model@.take(i as int)[k].symbol == b);
                    }
                }
            }
            i = i + 1;
        }
        proof {
            assert(model@.take(i as int) =~= model@);
            assert forall|k: int| 0 <= k < i implies #[trigger] uppers@[k] == prefix_total(
                entries@,
                k + 1,
            ) by {}
            lemma_cumulative_increasing(model@, total as int);
        }
        CumulativeTable { entries, uppers, places, total }
    }

    /// Finds the share of `byte`: its place, then the upper and the lower
    /// cumulative bound. Fails when the table has no entry for `byte`.
    pub fn find_byte_data(&self, byte: u8) -> (result: Result<(usize, u32, u32), CodecError>)
        requires
            self.wf(),
        ensures
            result is Ok <==> holds(self@, byte),
            result is Err ==> result->Err_0 == CodecError::UnknownSymbol,
            result is Ok ==> {
                let (index, upper, lower) = result->Ok_0;
                &&& index == position_of(self@, byte)
                &&& 0 <= index < self@.len()
                &&& self@[index as int].symbol == byte
                &&& upper == prefix_total(self@, index + 1)
                &&& lower == prefix_total(self@, index as int)
                &&& lower < upper <= self.total()
            },
    {
        let place: usize = self.places[byte as usize] as usize;
        if place >= self.entries.len() {
            return Err(CodecError::UnknownSymbol);
        }
        proof {
            lemma_position_unique(self@, place as int);
            lemma_cumulative_increasing(self@, self.total as int);
            assert(prefix_total(self@, place as int) < prefix_total(self@, place + 1));
        }
        let upper: u32 = self.uppers[place];
        let lower: u32 = if place == 0 {
            0
        } else {
            self.uppers[place - 1]
        };
        Ok((place, upper, lower))
    }

    /// Finds the entry whose share holds `target`: its place, then the upper
    /// and the lower cumulative bound.
    pub fn find_share(&self, target: u32) -> (found: (usize, u32, u32))
        requires
            self.wf(),
            target < self.total(),
        ensures
            found.0 == locate(self@, target as int),
            0 <= found.0 < self@.len(),
            found.1 == prefix_total(self@, found.0 + 1),
            found.2 == prefix_total(self@, found.0 as int),
            found.2 <= target < found.1 <= self.total(),
    {
        proof {
            lemma_cumulative_increasing(self@, self.total as int);
        }
        // The answer is the first place whose upper bound exceeds the target.
        let mut below: usize = 0;
        let mut above: usize = self.uppers.len() - 1;
        while below < above
            invariant
                self.wf(),
                below <= above < self@.len(),
                prefix_total(self@, below as int) <= target < prefix_total(self@, above + 1),
            decreases above - below,
        {
            let middle: usize = below + (above - below) / 2;
            if self.uppers[middle] > target {
                above = middle;
            } else {
                below = middle + 1;
            }
        }
        proof {
            lemma_locate_unique(self@, target as int, below as int);
            assert(prefix_total(self@, below + 1) <= self.total) by {
                lemma_prefix_total_grows(self@, below + 1, self@.len() as int);
            }
        }
        let upper: u32 = self.uppers[below];
        let lower: u32 = if below == 0 {
            0
        } else {
            self.uppers[below - 1]
        };
        (below, upper, lower)
    }

    /// The cumulative upper bound of the entry at `index`.
    pub fn cumulative(&self, index: usize) -> (upper: u32)
        requires
            self.wf(),
            index < self@.len(),
        ensures
            upper == self.bounds()[index as int],
            upper == prefix_total(self@, index + 1),
    {
        self.uppers[index]
    }

    /// The number of entries.
    pub fn len(&self) -> (n: usize)
        ensures
            n == self@.len(),
    {
        self.entries.len()
    }

    /// The symbol of the entry at `index`.
    pub fn symbol_at(&self, index: usize) -> (symbol: u8)
        requires
            index < self@.len(),
        ensures
            symbol == self@[index as int].symbol,
    {
        self.entries[index].symbol
    }

    /// The sum of all counts.
    pub fn symbol_count(&self) -> (total: u32)
        ensures
            total == self.total(),
    {
        self.total
    }
}

} // verus!
