//! The frequency model: which symbols occur in an input, and how often.

use vstd::prelude::*;
use crate::error::CodecError;
use crate::probability::{probability_bits, probability_of};

verus! {

/// One symbol of the model with the number of times it occurs. Its
/// probability is `count` out of the model's total.
#[derive(Clone, Copy, Debug, PartialEq, Eq, Structural)]
pub struct ModelEntry {
    pub symbol: u8,
    pub count: u32,
}

/// How often `symbol` occurs in `data`.
pub open spec fn count_of(data: Seq<u8>, symbol: u8) -> nat
    decreases data.len(),
{
    if data.len() == 0 {
        0
    } else {
        count_of(data.drop_last(), symbol) + if data.last() == symbol {
            1nat
        } else {
            0nat
        }
    }
}

/// How many elements of `data` are below `bound`.
pub open spec fn count_below(data: Seq<u8>, bound: int) -> nat
    decreases data.len(),
{
    if data.len() == 0 {
        0
    } else {
        count_below(data.drop_last(), bound) + if (data.last() as int) < bound {
            1nat
        } else {
            0nat
        }
    }
}

/// The sum of the counts of the first `n` entries.
pub open spec fn prefix_total(entries: Seq<ModelEntry>, n: int) -> int
    decreases n,
{
    if n <= 0 {
        0
    } else {
        prefix_total(entries, n - 1) + entries[n - 1].count
    }
}

/// Whether some entry is for `symbol`.
pub open spec fn holds(entries: Seq<ModelEntry>, symbol: u8) -> bool {
    exists|i: int| 0 <= i < entries.len() && #[trigger] entries[i].symbol == symbol
}

/// No symbol has two entries.
pub open spec fn distinct_symbols(entries: Seq<ModelEntry>) -> bool {
    forall|i: int, j: int|
        0 <= i < j < entries.len() ==> #[trigger] entries[i].symbol != #[trigger] entries[j].symbol
}

/// The order of the model: the more frequent symbol first, and of two equally
/// frequent ones the smaller.
pub open spec fn precedes(a: ModelEntry, b: ModelEntry) -> bool {
    a.count > b.count || (a.count == b.count && a.symbol < b.symbol)
}

/// Every entry precedes all that follow it.
pub open spec fn ordered(entries: Seq<ModelEntry>) -> bool {
    forall|i: int, j: int|
        0 <= i < j < entries.len() ==> precedes(#[trigger] entries[i], #[trigger] entries[j])
}

/// The entries are a model with the given total: every symbol at most once,
/// every count positive, and the counts add up to the total.
pub open spec fn valid_model(entries: Seq<ModelEntry>, total: int) -> bool {
    &&& entries.len() <= 256
    &&& distinct_symbols(entries)
    &&& forall|i: int| 0 <= i < entries.len() ==> (#[trigger] entries[i]).count >= 1
    &&& prefix_total(entries, entries.len() as int) == total
    &&& total >= 1
}

/// The entries count the symbols of `data`: each entry holds how often its
/// symbol occurs, and every symbol that occurs has an entry.
pub open spec fn describes(entries: Seq<ModelEntry>, data: Seq<u8>) -> bool {
    &&& forall|i: int|
        0 <= i < entries.len() ==> (#[trigger] entries[i]).count == count_of(
            data,
            entries[i].symbol,
        )
    &&& forall|symbol: u8| #[trigger] count_of(data, symbol) > 0 ==> holds(entries, symbol)
}

/// Whether `entries` is the model of `data`: valid for as many symbols as
/// `data` holds, in the order of the model, and counting the symbols of
/// `data`.
pub open spec fn is_model_of(entries: Seq<ModelEntry>, data: Seq<u8>) -> bool {
    &&& valid_model(entries, data.len() as int)
    &&& ordered(entries)
    &&& describes(entries, data)
}

/// The model of `data`. Data that is not empty has exactly one.
pub open spec fn model_of(data: Seq<u8>) -> Seq<ModelEntry> {
    choose|entries: Seq<ModelEntry>| is_model_of(entries, data)
}

/// An entry of one model of `data` is an entry of every model of `data`.
proof fn lemma_entry_shared(a: Seq<ModelEntry>, b: Seq<ModelEntry>, data: Seq<u8>, i: int)
    requires
        is_model_of(a, data),
        is_model_of(b, data),
        0 <= i < a.len(),
    ensures
        exists|j: int| 0 <= j < b.len() && #[trigger] b[j] == a[i],
{
    let symbol = a[i].symbol;
    assert(a[i].count >= 1);
    assert(count_of(data, symbol) > 0);
    assert(holds(b, symbol));
    let j = choose|j: int| 0 <= j < b.len() && #[trigger] b[j].symbol == symbol;
    assert(b[j].count == count_of(data, symbol));
    assert(b[j] == a[i]);
}

/// Two models of the same data agree on their first `n` entries.
proof fn lemma_models_agree(a: Seq<ModelEntry>, b: Seq<ModelEntry>, data: Seq<u8>, n: int)
    requires
        is_model_of(a, data),
        is_model_of(b, data),
        0 <= n <= a.len(),
        n <= b.len(),
    ensures
        forall|i: int| 0 <= i < n ==> a[i] == b[i],
    decreases n,
{
    if n > 0 {
        lemma_models_agree(a, b, data, n - 1);
        let k = n - 1;
        lemma_entry_shared(a, b, data, k);
        lemma_entry_shared(b, a, data, k);
        let j = choose|j: int| 0 <= j < b.len() && #[trigger] b[j] == a[k];
        let i = choose|i: int| 0 <= i < a.len() && #[trigger] a[i] == b[k];
        if j < k {
            assert(a[j] == b[j]);
            assert(a[j].symbol != a[k].symbol);
        } else if j > k {
            assert(precedes(b[k], b[j]));
            if i < k {
                assert(a[i] == b[i]);
                assert(b[i].symbol != b[k].symbol);
            } else if i > k {
                assert(precedes(a[k], a[i]));
            } else {
                assert(b[k].symbol != b[j].symbol);
            }
        }
    }
}

/// The model of given data is unique: encoding the same data again meets
/// the same model.
pub proof fn lemma_model_unique(a: Seq<ModelEntry>, b: Seq<ModelEntry>, data: Seq<u8>)
    requires
        is_model_of(a, data),
        is_model_of(b, data),
    ensures
        a == b,
{
    if a.len() <= b.len() {
        lemma_models_agree(a, b, data, a.len() as int);
        if a.len() < b.len() {
            let k = a.len() as int;
            lemma_entry_shared(b, a, data, k);
            let i = choose|i: int| 0 <= i < a.len() && #[trigger] a[i] == b[k];
            assert(a[i] == b[i]);
            assert(b[i].symbol != b[k].symbol);
        }
    } else {
        lemma_models_agree(a, b, data, b.len() as int);
        let k = b.len() as int;
        lemma_entry_shared(a, b, data, k);
        let j = choose|j: int| 0 <= j < b.len() && #[trigger] b[j] == a[k];
        assert(a[j] == b[j]);
        assert(a[j].symbol != a[k].symbol);
    }
    assert(a =~= b);
}

/// The prefix sums never decrease, and grow by at least one per entry when
/// every count is positive.
pub proof fn lemma_prefix_total_grows(entries: Seq<ModelEntry>, a: int, b: int)
    requires
        0 <= a <= b <= entries.len(),
    ensures
        prefix_total(entries, a) <= prefix_total(entries, b),
        0 <= prefix_total(entries, a),
        (forall|i: int| 0 <= i < entries.len() ==> (#[trigger] entries[i]).count >= 1)
            ==> prefix_total(entries, a) + (b - a) <= prefix_total(entries, b),
    decreases b,
{
    if a < b {
        lemma_prefix_total_grows(entries, a, b - 1);
    } else if a > 0 {
        lemma_prefix_total_grows(entries, a - 1, a - 1);
    }
}

/// The prefix sums depend only on the entries they add up.
pub proof fn lemma_prefix_total_agrees(a: Seq<ModelEntry>, b: Seq<ModelEntry>, n: int)
    requires
        n <= a.len(),
        n <= b.len(),
        forall|i: int| 0 <= i < n ==> a[i] == b[i],
    ensures
        prefix_total(a, n) == prefix_total(b, n),
    decreases n,
{
    if n > 0 {
        lemma_prefix_total_agrees(a, b, n - 1);
    }
}

/// Inserting an entry adds its count to every prefix sum that reaches it.
pub proof fn lemma_prefix_total_insert(entries: Seq<ModelEntry>, at: int, entry: ModelEntry, n: int)
    requires
        0 <= at <= entries.len(),
        0 <= n <= entries.len() + 1,
    ensures
        n <= at ==> prefix_total(entries.insert(at, entry), n) == prefix_total(entries, n),
        n > at ==> prefix_total(entries.insert(at, entry), n) == prefix_total(entries, n - 1)
            + entry.count,
    decreases n,
{
    if n > 0 {
        lemma_prefix_total_insert(entries, at, entry, n - 1);
    }
}

/// An entry for a new, larger symbol, placed behind the entries that occur
/// at least as often and before those that occur less often, keeps the order.
pub proof fn lemma_insert_keeps_order(before: Seq<ModelEntry>, at: int, entry: ModelEntry)
    requires
        0 <= at <= before.len(),
        ordered(before),
        distinct_symbols(before),
        forall|i: int| 0 <= i < before.len() ==> (#[trigger] before[i]).symbol < entry.symbol,
        forall|i: int| 0 <= i < at ==> (#[trigger] before[i]).count >= entry.count,
        at < before.len() ==> before[at].count < entry.count,
    ensures
        ordered(before.insert(at, entry)),
        distinct_symbols(before.insert(at, entry)),
{
    let after = before.insert(at, entry);
    assert forall|i: int, j: int| 0 <= i < j < after.len() implies precedes(
        #[trigger] after[i],
        #[trigger] after[j],
    ) by {
        if j < at {
            assert(after[i] == before[i] && after[j] == before[j]);
        } else if j == at {
            assert(after[i] == before[i]);
        } else if i < at {
            assert(after[i] == before[i] && after[j] == before[j - 1]);
        } else if i == at {
            assert(after[j] == before[j - 1]);
            if j - 1 > at {
                assert(precedes(before[at], before[j - 1]));
            }
        } else {
            assert(after[i] == before[i - 1] && after[j] == before[j - 1]);
        }
    }
    assert forall|i: int, j: int| 0 <= i < j < after.len() implies #[trigger] after[i].symbol
        != #[trigger] after[j].symbol by {
        let bi = if i < at {
            i
        } else {
            i - 1
        };
        let bj = if j < at {
            j
        } else {
            j - 1
        };
        if i != at {
            assert(after[i] == before[bi]);
        }
        if j != at {
            assert(after[j] == before[bj]);
        }
    }
}

/// An entry that holds the count of its symbol in `data` extends a model of
/// the smaller symbols of `data` to one that covers that symbol too.
pub proof fn lemma_insert_keeps_counts(
    before: Seq<ModelEntry>,
    at: int,
    entry: ModelEntry,
    data: Seq<u8>,
)
    requires
        0 <= at <= before.len(),
        entry.count >= 1,
        entry.count == count_of(data, entry.symbol),
        forall|i: int|
            0 <= i < before.len() ==> {
                &&& (#[trigger] before[i]).symbol < entry.symbol
                &&& before[i].count >= 1
                &&& before[i].count == count_of(data, before[i].symbol)
            },
        forall|b: u8| b < entry.symbol && #[trigger] count_of(data, b) > 0 ==> holds(before, b),
    ensures
        forall|i: int|
            0 <= i < before.len() + 1 ==> {
                &&& (#[trigger] before.insert(at, entry)[i]).symbol <= entry.symbol
                &&& before.insert(at, entry)[i].count >= 1
                &&& before.insert(at, entry)[i].count == count_of(
                    data,
                    before.insert(at, entry)[i].symbol,
                )
            },
        forall|b: u8|
            b <= entry.symbol && #[trigger] count_of(data, b) > 0 ==> holds(
                before.insert(at, entry),
                b,
            ),
{
    let after = before.insert(at, entry);
    assert forall|i: int| 0 <= i < after.len() implies {
        &&& (#[trigger] after[i]).symbol <= entry.symbol
        &&& after[i].count >= 1
        &&& after[i].count == count_of(data, after[i].symbol)
    } by {
        if i < at {
            assert(after[i] == before[i]);
        } else if i > at {
            assert(after[i] == before[i - 1]);
        }
    }
    assert forall|b: u8| b <= entry.symbol && #[trigger] count_of(data, b) > 0 implies holds(
        after,
        b,
    ) by {
        if b == entry.symbol {
            assert(after[at].symbol == b);
        } else {
            assert(holds(before, b));
            let k = choose|k: int| 0 <= k < before.len() && #[trigger] before[k].symbol == b;
            let moved = if k < at {
                k
            } else {
                k + 1
            };
            assert(after[moved].symbol == b);
        }
    }
}

/// Every element of the data is counted for exactly one symbol below 256.
pub proof fn lemma_count_below_all(data: Seq<u8>)
    ensures
        count_below(data, 256) == data.len(),
        count_below(data, 0) == 0,
    decreases data.len(),
{
    if data.len() > 0 {
        lemma_count_below_all(data.drop_last());
    }
}

/// Raising the bound by one symbol adds the occurrences of that symbol.
pub proof fn lemma_count_below_step(data: Seq<u8>, symbol: u8)
    ensures
        count_below(data, symbol + 1) == count_below(data, symbol as int) + count_of(data, symbol),
    decreases data.len(),
{
    if data.len() > 0 {
        lemma_count_below_step(data.drop_last(), symbol);
    }
}

/// The place at which an entry with the count `count` joins entries in the
/// order of the model: behind all that occur at least as often.
proof fn lemma_place(entries: Seq<ModelEntry>, count: u32, from: int) -> (at: int)
    requires
        0 <= from <= entries.len(),
        forall|i: int| 0 <= i < from ==> (#[trigger] entries[i]).count >= count,
    ensures
        from <= at <= entries.len(),
        forall|i: int| 0 <= i < at ==> (#[trigger] entries[i]).count >= count,
        at < entries.len() ==> entries[at].count < count,
    decreases entries.len() - from,
{
    if from < entries.len() && entries[from].count >= count {
        lemma_place(entries, count, from + 1)
    } else {
        from
    }
}

/// The model of the symbols of `data` that are below `bound`.
proof fn lemma_model_below(data: Seq<u8>, bound: int) -> (entries: Seq<ModelEntry>)
    requires
        0 <= bound <= 256,
        data.len() <= u32::MAX,
    ensures
        entries.len() <= bound,
        ordered(entries),
        distinct_symbols(entries),
        forall|i: int|
            0 <= i < entries.len() ==> {
                &&& ((#[trigger] entries[i]).symbol as int) < bound
                &&& entries[i].count >= 1
                &&& entries[i].count == count_of(data, entries[i].symbol)
            },
        forall|b: u8| (b as int) < bound && #[trigger] count_of(data, b) > 0 ==> holds(entries, b),
        prefix_total(entries, entries.len() as int) == count_below(data, bound),
    decreases bound,
{
    if bound == 0 {
        lemma_count_below_all(data);
        Seq::empty()
    } else {
        let before = lemma_model_below(data, bound - 1);
        let symbol = (bound - 1) as u8;
        lemma_count_below_step(data, symbol);
        lemma_count_of_bound(data, symbol);
        if count_of(data, symbol) == 0 {
            before
        } else {
            let entry = ModelEntry { symbol, count: count_of(data, symbol) as u32 };
            let at = lemma_place(before, entry.count, 0);
            lemma_insert_keeps_order(before, at, entry);
            lemma_insert_keeps_counts(before, at, entry, data);
            lemma_prefix_total_insert(before, at, entry, before.len() as int + 1);
            before.insert(at, entry)
        }
    }
}

/// Data that is not empty has a model, and `model_of` is that model.
pub proof fn lemma_model_exists(data: Seq<u8>)
    requires
        1 <= data.len() <= u32::MAX,
    ensures
        is_model_of(model_of(data), data),
{
    let entries = lemma_model_below(data, 256);
    lemma_count_below_all(data);
    assert(is_model_of(entries, data));
}

/// Every element of the data occurs in it.
pub proof fn lemma_count_of_member(data: Seq<u8>, index: int)
    requires
        0 <= index < data.len(),
    ensures
        count_of(data, data[index]) >= 1,
    decreases data.len(),
{
    if index < data.len() - 1 {
        lemma_count_of_member(data.drop_last(), index);
    }
}

/// No symbol occurs more often than the data is long.
pub proof fn lemma_count_of_bound(data: Seq<u8>, symbol: u8)
    ensures
        count_of(data, symbol) <= data.len(),
    decreases data.len(),
{
    if data.len() > 0 {
        lemma_count_of_bound(data.drop_last(), symbol);
    }
}

/// The static probability model of one input: its symbols with their counts,
/// in the order in which the coder lays out their shares.
#[derive(Clone, Debug, PartialEq, Eq)]
pub struct FrequencyModel {
    entries: Vec<ModelEntry>,
    total: u32,
}

impl View for FrequencyModel {
    type V = Seq<ModelEntry>;

    closed spec fn view(&self) -> Seq<ModelEntry> {
        self.entries@
    }
}

impl FrequencyModel {
    /// The number of symbols that the model was counted over.
    pub closed spec fn total(&self) -> nat {
        self.total as nat
    }

    /// The counts are positive and add up to the total, and no symbol has
    /// two entries.
    pub open spec fn wf(&self) -> bool {
        valid_model(self@, self.total() as int)
    }

    /// The model without any entry, as a coder holds it before it has seen
    /// an input.
    pub fn empty() -> (model: FrequencyModel)
        ensures
            model@.len() == 0,
            model.total() == 0,
    {
        FrequencyModel { entries: Vec::new(), total: 0 }
    }

    /// Counts every symbol of `data` and lays the entries out by falling
    /// count, equal counts by rising symbol. Fails on empty data.
    pub fn build(data: &[u8]) -> (result: Result<FrequencyModel, CodecError>)
        requires
            data@.len() <= u32::MAX,
        ensures
            data@.len() == 0 <==> result is Err,
            result is Err ==> result->Err_0 == CodecError::EmptyInput,
            result is Ok ==> {
                let model = result->Ok_0;
                &&& model.wf()
                &&& model.total() == data@.len()
                &&& is_model_of(model@, data@)
                &&& model@ == model_of(data@)
            },
    {
        if data.len() == 0 {
            return Err(CodecError::EmptyInput);
        }
        let counts: Vec<u32> = tally(data);
        let mut entries: Vec<ModelEntry> = Vec::new();
        let mut next: usize = 0;
        proof {
            lemma_count_below_all(data@);
        }
        while next < 256
            invariant
                next <= 256,
                counts@.len() == 256,
                forall|b: u8| #[trigger] counts@[b as int] == count_of(data@, b),
                entries@.len() <= next,
                ordered(entries@),
                distinct_symbols(entries@),
                forall|i: int|
                    0 <= i < entries@.len() ==> {
                        &&& ((#[trigger] entries@[i]).symbol as int) < next
                        &&& entries@[i].count >= 1
                        &&& entries@[i].count == count_of(data@, entries@[i].symbol)
                    },
                forall|b: u8|
                    (b as int) < next && #[trigger] count_of(data@, b) > 0 ==> holds(entries@, b),
                prefix_total(entries@, entries@.len() as int) == count_below(data@, next as int),
            decreases 256 - next,
        {
            let symbol: u8 = next as u8;
            let count: u32 = counts[next];
            proof {
                lemma_count_below_step(data@, symbol);
            }
            if count > 0 {
                let entry = ModelEntry { symbol, count };
                let mut at: usize = 0;
                while at < entries.len() && entries[at].count >= count
                    invariant
                        at <= entries@.len(),
                        forall|i: int| 0 <= i < at ==> (#[trigger] entries@[i]).count >= count,
                    decreases entries@.len() - at,
                {
                    at = at + 1;
                }
                proof {
                    lemma_insert_keeps_order(entries@, at as int, entry);
                    lemma_insert_keeps_counts(entries@, at as int, entry, data@);
                    lemma_prefix_total_insert(
                        entries@,
                        at as int,
                        entry,
                        entries@.len() as int + 1,
                    );
                }
                entries.insert(at, entry);
            } else {
                proof {
                    assert forall|b: u8|
                        (b as int) < next + 1 && #[trigger] count_of(data@, b) > 0 implies holds(
                        entries@,
                        b,
                    ) by {}
                }
            }
            next = next + 1;
        }
        proof {
            assert(is_model_of(entries@, data@));
            lemma_model_unique(entries@, model_of(data@), data@);
        }
        Ok(FrequencyModel { entries, total: data.len() as u32 })
    }

    /// How many distinct symbols the model holds.
    pub fn len(&self) -> (n: usize)
        ensures
            n == self@.len(),
    {
        self.entries.len()
    }

    /// The entry at `index`, in the order of the model.
    pub fn entry(&self, index: usize) -> (entry: ModelEntry)
        requires
            index < self@.len(),
        ensures
            entry == self@[index as int],
    {
        self.entries[index]
    }

    /// The probability of the entry at `index`: the bits of the double
    /// nearest to its count out of the total.
    pub fn probability(&self, index: usize) -> (bits: u64)
        requires
            self.wf(),
            index < self@.len(),
        ensures
            bits == probability_bits(self@[index as int].count as nat, self.total()),
    {
        proof {
            lemma_prefix_total_grows(self@, index as int, index + 1);
            lemma_prefix_total_grows(self@, index + 1, self@.len() as int);
            lemma_prefix_total_grows(self@, 0, index as int);
        }
        probability_of(self.entries[index].count, self.total)
    }

    /// The number of symbols that the model was counted over.
    pub fn symbol_count(&self) -> (total: u32)
        ensures
            total == self.total(),
    {
        self.total
    }

    /// The model with the given entries in the given order, or nothing when
    /// they are no model for `total` symbols.
    pub fn from_entries(entries: Vec<ModelEntry>, total: u32) -> (result: Option<FrequencyModel>)
        ensures
            result is Some <==> valid_model(entries@, total as int),
            result is Some ==> result->Some_0@ == entries@ && result->Some_0.total() == total,
    {
        if entries.len() > 256 {
            return None;
        }
        let mut seen: Vec<bool> = vec![false; 256];
        let mut sum: u64 = 0;
        let mut i: usize = 0;
        while i < entries.len()
            invariant
                i <= entries@.len(),
                seen@.len() == 256,
                forall|b: u8| #[trigger]
                    seen@[b as int] <==> exists|k: int|
                        0 <= k < i && #[trigger] entries@[k].symbol == b,
                forall|a: int, b: int|
                    0 <= a < b < i ==> #[trigger] entries@[a].symbol != #[trigger] entries@[b].symbol,
                forall|k: int| 0 <= k < i ==> (#[trigger] entries@[k]).count >= 1,
                sum == prefix_total(entries@, i as int),
                sum <= total,
            decreases entries@.len() - i,
        {
            let entry: ModelEntry = entries[i];
            if entry.count == 0 || seen[entry.symbol as usize] || entry.count as u64 > total as u64
                - sum {
                proof {
                    if valid_model(entries@, total as int) {
                        lemma_prefix_total_grows(entries@, i + 1, entries@.len() as int);
                        if seen@[entry.symbol as int] {
                            let k = choose|k: int|
                                0 <= k < i && #[trigger] entries@[k].symbol == entry.symbol;
                            assert(entries@[k].symbol != entries@[i as int].symbol);
                        }
                    }
                }
                return None;
            }
            let ghost seen_before = seen@;
            seen.set(entry.symbol as usize, true);
            sum = sum + entry.count as u64;
            i = i + 1;
            proof {
                assert forall|b: u8| #[trigger]
                    seen@[b as int] <==> exists|k: int|
                        0 <= k < i && #[trigger] entries@[k].symbol == b by {
                    if b == entry.symbol {
                        assert(entries@[i - 1].symbol == b);
                    } else {
                        if seen_before[b as int] {
                            let k = choose|k: int|
                                0 <= k < i - 1 && #[trigger] entries@[k].symbol == b;
                            assert(entries@[k].symbol == b);
                        }
                    }
                }
            }
        }
        if sum != total as u64 || total == 0 {
            return None;
        }
        Some(FrequencyModel { entries, total })
    }
}

/// Counts how often each of the 256 symbols occurs.
fn tally(data: &[u8]) -> (counts: Vec<u32>)
    requires
        data@.len() <= u32::MAX,
    ensures
        counts@.len() == 256,
        forall|b: u8| #[trigger] counts@[b as int] == count_of(data@, b),
{
    let mut counts: Vec<u32> = vec![0u32; 256];
    let mut i: usize = 0;
    while i < data.len()
        invariant
            i <= data@.len(),
            data@.len() <= u32::MAX,
            counts@.len() == 256,
            forall|b: u8| #[trigger] counts@[b as int] == count_of(data@.take(i as int), b),
        decreases data@.len() - i,
    {
        let symbol: u8 = data[i];
        proof {
            lemma_count_of_bound(data@.take(i as int), symbol);
            assert(data@.take(i + 1).drop_last() =~= data@.take(i as int));
        }
        let seen: u32 = counts[symbol as usize];
        counts.set(symbol as usize, seen + 1);
        i = i + 1;
    }
    proof {
        assert(data@.take(i as int) =~= data@);
    }
    counts
}

} // verus!
