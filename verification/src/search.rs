//! Searching the transaction history by ticker symbol.

use crate::ledger::Transaction;
use crate::text::{contains_text, text_contains, to_uppercase, uppercase_of};
use vstd::prelude::*;

verus! {

/// The transaction's symbol contains `needle`.
pub open spec fn symbol_contains(needle: Seq<char>) -> spec_fn(Transaction) -> bool {
    |t: Transaction| contains_text(t.symbol@, needle)
}

/// The rows whose symbol contains `needle`, in the order given.
pub fn transactions_matching(rows: &Vec<Transaction>, needle: &str) -> (r: Vec<Transaction>)
    ensures
        r@ == rows@.filter(symbol_contains(needle@)),
{
    let n = rows.len();
    let mut out: Vec<Transaction> = Vec::new();
    let mut k: usize = 0;
    while k < n
        invariant
            n == rows@.len(),
            k <= n,
            out@ == rows@.take(k as int).filter(symbol_contains(needle@)),
        decreases n - k,
    {
        proof {
            reveal_with_fuel(Seq::filter, 1);
            assert(rows@.take(k + 1).drop_last() =~= rows@.take(k as int));
        }
        if text_contains(rows[k].symbol.as_str(), needle) {
            out.push(rows[k].duplicate());
        }
        k = k + 1;
    }
    assert(rows@.take(n as int) =~= rows@);
    out
}

/// The rows the symbol filter shows: those whose symbol contains the filter
/// in upper case, as symbols are stored.
pub fn filter_transactions(rows: &Vec<Transaction>, filter: &str) -> (r: Vec<Transaction>)
    ensures
        r@ == rows@.filter(symbol_contains(uppercase_of(filter@))),
{
    let needle = to_uppercase(filter);
    transactions_matching(rows, needle.as_str())
}

/// An empty filter shows every row.
pub proof fn lemma_empty_filter_shows_all(rows: Seq<Transaction>)
    ensures
        rows.filter(symbol_contains(seq![])) == rows,
    decreases rows.len(),
{
    reveal_with_fuel(Seq::filter, 1);
    if rows.len() > 0 {
        lemma_empty_filter_shows_all(rows.drop_last());
        lemma_empty_occurs(rows.last().symbol@);
        assert(rows.drop_last().push(rows.last()) =~= rows);
    } else {
        assert(rows.filter(symbol_contains(seq![])) =~= rows);
    }
}

proof fn lemma_empty_occurs(text: Seq<char>)
    ensures
        contains_text(text, seq![]),
{
    assert(text.subrange(0, 0) =~= seq![]);
    assert(crate::text::occurs_at(text, seq![], 0));
}

/// The rows shown are among the rows given, each with the needle in its
/// symbol.
pub proof fn lemma_matching_rows_contain_needle(rows: Seq<Transaction>, needle: Seq<char>, k: int)
    requires
        0 <= k < rows.filter(symbol_contains(needle)).len(),
    ensures
        rows.contains(rows.filter(symbol_contains(needle))[k]),
        contains_text(rows.filter(symbol_contains(needle))[k].symbol@, needle),
{
    broadcast use vstd::seq_lib::group_filter_ensures;

    let t = rows.filter(symbol_contains(needle))[k];
    assert(rows.filter(symbol_contains(needle)).contains(t));
    rows.lemma_filter_contains_rev(symbol_contains(needle), t);
}

} // verus!
