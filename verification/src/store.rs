//! The stored portfolios and transactions, as the rows of two tables, and
//! the reads and writes the dashboard makes of them: rows are found by
//! identifier, portfolios are listed in order of creation and the
//! transactions of a portfolio newest first.

use crate::ledger::{
    apply, basis_at, bought_cost, by_date, calculate_holdings, chronological, costs_fit, gain_change, gains_fit, gross_at,
    holdings_of, invested_cost, kind_of, ledger_overflows, lemma_by_date_total_preorder,
    lemma_dividend_changes_only_gain_anywhere, lemma_dividend_gain_anywhere, lemma_invested_of_symbol_alone,
    lemma_net_shares_any_order, lemma_position_has_symbol, lemma_position_of_symbol_alone, lemma_realized_of_symbol_alone,
    lists_symbol, net_shares, of_symbol, position, realized_sum, share_change, shares_fit, trades_fit, Holding,
    LedgerError, Transaction, TransactionKind,
};
use crate::order::{
    in_order, insert_stable, lemma_in_order_unique, lemma_insert_stable_at, lemma_insert_stable_in_order,
    lemma_insert_stable_multiset, lemma_insert_stable_splits, lemma_stable_order_filter, lemma_stable_order_keeps,
    lemma_stable_order_prepend_last, lemma_stable_order_push_first, lemma_stable_order_sorted_permutation, stable_order,
    total_preorder,
};
use crate::records::{is_record_id, now_rfc3339, Portfolio, BASE_CURRENCY, DEFAULT_ALLOCATIONS, DEFAULT_PORTFOLIO_NAME};
use crate::text::{text_equal, text_le, text_less_eq, text_lt};
use crate::amount::{at_scale, Amount};
use vstd::prelude::*;

verus! {

/// Why a write was refused.
#[derive(Debug, PartialEq, Eq)]
pub enum StoreError {
    /// A row with the same identifier is stored already.
    DuplicateId,
    /// The transaction names a portfolio that is not stored.
    UnknownPortfolio,
}

/// The rows of the two tables, in the order they were stored.
pub struct Database {
    portfolios: Vec<Portfolio>,
    transactions: Vec<Transaction>,
}

/// The contents of the tables.
pub struct StoreView {
    pub portfolios: Seq<Portfolio>,
    pub transactions: Seq<Transaction>,
}

impl View for Database {
    type V = StoreView;

    closed spec fn view(&self) -> StoreView {
        StoreView { portfolios: self.portfolios@, transactions: self.transactions@ }
    }
}

/// The first portfolio row with that identifier.
pub open spec fn portfolio_with_id(rows: Seq<Portfolio>, id: Seq<char>) -> Option<Portfolio>
    decreases rows.len(),
{
    if rows.len() == 0 {
        None
    } else if rows[0].id@ == id {
        Some(rows[0])
    } else {
        portfolio_with_id(rows.drop_first(), id)
    }
}

/// The first transaction row with that identifier.
pub open spec fn transaction_with_id(rows: Seq<Transaction>, id: Seq<char>) -> Option<Transaction>
    decreases rows.len(),
{
    if rows.len() == 0 {
        None
    } else if rows[0].id@ == id {
        Some(rows[0])
    } else {
        transaction_with_id(rows.drop_first(), id)
    }
}

/// Portfolios in order of creation: one created no later stays first.
pub open spec fn by_creation() -> spec_fn(Portfolio, Portfolio) -> bool {
    |a: Portfolio, b: Portfolio| text_le(a.created_at@, b.created_at@)
}

/// Transactions newest first: one dated no earlier stays first.
pub open spec fn newest_first() -> spec_fn(Transaction, Transaction) -> bool {
    |a: Transaction, b: Transaction| text_le(b.date@, a.date@)
}

/// The transaction belongs to the portfolio.
pub open spec fn of_portfolio(portfolio_id: Seq<char>) -> spec_fn(Transaction) -> bool {
    |t: Transaction| t.portfolio_id@ == portfolio_id
}

/// A portfolio row with another identifier.
pub open spec fn other_portfolio(id: Seq<char>) -> spec_fn(Portfolio) -> bool {
    |p: Portfolio| p.id@ != id
}

/// A transaction row with another identifier.
pub open spec fn other_transaction(id: Seq<char>) -> spec_fn(Transaction) -> bool {
    |t: Transaction| t.id@ != id
}

/// A transaction of another portfolio.
pub open spec fn not_of_portfolio(portfolio_id: Seq<char>) -> spec_fn(Transaction) -> bool {
    |t: Transaction| t.portfolio_id@ != portfolio_id
}

/// The transactions of a portfolio as they are listed: newest first, those
/// of one date in the order stored.
pub open spec fn listed_transactions(rows: Seq<Transaction>, portfolio_id: Seq<char>) -> Seq<Transaction> {
    stable_order(rows.filter(of_portfolio(portfolio_id)), newest_first())
}

/// A portfolio row after it was renamed and given new target allocations
/// at `now`.
pub open spec fn revised_portfolio(before: Portfolio, after: Portfolio, name: Seq<char>, allocations: Seq<char>) -> bool {
    &&& after.id == before.id
    &&& after.name@ == name
    &&& after.target_allocations@ == allocations
    &&& after.base_currency == before.base_currency
    &&& after.created_at == before.created_at
}

/// Some portfolio row has that identifier.
pub open spec fn stores_portfolio(rows: Seq<Portfolio>, id: Seq<char>) -> bool {
    exists|j: int| 0 <= j < rows.len() && rows[j].id@ == id
}

/// Some transaction row has that identifier.
pub open spec fn stores_transaction(rows: Seq<Transaction>, id: Seq<char>) -> bool {
    exists|j: int| 0 <= j < rows.len() && rows[j].id@ == id
}

/// A portfolio is found by identifier exactly when a row has it.
pub proof fn lemma_portfolio_found(rows: Seq<Portfolio>, id: Seq<char>)
    ensures
        portfolio_with_id(rows, id) is Some <==> stores_portfolio(rows, id),
    decreases rows.len(),
{
    if rows.len() > 0 {
        lemma_portfolio_found(rows.drop_first(), id);
        if stores_portfolio(rows.drop_first(), id) {
            let j = choose|j: int| 0 <= j < rows.drop_first().len() && rows.drop_first()[j].id@ == id;
            assert(rows[j + 1].id@ == id);
        }
        if stores_portfolio(rows, id) && rows[0].id@ != id {
            let j = choose|j: int| 0 <= j < rows.len() && rows[j].id@ == id;
            assert(rows.drop_first()[j - 1].id@ == id);
        }
    }
}

/// A transaction is found by identifier exactly when a row has it.
pub proof fn lemma_transaction_found(rows: Seq<Transaction>, id: Seq<char>)
    ensures
        transaction_with_id(rows, id) is Some <==> stores_transaction(rows, id),
    decreases rows.len(),
{
    if rows.len() > 0 {
        lemma_transaction_found(rows.drop_first(), id);
        if stores_transaction(rows.drop_first(), id) {
            let j = choose|j: int| 0 <= j < rows.drop_first().len() && rows.drop_first()[j].id@ == id;
            assert(rows[j + 1].id@ == id);
        }
        if stores_transaction(rows, id) && rows[0].id@ != id {
            let j = choose|j: int| 0 <= j < rows.len() && rows[j].id@ == id;
            assert(rows.drop_first()[j - 1].id@ == id);
        }
    }
}

proof fn lemma_filter_keeps_all<T>(rows: Seq<T>, keep: spec_fn(T) -> bool)
    requires
        forall|k: int| 0 <= k < rows.len() ==> keep(#[trigger] rows[k]),
    ensures
        rows.filter(keep) == rows,
    decreases rows.len(),
{
    reveal_with_fuel(Seq::filter, 1);
    if rows.len() > 0 {
        assert forall|k: int| 0 <= k < rows.drop_last().len() implies keep(#[trigger] rows.drop_last()[k]) by {
            assert(rows.drop_last()[k] == rows[k]);
        }
        lemma_filter_keeps_all(rows.drop_last(), keep);
        assert(keep(rows[rows.len() - 1]));
        assert(rows.drop_last().push(rows.last()) =~= rows);
    } else {
        assert(rows.filter(keep) =~= rows);
    }
}

/// Deleting a portfolio together with its transactions leaves every other
/// transaction with its portfolio stored.
proof fn lemma_links_survive_delete(ps: Seq<Portfolio>, ts: Seq<Transaction>, id: Seq<char>)
    requires
        forall|k: int| 0 <= k < ts.len() ==> stores_portfolio(ps, (#[trigger] ts[k]).portfolio_id@),
    ensures
        forall|k: int|
            0 <= k < ts.filter(not_of_portfolio(id)).len() ==> stores_portfolio(
                ps.filter(other_portfolio(id)),
                (#[trigger] ts.filter(not_of_portfolio(id))[k]).portfolio_id@,
            ),
{
    broadcast use vstd::seq_lib::group_filter_ensures;

    let kept = ts.filter(not_of_portfolio(id));
    let rest = ps.filter(other_portfolio(id));
    assert forall|k: int| 0 <= k < kept.len() implies stores_portfolio(rest, (#[trigger] kept[k]).portfolio_id@) by {
        let t = kept[k];
        assert(kept.contains(t));
        ts.lemma_filter_contains_rev(not_of_portfolio(id), t);
        let i = choose|i: int| 0 <= i < ts.len() && ts[i] == t;
        assert(stores_portfolio(ps, ts[i].portfolio_id@));
        let j = choose|j: int| 0 <= j < ps.len() && ps[j].id@ == t.portfolio_id@;
        assert(other_portfolio(id)(ps[j]));
        ps.lemma_filter_contains(other_portfolio(id), j);
        let m = choose|m: int| 0 <= m < rest.len() && rest[m] == ps[j];
        assert(rest[m].id@ == t.portfolio_id@);
    }
}

/// Deleting a portfolio that is not stored deletes nothing.
proof fn lemma_delete_of_unknown(ps: Seq<Portfolio>, ts: Seq<Transaction>, id: Seq<char>)
    requires
        forall|k: int| 0 <= k < ts.len() ==> stores_portfolio(ps, (#[trigger] ts[k]).portfolio_id@),
        !stores_portfolio(ps, id),
    ensures
        ts.filter(not_of_portfolio(id)) == ts,
        ps.filter(other_portfolio(id)) == ps,
{
    assert forall|k: int| 0 <= k < ts.len() implies (not_of_portfolio(id))(#[trigger] ts[k]) by {
        assert(stores_portfolio(ps, ts[k].portfolio_id@));
    }
    lemma_filter_keeps_all(ts, not_of_portfolio(id));
    assert forall|k: int| 0 <= k < ps.len() implies (other_portfolio(id))(#[trigger] ps[k]) by {
        if ps[k].id@ == id {
            assert(stores_portfolio(ps, id));
        }
    }
    lemma_filter_keeps_all(ps, other_portfolio(id));
}

fn with_portfolio(rows: &Vec<Portfolio>, p: Portfolio) -> (r: Vec<Portfolio>)
    ensures
        r@ == rows@.push(p),
{
    let mut out: Vec<Portfolio> = Vec::new();
    let n = rows.len();
    let mut k: usize = 0;
    while k < n
        invariant
            n == rows@.len(),
            k <= n,
            out@ == rows@.take(k as int),
        decreases n - k,
    {
        out.push(rows[k].duplicate());
        assert(out@ =~= rows@.take(k + 1));
        k = k + 1;
    }
    assert(rows@.take(n as int) =~= rows@);
    out.push(p);
    out
}

impl Database {
    #[verifier::type_invariant]
    spec fn well_formed(self) -> bool {
        &&& forall|k: int| 0 <= k < self.transactions@.len() ==> (#[trigger] self.transactions@[k]).wf()
        &&& forall|k: int|
            0 <= k < self.transactions@.len() ==> stores_portfolio(
                self.portfolios@,
                (#[trigger] self.transactions@[k]).portfolio_id@,
            )
    }

    /// Empty tables.
    pub fn new() -> (db: Database)
        ensures
            db@.portfolios.len() == 0,
            db@.transactions.len() == 0,
    {
        Database { portfolios: Vec::new(), transactions: Vec::new() }
    }

    /// The portfolio with that identifier, if one is stored.
    pub fn get_portfolio_by_id(&self, id: &str) -> (r: Option<Portfolio>)
        ensures
            r == portfolio_with_id(self@.portfolios, id@),
    {
        let n = self.portfolios.len();
        let mut i: usize = 0;
        assert(self.portfolios@.skip(0) =~= self.portfolios@);
        while i < n
            invariant
                n == self.portfolios@.len(),
                i <= n,
                portfolio_with_id(self.portfolios@, id@) == portfolio_with_id(self.portfolios@.skip(i as int), id@),
            decreases n - i,
        {
            assert(self.portfolios@.skip(i as int)[0] == self.portfolios@[i as int]);
            assert(self.portfolios@.skip(i as int).drop_first() =~= self.portfolios@.skip(i + 1));
            if text_equal(self.portfolios[i].id.as_str(), id) {
                return Some(self.portfolios[i].duplicate());
            }
            i = i + 1;
        }
        None
    }

    /// The transaction with that identifier, if one is stored.
    pub fn get_transaction_by_id(&self, id: &str) -> (r: Option<Transaction>)
        ensures
            r == transaction_with_id(self@.transactions, id@),
    {
        let n = self.transactions.len();
        let mut i: usize = 0;
        assert(self.transactions@.skip(0) =~= self.transactions@);
        while i < n
            invariant
                n == self.transactions@.len(),
                i <= n,
                transaction_with_id(self.transactions@, id@) == transaction_with_id(
                    self.transactions@.skip(i as int),
                    id@,
                ),
            decreases n - i,
        {
            assert(self.transactions@.skip(i as int)[0] == self.transactions@[i as int]);
            assert(self.transactions@.skip(i as int).drop_first() =~= self.transactions@.skip(i + 1));
            if text_equal(self.transactions[i].id.as_str(), id) {
                return Some(self.transactions[i].duplicate());
            }
            i = i + 1;
        }
        None
    }

    /// All portfolios in order of creation, those created at the same time
    /// in the order stored.
    pub fn get_all_portfolios(&self) -> (r: Vec<Portfolio>)
        ensures
            r@ == stable_order(self@.portfolios, by_creation()),
    {
        let n = self.portfolios.len();
        let mut out: Vec<Portfolio> = Vec::new();
        let mut k: usize = 0;
        while k < n
            invariant
                n == self.portfolios@.len(),
                k <= n,
                out@ == stable_order(self.portfolios@.take(k as int), by_creation()),
            decreases n - k,
        {
            let row = self.portfolios[k].duplicate();
            let mut j = out.len();
            while j > 0 && !text_less_eq(out[j - 1].created_at.as_str(), row.created_at.as_str())
                invariant
                    j <= out@.len(),
                    forall|q: int| j <= q < out@.len() ==> !(by_creation())(#[trigger] out@[q], row),
                decreases j,
            {
                j = j - 1;
            }
            proof {
                lemma_insert_stable_at(out@, row, by_creation(), j as int);
                assert(self.portfolios@.take(k + 1).drop_last() =~= self.portfolios@.take(k as int));
            }
            let ghost before = out@;
            out.insert(j, row);
            assert(out@ =~= before.take(j as int).push(row) + before.skip(j as int));
            k = k + 1;
        }
        assert(self.portfolios@.take(n as int) =~= self.portfolios@);
        out
    }

    /// The transactions of a portfolio, newest first, those of one date in
    /// the order stored.
    pub fn get_transactions(&self, portfolio_id: &str) -> (r: Vec<Transaction>)
        ensures
            r@ == listed_transactions(self@.transactions, portfolio_id@),
            forall|k: int| 0 <= k < r@.len() ==> (#[trigger] r@[k]).wf(),
    {
        proof {
            use_type_invariant(self);
        }
        let n = self.transactions.len();
        let mut out: Vec<Transaction> = Vec::new();
        let mut k: usize = 0;
        while k < n
            invariant
                n == self.transactions@.len(),
                k <= n,
                out@ == stable_order(self.transactions@.take(k as int).filter(of_portfolio(portfolio_id@)), newest_first()),
                forall|q: int| 0 <= q < self.transactions@.len() ==> (#[trigger] self.transactions@[q]).wf(),
                forall|q: int| 0 <= q < out@.len() ==> (#[trigger] out@[q]).wf(),
            decreases n - k,
        {
            proof {
                reveal_with_fuel(Seq::filter, 1);
                assert(self.transactions@.take(k + 1).drop_last() =~= self.transactions@.take(k as int));
            }
            if text_equal(self.transactions[k].portfolio_id.as_str(), portfolio_id) {
                let row = self.transactions[k].duplicate();
                let mut j = out.len();
                while j > 0 && !text_less_eq(row.date.as_str(), out[j - 1].date.as_str())
                    invariant
                        j <= out@.len(),
                        forall|q: int| j <= q < out@.len() ==> !(newest_first())(#[trigger] out@[q], row),
                    decreases j,
                {
                    j = j - 1;
                }
                proof {
                    lemma_insert_stable_at(out@, row, newest_first(), j as int);
                    let prev = self.transactions@.take(k as int).filter(of_portfolio(portfolio_id@));
                    assert(self.transactions@.take(k + 1).filter(of_portfolio(portfolio_id@)) =~= prev.push(row));
                    assert(prev.push(row).drop_last() =~= prev);
                }
                let ghost before = out@;
                out.insert(j, row);
                assert(out@ =~= before.take(j as int).push(row) + before.skip(j as int));
                assert forall|q: int| 0 <= q < out@.len() implies (#[trigger] out@[q]).wf() by {
                    if q < j {
                        assert(out@[q] == before[q]);
                    } else if q > j {
                        assert(out@[q] == before[q - 1]);
                    }
                }
            } else {
                proof {
                    assert(self.transactions@.take(k + 1).filter(of_portfolio(portfolio_id@)) =~= self.transactions@.take(
                        k as int,
                    ).filter(of_portfolio(portfolio_id@)));
                }
            }
            k = k + 1;
        }
        assert(self.transactions@.take(n as int) =~= self.transactions@);
        out
    }

    /// Stores a portfolio row, unless one with the same identifier is
    /// stored already.
    pub fn insert_portfolio(&mut self, p: Portfolio) -> (r: Result<(), StoreError>)
        ensures
            portfolio_with_id(old(self)@.portfolios, p.id@) is Some ==> r == Err::<(), StoreError>(
                StoreError::DuplicateId,
            ) && final(self)@ == old(self)@,
            portfolio_with_id(old(self)@.portfolios, p.id@) is None ==> r is Ok && final(self)@.portfolios
                == old(self)@.portfolios.push(p) && final(self)@.transactions == old(self)@.transactions,
    {
        if self.get_portfolio_by_id(p.id.as_str()).is_some() {
            return Err(StoreError::DuplicateId);
        }
        proof {
            use_type_invariant(&*self);
        }
        let rows = with_portfolio(&self.portfolios, p);
        proof {
            assert forall|k: int| 0 <= k < self.transactions@.len() implies stores_portfolio(
                rows@,
                (#[trigger] self.transactions@[k]).portfolio_id@,
            ) by {
                let j = choose|j: int|
                    0 <= j < self.portfolios@.len() && self.portfolios@[j].id@ == self.transactions@[k].portfolio_id@;
                assert(rows@[j] == self.portfolios@[j]);
            }
        }
        self.portfolios = rows;
        Ok(())
    }

    /// Stores a new portfolio with a fresh identifier, created now, in the
    /// base currency, and returns its identifier.
    pub fn add_portfolio(&mut self, name: &str, target_alloc: &str) -> (r: Result<String, StoreError>)
        ensures
            r is Err ==> r == Err::<String, StoreError>(StoreError::DuplicateId) && final(self)@ == old(self)@,
            r is Err ==> exists|k: int|
                0 <= k < old(self)@.portfolios.len() && is_record_id(#[trigger] old(self)@.portfolios[k].id@),
            old(self)@.portfolios.len() == 0 ==> r is Ok,
            r matches Ok(id) ==> {
                &&& is_record_id(id@)
                &&& final(self)@.transactions == old(self)@.transactions
                &&& final(self)@.portfolios.len() == old(self)@.portfolios.len() + 1
                &&& final(self)@.portfolios.drop_last() == old(self)@.portfolios
                &&& final(self)@.portfolios.last().id@ == id@
                &&& final(self)@.portfolios.last().name@ == name@
                &&& final(self)@.portfolios.last().target_allocations@ == target_alloc@
                &&& final(self)@.portfolios.last().base_currency@ == BASE_CURRENCY@
                &&& final(self)@.portfolios.last().created_at@ == final(self)@.portfolios.last().updated_at@
                &&& portfolio_with_id(old(self)@.portfolios, id@) is None
            },
    {
        let p = Portfolio::create(name, target_alloc);
        let id = p.id.clone();
        match self.insert_portfolio(p) {
            Ok(()) => {
                assert(self@.portfolios.drop_last() =~= old(self)@.portfolios);
                Ok(id)
            },
            Err(e) => {
                proof {
                    lemma_portfolio_found(old(self)@.portfolios, id@);
                    let k = choose|k: int|
                        0 <= k < old(self)@.portfolios.len() && old(self)@.portfolios[k].id@ == id@;
                    assert(is_record_id(old(self)@.portfolios[k].id@));
                }
                Err(e)
            },
        }
    }

    /// Renames every portfolio row with that identifier and gives it new
    /// target allocations; it is updated at `now`.
    pub fn update_portfolio_at(&mut self, id: &str, name: &str, target_alloc: &str, now: &str)
        ensures
            final(self)@.transactions == old(self)@.transactions,
            final(self)@.portfolios.len() == old(self)@.portfolios.len(),
            forall|k: int|
                0 <= k < old(self)@.portfolios.len() ==> if (#[trigger] old(self)@.portfolios[k]).id@ == id@ {
                    &&& revised_portfolio(old(self)@.portfolios[k], final(self)@.portfolios[k], name@, target_alloc@)
                    &&& final(self)@.portfolios[k].updated_at@ == now@
                } else {
                    final(self)@.portfolios[k] == old(self)@.portfolios[k]
                },
    {
        let n = self.portfolios.len();
        let mut out: Vec<Portfolio> = Vec::new();
        let mut k: usize = 0;
        while k < n
            invariant
                n == self.portfolios@.len(),
                self@ == old(self)@,
                k <= n,
                out@.len() == k,
                forall|q: int|
                    0 <= q < k ==> if (#[trigger] self.portfolios@[q]).id@ == id@ {
                        &&& revised_portfolio(self.portfolios@[q], out@[q], name@, target_alloc@)
                        &&& out@[q].updated_at@ == now@
                    } else {
                        out@[q] == self.portfolios@[q]
                    },
            decreases n - k,
        {
            let mut row = self.portfolios[k].duplicate();
            if text_equal(row.id.as_str(), id) {
                row.revise_at(name, target_alloc, now.to_owned());
            }
            out.push(row);
            k = k + 1;
        }
        proof {
            use_type_invariant(&*self);
            assert forall|t: int| 0 <= t < self.transactions@.len() implies stores_portfolio(
                out@,
                (#[trigger] self.transactions@[t]).portfolio_id@,
            ) by {
                let j = choose|j: int|
                    0 <= j < self.portfolios@.len() && self.portfolios@[j].id@ == self.transactions@[t].portfolio_id@;
                assert(out@[j].id == self.portfolios@[j].id);
            }
        }
        self.portfolios = out;
    }

    /// Renames every portfolio row with that identifier and gives it new
    /// target allocations; it is updated now.
    pub fn update_portfolio(&mut self, id: &str, name: &str, target_alloc: &str)
        ensures
            final(self)@.transactions == old(self)@.transactions,
            final(self)@.portfolios.len() == old(self)@.portfolios.len(),
            forall|k: int|
                0 <= k < old(self)@.portfolios.len() ==> if (#[trigger] old(self)@.portfolios[k]).id@ == id@ {
                    revised_portfolio(old(self)@.portfolios[k], final(self)@.portfolios[k], name@, target_alloc@)
                } else {
                    final(self)@.portfolios[k] == old(self)@.portfolios[k]
                },
    {
        let now = now_rfc3339();
        self.update_portfolio_at(id, name, target_alloc, now.as_str());
    }

    /// Deletes the portfolio rows with that identifier and, first, the
    /// transactions that belong to it.
    pub fn delete_portfolio(&mut self, id: &str)
        ensures
            final(self)@.transactions == old(self)@.transactions.filter(not_of_portfolio(id@)),
            final(self)@.portfolios == old(self)@.portfolios.filter(other_portfolio(id@)),
            !stores_portfolio(old(self)@.portfolios, id@) ==> final(self)@ == old(self)@,
    {
        proof {
            use_type_invariant(&*self);
        }
        let n = self.transactions.len();
        let mut kept: Vec<Transaction> = Vec::new();
        let mut k: usize = 0;
        while k < n
            invariant
                n == self.transactions@.len(),
                self@ == old(self)@,
                k <= n,
                kept@ == self.transactions@.take(k as int).filter(not_of_portfolio(id@)),
                forall|q: int| 0 <= q < self.transactions@.len() ==> (#[trigger] self.transactions@[q]).wf(),
                forall|q: int| 0 <= q < kept@.len() ==> (#[trigger] kept@[q]).wf(),
            decreases n - k,
        {
            proof {
                reveal_with_fuel(Seq::filter, 1);
                assert(self.transactions@.take(k + 1).drop_last() =~= self.transactions@.take(k as int));
            }
            if !text_equal(self.transactions[k].portfolio_id.as_str(), id) {
                kept.push(self.transactions[k].duplicate());
            }
            k = k + 1;
        }
        assert(self.transactions@.take(n as int) =~= self.transactions@);
        let m = self.portfolios.len();
        let mut rest: Vec<Portfolio> = Vec::new();
        let mut k: usize = 0;
        while k < m
            invariant
                m == self.portfolios@.len(),
                self@ == old(self)@,
                k <= m,
                rest@ == self.portfolios@.take(k as int).filter(other_portfolio(id@)),
            decreases m - k,
        {
            proof {
                reveal_with_fuel(Seq::filter, 1);
                assert(self.portfolios@.take(k + 1).drop_last() =~= self.portfolios@.take(k as int));
            }
            if !text_equal(self.portfolios[k].id.as_str(), id) {
                rest.push(self.portfolios[k].duplicate());
            }
            k = k + 1;
        }
        assert(self.portfolios@.take(m as int) =~= self.portfolios@);
        proof {
            use_type_invariant(&*self);
            lemma_links_survive_delete(self.portfolios@, self.transactions@, id@);
            if !stores_portfolio(self.portfolios@, id@) {
                lemma_delete_of_unknown(self.portfolios@, self.transactions@, id@);
            }
        }
        *self = Database { portfolios: rest, transactions: kept };
    }

    /// Stores a transaction row, unless one with the same identifier is
    /// stored already or its portfolio is not stored.
    pub fn insert_transaction(&mut self, t: Transaction) -> (r: Result<(), StoreError>)
        requires
            t.wf(),
        ensures
            transaction_with_id(old(self)@.transactions, t.id@) is Some ==> r == Err::<(), StoreError>(
                StoreError::DuplicateId,
            ),
            transaction_with_id(old(self)@.transactions, t.id@) is None && portfolio_with_id(
                old(self)@.portfolios,
                t.portfolio_id@,
            ) is None ==> r == Err::<(), StoreError>(StoreError::UnknownPortfolio),
            r is Err ==> final(self)@ == old(self)@,
            r is Ok ==> final(self)@.transactions == old(self)@.transactions.push(t) && final(self)@.portfolios
                == old(self)@.portfolios,
            r is Ok <==> transaction_with_id(old(self)@.transactions, t.id@) is None && portfolio_with_id(
                old(self)@.portfolios,
                t.portfolio_id@,
            ) is Some,
    {
        if self.get_transaction_by_id(t.id.as_str()).is_some() {
            return Err(StoreError::DuplicateId);
        }
        if self.get_portfolio_by_id(t.portfolio_id.as_str()).is_none() {
            return Err(StoreError::UnknownPortfolio);
        }
        proof {
            use_type_invariant(&*self);
            lemma_portfolio_found(self.portfolios@, t.portfolio_id@);
        }
        let mut rows: Vec<Transaction> = Vec::new();
        std::mem::swap(&mut rows, &mut self.transactions);
        rows.push(t);
        self.transactions = rows;
        Ok(())
    }

    /// Stores a new transaction with a fresh identifier, created now, in a
    /// stored portfolio, and returns its identifier.
    pub fn add_transaction(
        &mut self,
        portfolio_id: &str,
        symbol: &str,
        name: Option<&str>,
        date: &str,
        price: Amount,
        shares: Amount,
        fee: Amount,
        t_type: &str,
        currency: &str,
    ) -> (r: Result<String, StoreError>)
        requires
            price.wf(),
            shares.wf(),
            fee.wf(),
        ensures
            r == Err::<String, StoreError>(StoreError::UnknownPortfolio) <==> portfolio_with_id(
                old(self)@.portfolios,
                portfolio_id@,
            ) is None,
            r is Err ==> r == Err::<String, StoreError>(StoreError::UnknownPortfolio) || exists|k: int|
                0 <= k < old(self)@.transactions.len() && is_record_id(#[trigger] old(self)@.transactions[k].id@),
            r is Err ==> final(self)@ == old(self)@,
            r matches Ok(id) ==> {
                let t = final(self)@.transactions.last();
                &&& is_record_id(id@)
                &&& final(self)@.portfolios == old(self)@.portfolios
                &&& final(self)@.transactions.drop_last() == old(self)@.transactions
                &&& final(self)@.transactions.len() == old(self)@.transactions.len() + 1
                &&& t.id@ == id@
                &&& t.portfolio_id@ == portfolio_id@
                &&& t.symbol@ == symbol@
                &&& (name matches Some(n) ==> t.name matches Some(m) && m@ == n@)
                &&& (name is None ==> t.name is None)
                &&& t.date@ == date@
                &&& t.price == price
                &&& t.shares == shares
                &&& t.fee == fee
                &&& t.transaction_type@ == t_type@
                &&& t.currency@ == currency@
                &&& transaction_with_id(old(self)@.transactions, id@) is None
            },
    {
        if self.get_portfolio_by_id(portfolio_id).is_none() {
            return Err(StoreError::UnknownPortfolio);
        }
        let t = Transaction::create(portfolio_id, symbol, name, date, price, shares, fee, t_type, currency);
        let id = t.id.clone();
        match self.insert_transaction(t) {
            Ok(()) => {
                assert(self@.transactions.drop_last() =~= old(self)@.transactions);
                Ok(id)
            },
            Err(e) => {
                proof {
                    lemma_transaction_found(old(self)@.transactions, id@);
                    let k = choose|k: int|
                        0 <= k < old(self)@.transactions.len() && old(self)@.transactions[k].id@ == id@;
                    assert(is_record_id(old(self)@.transactions[k].id@));
                }
                Err(e)
            },
        }
    }

    /// Replaces everything but the identifier, the portfolio and the
    /// creation time of every transaction row with that identifier.
    pub fn update_transaction(
        &mut self,
        id: &str,
        symbol: &str,
        name: Option<&str>,
        date: &str,
        price: Amount,
        shares: Amount,
        fee: Amount,
        t_type: &str,
        currency: &str,
    )
        requires
            price.wf(),
            shares.wf(),
            fee.wf(),
        ensures
            final(self)@.portfolios == old(self)@.portfolios,
            final(self)@.transactions.len() == old(self)@.transactions.len(),
            forall|k: int|
                0 <= k < old(self)@.transactions.len() ==> if (#[trigger] old(self)@.transactions[k]).id@ == id@ {
                    let (b, a) = (old(self)@.transactions[k], final(self)@.transactions[k]);
                    &&& a.id == b.id
                    &&& a.portfolio_id == b.portfolio_id
                    &&& a.created_at == b.created_at
                    &&& a.symbol@ == symbol@
                    &&& (name matches Some(n) ==> a.name matches Some(m) && m@ == n@)
                    &&& (name is None ==> a.name is None)
                    &&& a.date@ == date@
                    &&& a.price == price
                    &&& a.shares == shares
                    &&& a.fee == fee
                    &&& a.transaction_type@ == t_type@
                    &&& a.currency@ == currency@
                } else {
                    final(self)@.transactions[k] == old(self)@.transactions[k]
                },
    {
        proof {
            use_type_invariant(&*self);
        }
        let n = self.transactions.len();
        let mut out: Vec<Transaction> = Vec::new();
        let mut k: usize = 0;
        while k < n
            invariant
                n == self.transactions@.len(),
                self@ == old(self)@,
                k <= n,
                out@.len() == k,
                price.wf(),
                shares.wf(),
                fee.wf(),
                forall|q: int| 0 <= q < self.transactions@.len() ==> (#[trigger] self.transactions@[q]).wf(),
                forall|q: int| 0 <= q < out@.len() ==> (#[trigger] out@[q]).wf(),
                forall|q: int|
                    0 <= q < k ==> if (#[trigger] self.transactions@[q]).id@ == id@ {
                        let (b, a) = (self.transactions@[q], out@[q]);
                        &&& a.id == b.id
                        &&& a.portfolio_id == b.portfolio_id
                        &&& a.created_at == b.created_at
                        &&& a.symbol@ == symbol@
                        &&& (name matches Some(n) ==> a.name matches Some(m) && m@ == n@)
                        &&& (name is None ==> a.name is None)
                        &&& a.date@ == date@
                        &&& a.price == price
                        &&& a.shares == shares
                        &&& a.fee == fee
                        &&& a.transaction_type@ == t_type@
                        &&& a.currency@ == currency@
                    } else {
                        out@[q] == self.transactions@[q]
                    },
            decreases n - k,
        {
            let mut row = self.transactions[k].duplicate();
            if text_equal(row.id.as_str(), id) {
                row.revise(symbol, name, date, price, shares, fee, t_type, currency);
            }
            out.push(row);
            k = k + 1;
        }
        proof {
            use_type_invariant(&*self);
            assert forall|q: int| 0 <= q < out@.len() implies stores_portfolio(
                self.portfolios@,
                (#[trigger] out@[q]).portfolio_id@,
            ) by {
                assert(self.transactions@[q].portfolio_id == out@[q].portfolio_id);
            }
        }
        self.transactions = out;
    }

    /// Deletes the transaction rows with that identifier.
    pub fn delete_transaction(&mut self, id: &str)
        ensures
            final(self)@.transactions == old(self)@.transactions.filter(other_transaction(id@)),
            final(self)@.portfolios == old(self)@.portfolios,
    {
        proof {
            use_type_invariant(&*self);
        }
        let n = self.transactions.len();
        let mut kept: Vec<Transaction> = Vec::new();
        let mut k: usize = 0;
        while k < n
            invariant
                n == self.transactions@.len(),
                self@ == old(self)@,
                k <= n,
                kept@ == self.transactions@.take(k as int).filter(other_transaction(id@)),
                forall|q: int| 0 <= q < self.transactions@.len() ==> (#[trigger] self.transactions@[q]).wf(),
                forall|q: int| 0 <= q < kept@.len() ==> (#[trigger] kept@[q]).wf(),
            decreases n - k,
        {
            proof {
                reveal_with_fuel(Seq::filter, 1);
                assert(self.transactions@.take(k + 1).drop_last() =~= self.transactions@.take(k as int));
            }
            if !text_equal(self.transactions[k].id.as_str(), id) {
                kept.push(self.transactions[k].duplicate());
            }
            k = k + 1;
        }
        assert(self.transactions@.take(n as int) =~= self.transactions@);
        proof {
            use_type_invariant(&*self);
            assert forall|q: int| 0 <= q < kept@.len() implies stores_portfolio(
                self.portfolios@,
                (#[trigger] kept@[q]).portfolio_id@,
            ) by {
                let t = kept@[q];
                assert(kept@.contains(t));
                self.transactions@.lemma_filter_contains_rev(other_transaction(id@), t);
                let i = choose|i: int| 0 <= i < self.transactions@.len() && self.transactions@[i] == t;
                assert(stores_portfolio(self.portfolios@, self.transactions@[i].portfolio_id@));
            }
        }
        self.transactions = kept;
    }

    /// The holdings of a portfolio, from its transactions as they are
    /// listed (see `ledger::calculate_holdings`).
    pub fn calculate_holdings(&self, portfolio_id: &str) -> (r: Result<Vec<Holding>, LedgerError>)
        ensures
            r is Err <==> ledger_overflows(listed_transactions(self@.transactions, portfolio_id@)),
            r matches Ok(hs) ==> holdings_of(listed_transactions(self@.transactions, portfolio_id@), hs@),
            r matches Ok(hs) ==> forall|i: int, k: int|
                #![trigger shares_fit(chronological(listed_transactions(self@.transactions, portfolio_id@)), hs@[i].symbol@, k)]
                0 <= i < hs@.len() && shares_fit(
                    chronological(listed_transactions(self@.transactions, portfolio_id@)),
                    hs@[i].symbol@,
                    k,
                ) ==> at_scale(hs@[i].total_shares, k) == net_shares(
                    self@.transactions.filter(of_portfolio(portfolio_id@)),
                    hs@[i].symbol@,
                    k,
                ),
            r matches Ok(hs) ==> forall|i: int, k: int|
                #![trigger costs_fit(chronological(listed_transactions(self@.transactions, portfolio_id@)), hs@[i].symbol@, k)]
                0 <= i < hs@.len() && costs_fit(
                    chronological(listed_transactions(self@.transactions, portfolio_id@)),
                    hs@[i].symbol@,
                    k,
                ) ==> at_scale(hs@[i].total_cost, k) == bought_cost(
                    chronological(listed_transactions(self@.transactions, portfolio_id@)),
                    hs@[i].symbol@,
                    k,
                ),
            r matches Ok(hs) ==> forall|i: int, k: int|
                #![trigger trades_fit(chronological(listed_transactions(self@.transactions, portfolio_id@)), hs@[i].symbol@, k)]
                0 <= i < hs@.len() && trades_fit(
                    chronological(listed_transactions(self@.transactions, portfolio_id@)),
                    hs@[i].symbol@,
                    k,
                ) ==> at_scale(hs@[i].total_cost, k) == invested_cost(
                    chronological(listed_transactions(self@.transactions, portfolio_id@)),
                    hs@[i].symbol@,
                    k,
                ),
            r matches Ok(hs) ==> forall|i: int, k: int|
                #![trigger gains_fit(chronological(listed_transactions(self@.transactions, portfolio_id@)), hs@[i].symbol@, k)]
                0 <= i < hs@.len() && gains_fit(
                    chronological(listed_transactions(self@.transactions, portfolio_id@)),
                    hs@[i].symbol@,
                    k,
                ) ==> at_scale(hs@[i].realized_gain, k) == realized_sum(
                    chronological(listed_transactions(self@.transactions, portfolio_id@)),
                    hs@[i].symbol@,
                    k,
                ),
    {
        let transactions = self.get_transactions(portfolio_id);
        proof {
            let mine = self@.transactions.filter(of_portfolio(portfolio_id@));
            assert forall|sym: Seq<char>, k: int| #[trigger] net_shares(chronological(stable_order(mine, newest_first())), sym, k)
                == net_shares(mine, sym, k) by {
                lemma_net_shares_any_order(stable_order(mine, newest_first()), by_date(), sym, k);
                lemma_net_shares_any_order(mine, newest_first(), sym, k);
            }
        }
        calculate_holdings(transactions)
    }

    /// The first portfolio in order of creation; when none is stored, a
    /// default portfolio is stored first.
    pub fn get_or_create_default_portfolio(&mut self) -> (r: Result<Portfolio, StoreError>)
        ensures
            old(self)@.portfolios.len() > 0 ==> final(self)@ == old(self)@ && r == Ok::<Portfolio, StoreError>(
                stable_order(old(self)@.portfolios, by_creation())[0],
            ),
            old(self)@.portfolios.len() == 0 ==> r is Ok,
            old(self)@.portfolios.len() == 0 ==> (r matches Ok(p) && final(self)@.portfolios == seq![p]
                && final(self)@.transactions == old(self)@.transactions && p.name@ == DEFAULT_PORTFOLIO_NAME@
                && p.target_allocations@ == DEFAULT_ALLOCATIONS@ && p.base_currency@ == BASE_CURRENCY@),
    {
        let portfolios = self.get_all_portfolios();
        proof {
            lemma_stable_order_keeps(self@.portfolios, by_creation(), |p: Portfolio| true);
        }
        if portfolios.len() > 0 {
            return Ok(portfolios[0].duplicate());
        }
        let p = Portfolio::create_default();
        let kept = p.duplicate();
        match self.insert_portfolio(p) {
            Ok(()) => {
                assert(self@.portfolios =~= seq![kept]);
                Ok(kept)
            },
            Err(e) => Err(e),
        }
    }
}


/// Reading a portfolio right after storing it gives it back.
pub proof fn lemma_portfolio_read_after_insert(rows: Seq<Portfolio>, p: Portfolio)
    requires
        portfolio_with_id(rows, p.id@) is None,
    ensures
        portfolio_with_id(rows.push(p), p.id@) == Some(p),
    decreases rows.len(),
{
    if rows.len() > 0 {
        assert(rows.push(p).drop_first() =~= rows.drop_first().push(p));
        lemma_portfolio_read_after_insert(rows.drop_first(), p);
    }
}

/// Reading a portfolio right after updating it gives the updated row; an
/// identifier that was not stored is still not stored.
pub proof fn lemma_portfolio_read_after_update(
    before: Seq<Portfolio>,
    after: Seq<Portfolio>,
    id: Seq<char>,
    name: Seq<char>,
    allocations: Seq<char>,
)
    requires
        after.len() == before.len(),
        forall|k: int|
            0 <= k < before.len() ==> if (#[trigger] before[k]).id@ == id {
                revised_portfolio(before[k], after[k], name, allocations)
            } else {
                after[k] == before[k]
            },
    ensures
        portfolio_with_id(before, id) is None ==> portfolio_with_id(after, id) is None,
        portfolio_with_id(before, id) is Some ==> portfolio_with_id(after, id) is Some && revised_portfolio(
            portfolio_with_id(before, id)->Some_0,
            portfolio_with_id(after, id)->Some_0,
            name,
            allocations,
        ),
    decreases before.len(),
{
    if before.len() > 0 {
        assert(before[0].id@ == id ==> after[0].id == before[0].id);
        if before[0].id@ != id {
            assert(after[0] == before[0]);
            let (b, a) = (before.drop_first(), after.drop_first());
            assert forall|k: int| 0 <= k < b.len() implies if (#[trigger] b[k]).id@ == id {
                revised_portfolio(b[k], a[k], name, allocations)
            } else {
                a[k] == b[k]
            } by {
                assert(b[k] == before[k + 1]);
                assert(a[k] == after[k + 1]);
            }
            lemma_portfolio_read_after_update(b, a, id, name, allocations);
        }
    }
}

proof fn lemma_no_portfolio_with_id(rows: Seq<Portfolio>, id: Seq<char>)
    requires
        forall|k: int| 0 <= k < rows.len() ==> (#[trigger] rows[k]).id@ != id,
    ensures
        portfolio_with_id(rows, id) is None,
    decreases rows.len(),
{
    if rows.len() > 0 {
        assert(rows[0].id@ != id);
        assert forall|k: int| 0 <= k < rows.drop_first().len() implies (#[trigger] rows.drop_first()[k]).id@ != id by {
            assert(rows.drop_first()[k] == rows[k + 1]);
        }
        lemma_no_portfolio_with_id(rows.drop_first(), id);
    }
}

proof fn lemma_no_transaction_with_id(rows: Seq<Transaction>, id: Seq<char>)
    requires
        forall|k: int| 0 <= k < rows.len() ==> (#[trigger] rows[k]).id@ != id,
    ensures
        transaction_with_id(rows, id) is None,
    decreases rows.len(),
{
    if rows.len() > 0 {
        assert(rows[0].id@ != id);
        assert forall|k: int| 0 <= k < rows.drop_first().len() implies (#[trigger] rows.drop_first()[k]).id@ != id by {
            assert(rows.drop_first()[k] == rows[k + 1]);
        }
        lemma_no_transaction_with_id(rows.drop_first(), id);
    }
}

/// A deleted portfolio can no longer be read.
pub proof fn lemma_portfolio_gone_after_delete(rows: Seq<Portfolio>, id: Seq<char>)
    ensures
        portfolio_with_id(rows.filter(other_portfolio(id)), id) is None,
{
    broadcast use vstd::seq_lib::group_filter_ensures;

    let kept = rows.filter(other_portfolio(id));
    assert forall|k: int| 0 <= k < kept.len() implies (#[trigger] kept[k]).id@ != id by {
        assert((other_portfolio(id))(kept[k]));
    }
    lemma_no_portfolio_with_id(kept, id);
}

/// Deleting a portfolio leaves it no transactions.
pub proof fn lemma_no_transactions_after_portfolio_delete(rows: Seq<Transaction>, id: Seq<char>)
    ensures
        listed_transactions(rows.filter(not_of_portfolio(id)), id).len() == 0,
{
    broadcast use vstd::seq_lib::group_filter_ensures;

    let both = rows.filter(not_of_portfolio(id)).filter(of_portfolio(id));
    if both.len() > 0 {
        assert((of_portfolio(id))(both[0]));
        let kept = rows.filter(not_of_portfolio(id));
        assert(both.contains(both[0]));
        kept.lemma_filter_contains_rev(of_portfolio(id), both[0]);
        assert(kept.contains(both[0]));
        let k = choose|k: int| 0 <= k < kept.len() && kept[k] == both[0];
        assert((not_of_portfolio(id))(kept[k]));
    }
    lemma_stable_order_keeps(both, newest_first(), |t: Transaction| true);
}

/// Reading a transaction right after storing it gives it back.
pub proof fn lemma_transaction_read_after_insert(rows: Seq<Transaction>, t: Transaction)
    requires
        transaction_with_id(rows, t.id@) is None,
    ensures
        transaction_with_id(rows.push(t), t.id@) == Some(t),
    decreases rows.len(),
{
    if rows.len() > 0 {
        assert(rows.push(t).drop_first() =~= rows.drop_first().push(t));
        lemma_transaction_read_after_insert(rows.drop_first(), t);
    }
}

/// A deleted transaction can no longer be read.
pub proof fn lemma_transaction_gone_after_delete(rows: Seq<Transaction>, id: Seq<char>)
    ensures
        transaction_with_id(rows.filter(other_transaction(id)), id) is None,
{
    broadcast use vstd::seq_lib::group_filter_ensures;

    let kept = rows.filter(other_transaction(id));
    assert forall|k: int| 0 <= k < kept.len() implies (#[trigger] kept[k]).id@ != id by {
        assert((other_transaction(id))(kept[k]));
    }
    lemma_no_transaction_with_id(kept, id);
}

/// The transactions of a portfolio are listed newest first, and they are
/// exactly the stored transactions of that portfolio.
pub proof fn lemma_listing_is_complete_and_newest_first(rows: Seq<Transaction>, portfolio_id: Seq<char>)
    ensures
        in_order(listed_transactions(rows, portfolio_id), newest_first()),
        listed_transactions(rows, portfolio_id).to_multiset() == rows.filter(of_portfolio(portfolio_id)).to_multiset(),
{
    assert forall|a: Transaction, b: Transaction| #[trigger] (newest_first())(a, b) || #[trigger] (newest_first())(b, a) by {
        crate::text::lemma_text_le_total_order(a.date@, b.date@, a.date@);
    }
    assert forall|a: Transaction, b: Transaction, c: Transaction|
        #[trigger] (newest_first())(a, b) && #[trigger] (newest_first())(b, c) implies (newest_first())(a, c) by {
        crate::text::lemma_text_le_total_order(c.date@, b.date@, a.date@);
    }
    lemma_stable_order_sorted_permutation(rows.filter(of_portfolio(portfolio_id)), newest_first());
}

/// Portfolios are listed in order of creation, every stored one exactly
/// once per row.
pub proof fn lemma_portfolio_listing_in_creation_order(rows: Seq<Portfolio>)
    ensures
        in_order(stable_order(rows, by_creation()), by_creation()),
        stable_order(rows, by_creation()).to_multiset() == rows.to_multiset(),
{
    assert forall|a: Portfolio, b: Portfolio| #[trigger] (by_creation())(a, b) || #[trigger] (by_creation())(b, a) by {
        crate::text::lemma_text_le_total_order(a.created_at@, b.created_at@, a.created_at@);
    }
    assert forall|a: Portfolio, b: Portfolio, c: Portfolio|
        #[trigger] (by_creation())(a, b) && #[trigger] (by_creation())(b, c) implies (by_creation())(a, c) by {
        crate::text::lemma_text_le_total_order(a.created_at@, b.created_at@, c.created_at@);
    }
    lemma_stable_order_sorted_permutation(rows, by_creation());
}

/// Newest first orders transactions totally and consistently.
pub proof fn lemma_newest_first_total_preorder()
    ensures
        total_preorder(newest_first()),
{
    assert forall|a: Transaction, b: Transaction| #[trigger] (newest_first())(a, b) || #[trigger] (newest_first())(b, a) by {
        crate::text::lemma_text_le_total_order(a.date@, b.date@, a.date@);
    }
    assert forall|a: Transaction, b: Transaction, c: Transaction|
        #[trigger] (newest_first())(a, b) && #[trigger] (newest_first())(b, c) implies (newest_first())(a, c) by {
        crate::text::lemma_text_le_total_order(c.date@, b.date@, a.date@);
    }
}

/// The position in a symbol, from the transactions of a portfolio as they
/// are listed, depends on that portfolio's transactions in that symbol
/// alone, in the order they are stored.
proof fn lemma_listed_position(rows: Seq<Transaction>, portfolio_id: Seq<char>, symbol: Seq<char>)
    ensures
        chronological(listed_transactions(rows, portfolio_id)).filter(of_symbol(symbol)) == stable_order(
            stable_order(rows.filter(of_portfolio(portfolio_id)).filter(of_symbol(symbol)), newest_first()),
            by_date(),
        ),
        position(chronological(listed_transactions(rows, portfolio_id)), symbol) == position(
            stable_order(
                stable_order(rows.filter(of_portfolio(portfolio_id)).filter(of_symbol(symbol)), newest_first()),
                by_date(),
            ),
            symbol,
        ),
{
    let listed = listed_transactions(rows, portfolio_id);
    lemma_by_date_total_preorder();
    lemma_newest_first_total_preorder();
    lemma_position_of_symbol_alone(chronological(listed), symbol);
    lemma_stable_order_filter(listed, by_date(), of_symbol(symbol));
    lemma_stable_order_filter(rows.filter(of_portfolio(portfolio_id)), newest_first(), of_symbol(symbol));
}

/// A portfolio's holding in a symbol depends on that portfolio's
/// transactions in that symbol alone: two states of the tables that store
/// the same such transactions, in the same order, list the symbol alike,
/// whatever other transactions they hold.
pub proof fn lemma_holding_depends_on_own_transactions(
    rows1: Seq<Transaction>,
    rows2: Seq<Transaction>,
    portfolio_id: Seq<char>,
    symbol: Seq<char>,
    hs1: Seq<Holding>,
    hs2: Seq<Holding>,
)
    requires
        rows1.filter(of_portfolio(portfolio_id)).filter(of_symbol(symbol)) == rows2.filter(
            of_portfolio(portfolio_id),
        ).filter(of_symbol(symbol)),
        holdings_of(listed_transactions(rows1, portfolio_id), hs1),
        holdings_of(listed_transactions(rows2, portfolio_id), hs2),
    ensures
        lists_symbol(hs1, symbol) <==> lists_symbol(hs2, symbol),
        forall|i: int, j: int|
            0 <= i < hs1.len() && 0 <= j < hs2.len() && hs1[i].symbol@ == symbol && hs2[j].symbol@ == symbol
                ==> hs1[i] == hs2[j],
{
    lemma_listed_position(rows1, portfolio_id, symbol);
    lemma_listed_position(rows2, portfolio_id, symbol);
    lemma_holdings_agree(listed_transactions(rows1, portfolio_id), listed_transactions(rows2, portfolio_id), symbol, hs1, hs2);
}

/// Holdings from two transaction lists in which a symbol's position is the
/// same list the symbol alike.
proof fn lemma_holdings_agree(l1: Seq<Transaction>, l2: Seq<Transaction>, symbol: Seq<char>, hs1: Seq<Holding>, hs2: Seq<Holding>)
    requires
        holdings_of(l1, hs1),
        holdings_of(l2, hs2),
        position(chronological(l1), symbol) == position(chronological(l2), symbol),
    ensures
        lists_symbol(hs1, symbol) <==> lists_symbol(hs2, symbol),
        forall|i: int, j: int|
            0 <= i < hs1.len() && 0 <= j < hs2.len() && hs1[i].symbol@ == symbol && hs2[j].symbol@ == symbol
                ==> hs1[i] == hs2[j],
{
    let c1 = chronological(l1);
    let c2 = chronological(l2);
    lemma_position_has_symbol(c1, symbol);
    lemma_position_has_symbol(c2, symbol);
    if lists_symbol(hs1, symbol) {
        let a = choose|a: int| 0 <= a < hs1.len() && hs1[a].symbol@ == symbol;
        assert(position(c1, hs1[a].symbol@) == Some(Some(hs1[a])));
        let k = choose|k: int| 0 <= k < c2.len() && c2[k].symbol@ == symbol;
        assert(position(c2, c2[k].symbol@) == Some(Some(hs1[a])));
    }
    if lists_symbol(hs2, symbol) {
        let b = choose|b: int| 0 <= b < hs2.len() && hs2[b].symbol@ == symbol;
        assert(position(c2, hs2[b].symbol@) == Some(Some(hs2[b])));
        let k = choose|k: int| 0 <= k < c1.len() && c1[k].symbol@ == symbol;
        assert(position(c1, c1[k].symbol@) == Some(Some(hs2[b])));
    }
    assert forall|i: int, j: int|
        0 <= i < hs1.len() && 0 <= j < hs2.len() && hs1[i].symbol@ == symbol && hs2[j].symbol@ == symbol implies hs1[i]
        == hs2[j] by {
        assert(position(c1, hs1[i].symbol@) == Some(Some(hs1[i])));
        assert(position(c2, hs2[j].symbol@) == Some(Some(hs2[j])));
    }
}

/// Where no two of a portfolio's transactions in a symbol share a date, the
/// order in which they are stored does not matter either: two states of the
/// tables that store the same such transactions, in any order, list the
/// symbol alike, whatever other transactions they hold.
pub proof fn lemma_holding_depends_on_own_transactions_in_any_order(
    rows1: Seq<Transaction>,
    rows2: Seq<Transaction>,
    portfolio_id: Seq<char>,
    symbol: Seq<char>,
    hs1: Seq<Holding>,
    hs2: Seq<Holding>,
)
    requires
        rows1.filter(of_portfolio(portfolio_id)).filter(of_symbol(symbol)).to_multiset() == rows2.filter(
            of_portfolio(portfolio_id),
        ).filter(of_symbol(symbol)).to_multiset(),
        forall|i: int, j: int|
            0 <= i < j < rows1.filter(of_portfolio(portfolio_id)).filter(of_symbol(symbol)).len() ==> (
            #[trigger] rows1.filter(of_portfolio(portfolio_id)).filter(of_symbol(symbol))[i]).date@ != (
            #[trigger] rows1.filter(of_portfolio(portfolio_id)).filter(of_symbol(symbol))[j]).date@,
        holdings_of(listed_transactions(rows1, portfolio_id), hs1),
        holdings_of(listed_transactions(rows2, portfolio_id), hs2),
    ensures
        lists_symbol(hs1, symbol) <==> lists_symbol(hs2, symbol),
        forall|i: int, j: int|
            0 <= i < hs1.len() && 0 <= j < hs2.len() && hs1[i].symbol@ == symbol && hs2[j].symbol@ == symbol
                ==> hs1[i] == hs2[j],
{
    broadcast use vstd::seq_lib::group_to_multiset_ensures;

    let mine1 = rows1.filter(of_portfolio(portfolio_id)).filter(of_symbol(symbol));
    let mine2 = rows2.filter(of_portfolio(portfolio_id)).filter(of_symbol(symbol));
    lemma_by_date_total_preorder();
    lemma_newest_first_total_preorder();
    lemma_stable_order_sorted_permutation(mine1, newest_first());
    lemma_stable_order_sorted_permutation(mine2, newest_first());
    let x = stable_order(stable_order(mine1, newest_first()), by_date());
    let y = stable_order(stable_order(mine2, newest_first()), by_date());
    lemma_stable_order_sorted_permutation(stable_order(mine1, newest_first()), by_date());
    lemma_stable_order_sorted_permutation(stable_order(mine2, newest_first()), by_date());
    let m = mine1.to_multiset();
    assert(x.to_multiset() == m);
    assert(y.to_multiset() == m);
    assert forall|a: Transaction, b: Transaction|
        #![trigger x.to_multiset().count(a), x.to_multiset().count(b), (by_date())(a, b)]
        x.to_multiset().count(a) > 0 && x.to_multiset().count(b) > 0 && (by_date())(a, b) && (by_date())(b, a)
            implies a == b by {
        assert(mine1.contains(a));
        assert(mine1.contains(b));
        let i = choose|i: int| 0 <= i < mine1.len() && mine1[i] == a;
        let j = choose|j: int| 0 <= j < mine1.len() && mine1[j] == b;
        crate::text::lemma_text_le_total_order(a.date@, b.date@, a.date@);
        if i < j {
            assert(mine1[i].date@ != mine1[j].date@);
        } else if j < i {
            assert(mine1[j].date@ != mine1[i].date@);
        }
    }
    lemma_in_order_unique(x, y, by_date());
    lemma_listed_position(rows1, portfolio_id, symbol);
    lemma_listed_position(rows2, portfolio_id, symbol);
    lemma_holdings_agree(listed_transactions(rows1, portfolio_id), listed_transactions(rows2, portfolio_id), symbol, hs1, hs2);
}

/// A transaction dated after every transaction of its portfolio in its
/// symbol is the last one applied to that symbol's position: storing it
/// changes the position as applying it to the position before does.
pub proof fn lemma_latest_transaction_applies_last(rows: Seq<Transaction>, portfolio_id: Seq<char>, t: Transaction)
    requires
        t.portfolio_id@ == portfolio_id,
        forall|k: int|
            0 <= k < rows.len() && (#[trigger] rows[k]).portfolio_id@ == portfolio_id && rows[k].symbol@ == t.symbol@
                ==> text_lt(rows[k].date@, t.date@),
    ensures
        position(chronological(listed_transactions(rows.push(t), portfolio_id)), t.symbol@) == position(
            chronological(listed_transactions(rows, portfolio_id)).push(t),
            t.symbol@,
        ),
        chronological(listed_transactions(rows.push(t), portfolio_id)).filter(of_symbol(t.symbol@)) == chronological(
            listed_transactions(rows, portfolio_id),
        ).filter(of_symbol(t.symbol@)).push(t),
{
    broadcast use vstd::seq_lib::group_filter_ensures;
    broadcast use vstd::seq_lib::group_to_multiset_ensures;

    reveal_with_fuel(Seq::filter, 1);
    let symbol = t.symbol@;
    let mine = rows.filter(of_portfolio(portfolio_id)).filter(of_symbol(symbol));
    assert(rows.push(t).drop_last() =~= rows);
    assert(rows.filter(of_portfolio(portfolio_id)).push(t).drop_last() =~= rows.filter(of_portfolio(portfolio_id)));
    assert(rows.push(t).filter(of_portfolio(portfolio_id)).filter(of_symbol(symbol)) == mine.push(t));
    lemma_by_date_total_preorder();
    lemma_newest_first_total_preorder();
    assert forall|k: int| 0 <= k < mine.len() implies text_lt(#[trigger] mine[k].date@, t.date@) by {
        let r = mine[k];
        assert(mine.contains(r));
        rows.filter(of_portfolio(portfolio_id)).lemma_filter_contains_rev(of_symbol(symbol), r);
        rows.lemma_filter_contains_rev(of_portfolio(portfolio_id), r);
        let i = choose|i: int| 0 <= i < rows.len() && rows[i] == r;
        assert(rows[i].portfolio_id@ == portfolio_id && rows[i].symbol@ == symbol);
    }
    assert forall|k: int| 0 <= k < mine.len() implies !(newest_first())(#[trigger] mine[k], t) by {
        crate::text::lemma_text_le_total_order(mine[k].date@, t.date@, t.date@);
    }
    lemma_stable_order_push_first(mine, t, newest_first());
    let recent = stable_order(mine, newest_first());
    lemma_stable_order_sorted_permutation(mine, newest_first());
    assert forall|k: int| 0 <= k < recent.len() implies (by_date())(#[trigger] recent[k], t) && !(by_date())(t, recent[k]) by {
        assert(recent.to_multiset().count(recent[k]) > 0);
        assert(mine.contains(recent[k]));
        let j = choose|j: int| 0 <= j < mine.len() && mine[j] == recent[k];
        assert(text_lt(mine[j].date@, t.date@));
        crate::text::lemma_text_le_total_order(mine[j].date@, t.date@, t.date@);
    }
    lemma_stable_order_prepend_last(recent, t, by_date());
    lemma_listed_position(rows.push(t), portfolio_id, symbol);
    lemma_listed_position(rows, portfolio_id, symbol);
    let before = stable_order(recent, by_date());
    assert(before.push(t).drop_last() =~= before);
    let c0 = chronological(listed_transactions(rows, portfolio_id));
    assert(c0.push(t).drop_last() =~= c0);
}

/// A transaction dated after every transaction of its portfolio in its
/// symbol turns the holding listed before into the one listed after, as
/// applying it does (a sale keeps the average cost, a dividend changes the
/// realized gain alone); where applying it leaves a positive number of
/// shares, the symbol stays listed.
pub proof fn lemma_holding_after_latest_transaction(
    rows: Seq<Transaction>,
    portfolio_id: Seq<char>,
    t: Transaction,
    before: Seq<Holding>,
    after: Seq<Holding>,
)
    requires
        t.portfolio_id@ == portfolio_id,
        forall|k: int|
            0 <= k < rows.len() && (#[trigger] rows[k]).portfolio_id@ == portfolio_id && rows[k].symbol@ == t.symbol@
                ==> text_lt(rows[k].date@, t.date@),
        holdings_of(listed_transactions(rows, portfolio_id), before),
        holdings_of(listed_transactions(rows.push(t), portfolio_id), after),
    ensures
        forall|i: int, j: int|
            0 <= i < before.len() && 0 <= j < after.len() && before[i].symbol@ == t.symbol@ && after[j].symbol@
                == t.symbol@ ==> apply(before[i], t) == Some(after[j]),
        forall|i: int|
            0 <= i < before.len() && before[i].symbol@ == t.symbol@ ==> (apply(before[i], t) matches Some(h)
                && h.total_shares.positive() ==> lists_symbol(after, t.symbol@)),
{
    lemma_latest_transaction_applies_last(rows, portfolio_id, t);
    let c0 = chronological(listed_transactions(rows, portfolio_id));
    let c1 = chronological(listed_transactions(rows.push(t), portfolio_id));
    assert(c0.push(t).drop_last() =~= c0);
    lemma_position_has_symbol(c1, t.symbol@);
    assert forall|i: int, j: int|
        0 <= i < before.len() && 0 <= j < after.len() && before[i].symbol@ == t.symbol@ && after[j].symbol@
            == t.symbol@ implies apply(before[i], t) == Some(after[j]) by {
        assert(position(c0, before[i].symbol@) == Some(Some(before[i])));
        assert(position(c1, after[j].symbol@) == Some(Some(after[j])));
    }
    assert forall|i: int|
        0 <= i < before.len() && before[i].symbol@ == t.symbol@ implies (apply(before[i], t) matches Some(h)
            && h.total_shares.positive() ==> lists_symbol(after, t.symbol@)) by {
        assert(position(c0, before[i].symbol@) == Some(Some(before[i])));
        if let Some(h) = apply(before[i], t) {
            if h.total_shares.positive() {
                assert(position(c1, t.symbol@) == Some(Some(h)));
                let k = choose|k: int| 0 <= k < c1.len() && c1[k].symbol@ == t.symbol@;
                assert(position(c1, c1[k].symbol@) == Some(Some(h)));
            }
        }
    }
}

/// Storing a transaction of a portfolio changes the net shares of its
/// symbol there by the transaction's own shares (added for a purchase,
/// taken away for a sale), whatever its date; with the holdings calculation
/// this gives the shares held after a purchase or sale.
pub proof fn lemma_stored_transaction_moves_shares(rows: Seq<Transaction>, portfolio_id: Seq<char>, t: Transaction, k: int)
    requires
        t.portfolio_id@ == portfolio_id,
    ensures
        net_shares(rows.push(t).filter(of_portfolio(portfolio_id)), t.symbol@, k) == net_shares(
            rows.filter(of_portfolio(portfolio_id)),
            t.symbol@,
            k,
        ) + share_change(t, k),
{
    reveal_with_fuel(Seq::filter, 1);
    assert(rows.push(t).drop_last() =~= rows);
    assert(rows.filter(of_portfolio(portfolio_id)).push(t).drop_last() =~= rows.filter(of_portfolio(portfolio_id)));
}

/// A sale or dividend dated after every transaction of its portfolio in its
/// symbol adds to the realized gain what it realizes against the holding
/// before it (for a sale `price * shares - fee - avg_cost * shares`), at any
/// scale `k`.
pub proof fn lemma_latest_transaction_realizes(rows: Seq<Transaction>, portfolio_id: Seq<char>, t: Transaction, k: int)
    requires
        t.portfolio_id@ == portfolio_id,
        forall|q: int|
            0 <= q < rows.len() && (#[trigger] rows[q]).portfolio_id@ == portfolio_id && rows[q].symbol@ == t.symbol@
                ==> text_lt(rows[q].date@, t.date@),
        position(chronological(listed_transactions(rows, portfolio_id)), t.symbol@) is Some,
    ensures
        realized_sum(chronological(listed_transactions(rows.push(t), portfolio_id)), t.symbol@, k) == realized_sum(
            chronological(listed_transactions(rows, portfolio_id)),
            t.symbol@,
            k,
        ) + gain_change(position(chronological(listed_transactions(rows, portfolio_id)), t.symbol@)->0, t, k),
{
    let symbol = t.symbol@;
    let c0 = chronological(listed_transactions(rows, portfolio_id));
    let c1 = chronological(listed_transactions(rows.push(t), portfolio_id));
    lemma_latest_transaction_applies_last(rows, portfolio_id, t);
    lemma_listed_position(rows, portfolio_id, symbol);
    lemma_listed_position(rows.push(t), portfolio_id, symbol);
    let f0 = c0.filter(of_symbol(symbol));
    assert(c1.filter(of_symbol(symbol)) == f0.push(t));
    lemma_realized_of_symbol_alone(c0, symbol, k);
    lemma_realized_of_symbol_alone(c1, symbol, k);
    lemma_position_of_symbol_alone(c0, symbol);
    assert(f0.push(t).drop_last() =~= f0);
}

/// A sale dated after every transaction of its portfolio in its symbol,
/// which leaves shares held, takes its cost basis `avg_cost * shares` (at the
/// average cost held before it) away from the invested cost, at any scale
/// `k`.
pub proof fn lemma_latest_sale_lowers_cost(rows: Seq<Transaction>, portfolio_id: Seq<char>, t: Transaction, k: int)
    requires
        t.portfolio_id@ == portfolio_id,
        kind_of(t.transaction_type@) == TransactionKind::Sell,
        forall|q: int|
            0 <= q < rows.len() && (#[trigger] rows[q]).portfolio_id@ == portfolio_id && rows[q].symbol@ == t.symbol@
                ==> text_lt(rows[q].date@, t.date@),
        position(chronological(listed_transactions(rows, portfolio_id)), t.symbol@) matches Some(Some(h0)),
        position(chronological(listed_transactions(rows.push(t), portfolio_id)), t.symbol@) matches Some(Some(h1))
            && h1.total_shares.positive(),
    ensures
        position(chronological(listed_transactions(rows, portfolio_id)), t.symbol@) matches Some(Some(h0))
            && invested_cost(chronological(listed_transactions(rows.push(t), portfolio_id)), t.symbol@, k)
            == invested_cost(chronological(listed_transactions(rows, portfolio_id)), t.symbol@, k) - basis_at(h0, t, k),
{
    let symbol = t.symbol@;
    let c0 = chronological(listed_transactions(rows, portfolio_id));
    let c1 = chronological(listed_transactions(rows.push(t), portfolio_id));
    lemma_latest_transaction_applies_last(rows, portfolio_id, t);
    let f0 = c0.filter(of_symbol(symbol));
    lemma_invested_of_symbol_alone(c0, symbol, k);
    lemma_invested_of_symbol_alone(c1, symbol, k);
    lemma_position_of_symbol_alone(c0, symbol);
    lemma_position_of_symbol_alone(c1, symbol);
    assert(f0.push(t).drop_last() =~= f0);
}

/// Where no two of a portfolio's transactions in a symbol, a new one among
/// them, share a date, storing the new one slots it into that symbol's
/// transactions in date order, the others keeping their order.
proof fn lemma_new_transaction_slots_in(rows: Seq<Transaction>, portfolio_id: Seq<char>, t: Transaction) -> (j: int)
    requires
        t.portfolio_id@ == portfolio_id,
        forall|a: int, b: int|
            0 <= a < b < rows.push(t).filter(of_portfolio(portfolio_id)).filter(of_symbol(t.symbol@)).len() ==> (
            #[trigger] rows.push(t).filter(of_portfolio(portfolio_id)).filter(of_symbol(t.symbol@))[a]).date@ != (
            #[trigger] rows.push(t).filter(of_portfolio(portfolio_id)).filter(of_symbol(t.symbol@))[b]).date@,
    ensures
        0 <= j <= chronological(listed_transactions(rows, portfolio_id)).filter(of_symbol(t.symbol@)).len(),
        chronological(listed_transactions(rows.push(t), portfolio_id)).filter(of_symbol(t.symbol@)) == ({
            let x0 = chronological(listed_transactions(rows, portfolio_id)).filter(of_symbol(t.symbol@));
            x0.take(j).push(t) + x0.skip(j)
        }),
{
    broadcast use vstd::seq_lib::group_to_multiset_ensures;

    reveal_with_fuel(Seq::filter, 1);
    let symbol = t.symbol@;
    let mine = rows.filter(of_portfolio(portfolio_id)).filter(of_symbol(symbol));
    let mine1 = rows.push(t).filter(of_portfolio(portfolio_id)).filter(of_symbol(symbol));
    assert(rows.push(t).drop_last() =~= rows);
    assert(rows.filter(of_portfolio(portfolio_id)).push(t).drop_last() =~= rows.filter(of_portfolio(portfolio_id)));
    assert(mine1 == mine.push(t));
    lemma_listed_position(rows, portfolio_id, symbol);
    lemma_listed_position(rows.push(t), portfolio_id, symbol);
    lemma_by_date_total_preorder();
    lemma_newest_first_total_preorder();
    let x0 = stable_order(stable_order(mine, newest_first()), by_date());
    let x1 = stable_order(stable_order(mine1, newest_first()), by_date());
    lemma_stable_order_sorted_permutation(mine, newest_first());
    lemma_stable_order_sorted_permutation(stable_order(mine, newest_first()), by_date());
    lemma_stable_order_sorted_permutation(mine1, newest_first());
    lemma_stable_order_sorted_permutation(stable_order(mine1, newest_first()), by_date());
    let y = insert_stable(x0, t, by_date());
    lemma_insert_stable_in_order(x0, t, by_date());
    lemma_insert_stable_multiset(x0, t, by_date());
    let j = lemma_insert_stable_splits(x0, t, by_date());
    mine.to_multiset_ensures();
    assert(mine1.to_multiset() == mine.to_multiset().insert(t));
    assert(x1.to_multiset() == y.to_multiset());
    let m = x1.to_multiset();
    assert forall|a: Transaction, b: Transaction|
        #![trigger x1.to_multiset().count(a), x1.to_multiset().count(b), (by_date())(a, b)]
        x1.to_multiset().count(a) > 0 && x1.to_multiset().count(b) > 0 && (by_date())(a, b) && (by_date())(b, a)
            implies a == b by {
        assert(mine1.to_multiset() == m);
        assert(mine1.contains(a));
        assert(mine1.contains(b));
        let i1 = choose|i1: int| 0 <= i1 < mine1.len() && mine1[i1] == a;
        let i2 = choose|i2: int| 0 <= i2 < mine1.len() && mine1[i2] == b;
        crate::text::lemma_text_le_total_order(a.date@, b.date@, a.date@);
        if i1 < i2 {
            assert(mine1[i1].date@ != mine1[i2].date@);
        } else if i2 < i1 {
            assert(mine1[i2].date@ != mine1[i1].date@);
        }
    }
    lemma_in_order_unique(x1, y, by_date());
    j
}

/// A dividend stored in a portfolio, on a date none of that portfolio's
/// transactions in its symbol has, leaves the holding's shares, invested
/// cost and average cost as they were, and adds its `price * shares - fee`
/// to the realized gain (at any scale `k`), as long as neither position
/// overflowed.
pub proof fn lemma_dividend_on_any_date(rows: Seq<Transaction>, portfolio_id: Seq<char>, d: Transaction, k: int)
    requires
        d.portfolio_id@ == portfolio_id,
        kind_of(d.transaction_type@) == TransactionKind::Dividend,
        forall|a: int, b: int|
            0 <= a < b < rows.push(d).filter(of_portfolio(portfolio_id)).filter(of_symbol(d.symbol@)).len() ==> (
            #[trigger] rows.push(d).filter(of_portfolio(portfolio_id)).filter(of_symbol(d.symbol@))[a]).date@ != (
            #[trigger] rows.push(d).filter(of_portfolio(portfolio_id)).filter(of_symbol(d.symbol@))[b]).date@,
        position(chronological(listed_transactions(rows.push(d), portfolio_id)), d.symbol@) is Some,
        position(chronological(listed_transactions(rows, portfolio_id)), d.symbol@) is Some,
    ensures
        realized_sum(chronological(listed_transactions(rows.push(d), portfolio_id)), d.symbol@, k) == realized_sum(
            chronological(listed_transactions(rows, portfolio_id)),
            d.symbol@,
            k,
        ) + (gross_at(d, k) - at_scale(d.fee, k)),
        position(chronological(listed_transactions(rows.push(d), portfolio_id)), d.symbol@) matches Some(Some(h1)) ==> (
        position(chronological(listed_transactions(rows, portfolio_id)), d.symbol@) matches Some(Some(h0))
            ==> h1.total_shares == h0.total_shares && h1.total_cost == h0.total_cost && h1.avg_cost == h0.avg_cost),
{
    let symbol = d.symbol@;
    let c0 = chronological(listed_transactions(rows, portfolio_id));
    let c1 = chronological(listed_transactions(rows.push(d), portfolio_id));
    let j = lemma_new_transaction_slots_in(rows, portfolio_id, d);
    let x0 = c0.filter(of_symbol(symbol));
    assert(x0.take(j) + x0.skip(j) =~= x0);
    lemma_position_of_symbol_alone(c0, symbol);
    lemma_position_of_symbol_alone(c1, symbol);
    lemma_realized_of_symbol_alone(c0, symbol, k);
    lemma_realized_of_symbol_alone(c1, symbol, k);
    lemma_dividend_gain_anywhere(x0.take(j), d, x0.skip(j), k);
    lemma_dividend_changes_only_gain_anywhere(x0.take(j), d, x0.skip(j));
}
} // verus!
