//! Transactions of a portfolio and the holdings they add up to: for each
//! symbol, the shares held, their average cost, the cost still invested and
//! the gain realized by sales and dividends.

use crate::amount::{
    at_scale, checked_add, checked_div, checked_mul, checked_sub, difference, fits, lemma_difference_exact_at,
    lemma_product_exact_at, lemma_sum_exact_at, pow10, product, quotient, sum, Amount, MAX_SCALE,
};
use crate::order::{
    insert_stable, lemma_insert_stable_at, lemma_insert_stable_splits, lemma_stable_order_keeps,
    lemma_stable_order_sorted_permutation, stable_order,
    total_preorder,
};
use crate::text::{text_equal, text_le, text_less_eq, text_lt};
use vstd::prelude::*;

verus! {

/// One recorded trade or dividend of a portfolio.
#[derive(Debug)]
pub struct Transaction {
    pub id: String,
    pub portfolio_id: String,
    pub symbol: String,
    pub name: Option<String>,
    /// Trade date as `YYYY-MM-DD`; transactions are ordered by this text.
    pub date: String,
    pub price: Amount,
    pub shares: Amount,
    pub fee: Amount,
    /// `"Buy"`, `"Sell"` or `"Dividend"`; any other text has no effect.
    pub transaction_type: String,
    pub currency: String,
    pub created_at: String,
}

/// The position of a portfolio in one symbol.
#[derive(Debug)]
pub struct Holding {
    pub symbol: String,
    pub name: Option<String>,
    pub total_shares: Amount,
    pub avg_cost: Amount,
    pub total_cost: Amount,
    pub realized_gain: Amount,
}

/// Why the holdings could not be computed.
#[derive(Debug, PartialEq, Eq)]
pub enum LedgerError {
    /// A decimal operation left the range of a decimal.
    ArithmeticOverflow,
}

/// The effect a transaction type has on a holding.
#[derive(Debug, PartialEq, Eq)]
pub enum TransactionKind {
    Buy,
    Sell,
    Dividend,
    /// Any other type text: the holding is left as it is.
    Other,
}

impl Transaction {
    pub open spec fn wf(self) -> bool {
        self.price.wf() && self.shares.wf() && self.fee.wf()
    }

    /// A field-by-field copy.
    pub fn duplicate(&self) -> (r: Transaction)
        ensures
            r == *self,
    {
        Transaction {
            id: self.id.clone(),
            portfolio_id: self.portfolio_id.clone(),
            symbol: self.symbol.clone(),
            name: copy_name(&self.name),
            date: self.date.clone(),
            price: self.price,
            shares: self.shares,
            fee: self.fee,
            transaction_type: self.transaction_type.clone(),
            currency: self.currency.clone(),
            created_at: self.created_at.clone(),
        }
    }
}

impl Holding {
    pub open spec fn wf(self) -> bool {
        &&& self.total_shares.wf()
        &&& self.avg_cost.wf()
        &&& self.total_cost.wf()
        &&& self.realized_gain.wf()
    }
}

/// The kind named by a transaction type text.
pub open spec fn kind_of(t: Seq<char>) -> TransactionKind {
    if t == "Buy"@ {
        TransactionKind::Buy
    } else if t == "Sell"@ {
        TransactionKind::Sell
    } else if t == "Dividend"@ {
        TransactionKind::Dividend
    } else {
        TransactionKind::Other
    }
}

/// The zero amount.
pub open spec fn zero() -> Amount {
    Amount { mantissa: 0, scale: 0 }
}

/// The empty holding opened by the first transaction of a symbol.
pub open spec fn opening(tx: Transaction) -> Holding {
    Holding {
        symbol: tx.symbol,
        name: tx.name,
        total_shares: zero(),
        avg_cost: zero(),
        total_cost: zero(),
        realized_gain: zero(),
    }
}

/// A purchase: the cost `price * shares + fee` is added to the invested cost,
/// the shares to the shares held, and the average cost becomes invested cost
/// over shares while shares are held.
pub open spec fn buy(h: Holding, tx: Transaction) -> Option<Holding> {
    match product(tx.price, tx.shares) {
        None => None,
        Some(gross) => match sum(gross, tx.fee) {
            None => None,
            Some(cost) => match sum(h.total_cost, cost) {
                None => None,
                Some(total_cost) => match sum(h.total_shares, tx.shares) {
                    None => None,
                    Some(total_shares) => if total_shares.positive() {
                        match quotient(total_cost, total_shares) {
                            None => None,
                            Some(avg_cost) => Some(Holding { total_cost, total_shares, avg_cost, ..h }),
                        }
                    } else {
                        Some(Holding { total_cost, total_shares, ..h })
                    },
                },
            },
        },
    }
}

/// A sale: the gain `(price * shares - fee) - avg_cost * shares` is realized,
/// the cost basis `avg_cost * shares` leaves the invested cost and the shares
/// leave the shares held; the average cost stays, and everything invested is
/// cleared once no shares are left.
pub open spec fn sell(h: Holding, tx: Transaction) -> Option<Holding> {
    match product(tx.price, tx.shares) {
        None => None,
        Some(gross) => match difference(gross, tx.fee) {
            None => None,
            Some(proceeds) => match product(h.avg_cost, tx.shares) {
                None => None,
                Some(basis) => match difference(proceeds, basis) {
                    None => None,
                    Some(gain) => match sum(h.realized_gain, gain) {
                        None => None,
                        Some(realized_gain) => match difference(h.total_cost, basis) {
                            None => None,
                            Some(total_cost) => match difference(h.total_shares, tx.shares) {
                                None => None,
                                Some(total_shares) => if total_shares.positive() {
                                    Some(Holding { realized_gain, total_cost, total_shares, ..h })
                                } else {
                                    Some(
                                        Holding {
                                            realized_gain,
                                            total_cost: zero(),
                                            total_shares,
                                            avg_cost: zero(),
                                            ..h
                                        },
                                    )
                                },
                            },
                        },
                    },
                },
            },
        },
    }
}

/// A dividend: `price * shares - fee` is added to the realized gain.
pub open spec fn dividend(h: Holding, tx: Transaction) -> Option<Holding> {
    match product(tx.price, tx.shares) {
        None => None,
        Some(gross) => match difference(gross, tx.fee) {
            None => None,
            Some(income) => match sum(h.realized_gain, income) {
                None => None,
                Some(realized_gain) => Some(Holding { realized_gain, ..h }),
            },
        },
    }
}

/// The holding after one transaction; `None` when a decimal operation
/// overflows.
pub open spec fn apply(h: Holding, tx: Transaction) -> Option<Holding> {
    match kind_of(tx.transaction_type@) {
        TransactionKind::Buy => buy(h, tx),
        TransactionKind::Sell => sell(h, tx),
        TransactionKind::Dividend => dividend(h, tx),
        TransactionKind::Other => Some(h),
    }
}

/// What a transaction does to the shares held, at scale `k`: a purchase
/// adds its shares, a sale takes them away, anything else leaves them.
pub open spec fn share_change(tx: Transaction, k: int) -> int {
    match kind_of(tx.transaction_type@) {
        TransactionKind::Buy => at_scale(tx.shares, k),
        TransactionKind::Sell => -at_scale(tx.shares, k),
        _ => 0,
    }
}

/// The shares held after the transaction are computed exactly at scale
/// `k`: both share counts have scales up to `k` (itself at most 28) and the
/// exact result fits there.
pub open spec fn shares_exact_at(h: Holding, tx: Transaction, k: int) -> bool {
    &&& k <= MAX_SCALE
    &&& h.total_shares.scale <= k
    &&& tx.shares.scale <= k
    &&& fits(at_scale(h.total_shares, k) + share_change(tx, k))
}

/// `price * shares` of a transaction, at scale `k`.
pub open spec fn gross_at(tx: Transaction, k: int) -> int {
    tx.price.mantissa * tx.shares.mantissa * pow10((k - tx.price.scale - tx.shares.scale) as nat)
}

/// `avg_cost * shares`, the cost basis of a sale, at scale `k`.
pub open spec fn basis_at(h: Holding, tx: Transaction, k: int) -> int {
    h.avg_cost.mantissa * tx.shares.mantissa * pow10((k - h.avg_cost.scale - tx.shares.scale) as nat)
}

/// Everything a purchase adds to the invested cost is computed exactly at
/// scale `k`.
pub open spec fn buy_cost_exact_at(h: Holding, tx: Transaction, k: int) -> bool {
    &&& k <= MAX_SCALE
    &&& tx.price.scale + tx.shares.scale <= k
    &&& tx.fee.scale <= k
    &&& h.total_cost.scale <= k
    &&& fits(tx.price.mantissa * tx.shares.mantissa)
    &&& fits(gross_at(tx, k) + at_scale(tx.fee, k))
    &&& fits(at_scale(h.total_cost, k) + gross_at(tx, k) + at_scale(tx.fee, k))
}

/// Everything a sale computes is exact at scale `k`.
pub open spec fn sell_exact_at(h: Holding, tx: Transaction, k: int) -> bool {
    &&& k <= MAX_SCALE
    &&& tx.price.scale + tx.shares.scale <= k
    &&& h.avg_cost.scale + tx.shares.scale <= k
    &&& tx.fee.scale <= k
    &&& h.total_cost.scale <= k
    &&& h.total_shares.scale <= k
    &&& h.realized_gain.scale <= k
    &&& fits(tx.price.mantissa * tx.shares.mantissa)
    &&& fits(h.avg_cost.mantissa * tx.shares.mantissa)
    &&& fits(gross_at(tx, k) - at_scale(tx.fee, k))
    &&& fits(gross_at(tx, k) - at_scale(tx.fee, k) - basis_at(h, tx, k))
    &&& fits(at_scale(h.realized_gain, k) + (gross_at(tx, k) - at_scale(tx.fee, k) - basis_at(h, tx, k)))
    &&& fits(at_scale(h.total_cost, k) - basis_at(h, tx, k))
    &&& fits(at_scale(h.total_shares, k) - at_scale(tx.shares, k))
}

/// Everything a dividend computes is exact at scale `k`.
pub open spec fn dividend_exact_at(h: Holding, tx: Transaction, k: int) -> bool {
    &&& k <= MAX_SCALE
    &&& tx.price.scale + tx.shares.scale <= k
    &&& tx.fee.scale <= k
    &&& h.realized_gain.scale <= k
    &&& fits(tx.price.mantissa * tx.shares.mantissa)
    &&& fits(gross_at(tx, k) - at_scale(tx.fee, k))
    &&& fits(at_scale(h.realized_gain, k) + (gross_at(tx, k) - at_scale(tx.fee, k)))
}

/// The kind of a transaction type text.
pub fn transaction_kind(t: &str) -> (k: TransactionKind)
    ensures
        k == kind_of(t@),
{
    if text_equal(t, "Buy") {
        TransactionKind::Buy
    } else if text_equal(t, "Sell") {
        TransactionKind::Sell
    } else if text_equal(t, "Dividend") {
        TransactionKind::Dividend
    } else {
        TransactionKind::Other
    }
}

fn copy_name(name: &Option<String>) -> (r: Option<String>)
    ensures
        r == *name,
{
    match name {
        Some(n) => Some(n.clone()),
        None => None,
    }
}

/// The empty holding for the symbol and name of a transaction.
pub fn open_holding(tx: &Transaction) -> (h: Holding)
    ensures
        h == opening(*tx),
        h.wf(),
{
    Holding {
        symbol: tx.symbol.clone(),
        name: copy_name(&tx.name),
        total_shares: Amount::zero(),
        avg_cost: Amount::zero(),
        total_cost: Amount::zero(),
        realized_gain: Amount::zero(),
    }
}

/// Applies one transaction to a holding; `None` when a decimal operation
/// overflows.
pub fn apply_transaction(h: Holding, tx: &Transaction) -> (r: Option<Holding>)
    requires
        h.wf(),
        tx.wf(),
    ensures
        r == apply(h, *tx),
        r matches Some(x) ==> x.wf(),
        forall|k: int|
            #[trigger] shares_exact_at(h, *tx, k) ==> (r matches Some(x) ==> x.total_shares.scale <= k && at_scale(
                x.total_shares,
                k,
            ) == at_scale(h.total_shares, k) + share_change(*tx, k)),
        forall|k: int|
            #[trigger] buy_cost_exact_at(h, *tx, k) ==> (r matches Some(x) ==> (kind_of(tx.transaction_type@)
                == TransactionKind::Buy ==> x.total_cost.scale <= k && at_scale(x.total_cost, k) == at_scale(
                h.total_cost,
                k,
            ) + gross_at(*tx, k) + at_scale(tx.fee, k))),
        forall|k: int|
            #[trigger] sell_exact_at(h, *tx, k) ==> (r matches Some(x) ==> kind_of(tx.transaction_type@)
                == TransactionKind::Sell ==> {
                &&& x.realized_gain.scale <= k
                &&& x.total_cost.scale <= k
                &&& at_scale(x.realized_gain, k) == at_scale(h.realized_gain, k) + (gross_at(*tx, k) - at_scale(tx.fee, k)
                    - basis_at(h, *tx, k))
                &&& x.total_shares.positive() ==> at_scale(x.total_cost, k) == at_scale(h.total_cost, k) - basis_at(
                    h,
                    *tx,
                    k,
                )
            }),
        forall|k: int|
            #[trigger] dividend_exact_at(h, *tx, k) ==> (r matches Some(x) ==> (kind_of(tx.transaction_type@)
                == TransactionKind::Dividend ==> x.realized_gain.scale <= k && at_scale(x.realized_gain, k) == at_scale(
                h.realized_gain,
                k,
            ) + (gross_at(*tx, k) - at_scale(tx.fee, k)))),
{
    match transaction_kind(tx.transaction_type.as_str()) {
        TransactionKind::Buy => {
            let gross = match checked_mul(tx.price, tx.shares) {
                Some(v) => v,
                None => return None,
            };
            let cost = match checked_add(gross, tx.fee) {
                Some(v) => v,
                None => return None,
            };
            let total_cost = match checked_add(h.total_cost, cost) {
                Some(v) => v,
                None => return None,
            };
            let total_shares = match checked_add(h.total_shares, tx.shares) {
                Some(v) => v,
                None => return None,
            };
            proof {
                assert forall|k: int| #[trigger] shares_exact_at(h, *tx, k) implies total_shares.scale <= k && at_scale(
                    total_shares,
                    k,
                ) == at_scale(h.total_shares, k) + share_change(*tx, k) by {
                    lemma_sum_exact_at(h.total_shares, tx.shares, total_shares, k);
                }
                assert forall|k: int| #[trigger] buy_cost_exact_at(h, *tx, k) implies total_cost.scale <= k && at_scale(
                    total_cost,
                    k,
                ) == at_scale(h.total_cost, k) + gross_at(*tx, k) + at_scale(tx.fee, k) by {
                    lemma_product_exact_at(tx.price, tx.shares, gross, k);
                    lemma_sum_exact_at(gross, tx.fee, cost, k);
                    lemma_sum_exact_at(h.total_cost, cost, total_cost, k);
                }
            }
            if total_shares.is_positive() {
                let avg_cost = match checked_div(total_cost, total_shares) {
                    Some(v) => v,
                    None => return None,
                };
                Some(Holding { total_cost, total_shares, avg_cost, ..h })
            } else {
                Some(Holding { total_cost, total_shares, ..h })
            }
        },
        TransactionKind::Sell => {
            let gross = match checked_mul(tx.price, tx.shares) {
                Some(v) => v,
                None => return None,
            };
            let proceeds = match checked_sub(gross, tx.fee) {
                Some(v) => v,
                None => return None,
            };
            let basis = match checked_mul(h.avg_cost, tx.shares) {
                Some(v) => v,
                None => return None,
            };
            let gain = match checked_sub(proceeds, basis) {
                Some(v) => v,
                None => return None,
            };
            let realized_gain = match checked_add(h.realized_gain, gain) {
                Some(v) => v,
                None => return None,
            };
            let total_cost = match checked_sub(h.total_cost, basis) {
                Some(v) => v,
                None => return None,
            };
            let total_shares = match checked_sub(h.total_shares, tx.shares) {
                Some(v) => v,
                None => return None,
            };
            proof {
                assert forall|k: int| #[trigger] shares_exact_at(h, *tx, k) implies total_shares.scale <= k && at_scale(
                    total_shares,
                    k,
                ) == at_scale(h.total_shares, k) + share_change(*tx, k) by {
                    lemma_difference_exact_at(h.total_shares, tx.shares, total_shares, k);
                }
                assert forall|k: int| #[trigger] sell_exact_at(h, *tx, k) implies realized_gain.scale <= k && total_cost.scale <= k && at_scale(realized_gain, k) == at_scale(
                    h.realized_gain,
                    k,
                ) + (gross_at(*tx, k) - at_scale(tx.fee, k) - basis_at(h, *tx, k)) && at_scale(total_cost, k)
                    == at_scale(h.total_cost, k) - basis_at(h, *tx, k) by {
                    lemma_product_exact_at(tx.price, tx.shares, gross, k);
                    lemma_difference_exact_at(gross, tx.fee, proceeds, k);
                    lemma_product_exact_at(h.avg_cost, tx.shares, basis, k);
                    lemma_difference_exact_at(proceeds, basis, gain, k);
                    lemma_sum_exact_at(h.realized_gain, gain, realized_gain, k);
                    lemma_difference_exact_at(h.total_cost, basis, total_cost, k);
                }
            }
            if total_shares.is_positive() {
                Some(Holding { realized_gain, total_cost, total_shares, ..h })
            } else {
                Some(
                    Holding {
                        realized_gain,
                        total_cost: Amount::zero(),
                        total_shares,
                        avg_cost: Amount::zero(),
                        ..h
                    },
                )
            }
        },
        TransactionKind::Dividend => {
            let gross = match checked_mul(tx.price, tx.shares) {
                Some(v) => v,
                None => return None,
            };
            let income = match checked_sub(gross, tx.fee) {
                Some(v) => v,
                None => return None,
            };
            let realized_gain = match checked_add(h.realized_gain, income) {
                Some(v) => v,
                None => return None,
            };
            proof {
                assert forall|k: int| #[trigger] dividend_exact_at(h, *tx, k) implies realized_gain.scale <= k && at_scale(realized_gain, k)
                    == at_scale(h.realized_gain, k) + (gross_at(*tx, k) - at_scale(tx.fee, k)) by {
                    lemma_product_exact_at(tx.price, tx.shares, gross, k);
                    lemma_difference_exact_at(gross, tx.fee, income, k);
                    lemma_sum_exact_at(h.realized_gain, income, realized_gain, k);
                }
            }
            Some(Holding { realized_gain, ..h })
        },
        TransactionKind::Other => Some(h),
    }
}


/// `a` is dated no later than `b`.
pub open spec fn dated_no_later(a: Transaction, b: Transaction) -> bool {
    text_le(a.date@, b.date@)
}

/// The order of transactions by date: an earlier transaction stays before a
/// later one dated no earlier.
pub open spec fn by_date() -> spec_fn(Transaction, Transaction) -> bool {
    |a: Transaction, b: Transaction| dated_no_later(a, b)
}

/// The transactions in date order; transactions of one date keep the order
/// in which they were given (a stable sort by date).
pub open spec fn chronological(txs: Seq<Transaction>) -> Seq<Transaction> {
    stable_order(txs, by_date())
}

/// The position in `symbol` after the transactions `txs`, taken in the order
/// given: `Some(None)` while no transaction names the symbol,
/// `Some(Some(h))` once one does, `None` once a decimal operation overflowed.
pub open spec fn position(txs: Seq<Transaction>, symbol: Seq<char>) -> Option<Option<Holding>>
    decreases txs.len(),
{
    if txs.len() == 0 {
        Some(None)
    } else {
        let prev = position(txs.drop_last(), symbol);
        let tx = txs.last();
        if tx.symbol@ != symbol {
            prev
        } else {
            match prev {
                None => None,
                Some(None) => match apply(opening(tx), tx) {
                    Some(h) => Some(Some(h)),
                    None => None,
                },
                Some(Some(h)) => match apply(h, tx) {
                    Some(h2) => Some(Some(h2)),
                    None => None,
                },
            }
        }
    }
}

/// Some symbol's position overflows when the transactions are taken in date
/// order.
pub open spec fn ledger_overflows(txs: Seq<Transaction>) -> bool {
    let ordered = chronological(txs);
    exists|k: int| 0 <= k < ordered.len() && (#[trigger] position(ordered, ordered[k].symbol@)) is None
}

/// `holdings` are the open positions of `txs`: one per symbol whose position,
/// the transactions taken in date order, holds a positive number of shares,
/// in ascending order of symbol.
pub open spec fn holdings_of(txs: Seq<Transaction>, holdings: Seq<Holding>) -> bool {
    let ordered = chronological(txs);
    &&& forall|i: int, j: int|
        0 <= i < j < holdings.len() ==> text_lt(#[trigger] holdings[i].symbol@, #[trigger] holdings[j].symbol@)
    &&& forall|i: int|
        0 <= i < holdings.len() ==> {
            &&& position(ordered, #[trigger] holdings[i].symbol@) == Some(Some(holdings[i]))
            &&& holdings[i].total_shares.positive()
        }
    &&& forall|k: int|
        0 <= k < ordered.len() ==> match #[trigger] position(ordered, ordered[k].symbol@) {
            Some(Some(h)) => h.total_shares.positive() ==> lists_symbol(holdings, ordered[k].symbol@),
            _ => true,
        }
}

/// Places `tx` into `sorted` after every transaction dated no later than it.
fn insert_dated(sorted: &mut Vec<Transaction>, tx: Transaction)
    ensures
        final(sorted)@ == insert_stable(old(sorted)@, tx, by_date()),
{
    let mut j = sorted.len();
    while j > 0 && !text_less_eq(sorted[j - 1].date.as_str(), tx.date.as_str())
        invariant
            j <= sorted@.len(),
            sorted@ == old(sorted)@,
            forall|k: int| j <= k < sorted@.len() ==> !dated_no_later(#[trigger] sorted@[k], tx),
        decreases j,
    {
        j = j - 1;
    }
    proof {
        lemma_insert_stable_at(sorted@, tx, by_date(), j as int);
    }
    sorted.insert(j, tx);
    assert(sorted@ =~= old(sorted)@.take(j as int).push(tx) + old(sorted)@.skip(j as int));
}

/// The transactions in date order, those of one date in the order given.
pub fn order_by_date(txs: Vec<Transaction>) -> (r: Vec<Transaction>)
    ensures
        r@ == chronological(txs@),
{
    let mut pending = txs;
    let mut reversed: Vec<Transaction> = Vec::new();
    while pending.len() > 0
        invariant
            pending@ + reversed@.reverse() == txs@,
        decreases pending@.len(),
    {
        let ghost before = pending@;
        let ghost rev_before = reversed@;
        let tx = pending.pop().unwrap();
        reversed.push(tx);
        assert(reversed@.reverse() =~= seq![tx] + rev_before.reverse());
        assert(before =~= pending@.push(tx));
        assert(pending@ + reversed@.reverse() =~= before + rev_before.reverse());
    }
    assert(reversed@.reverse() =~= txs@);
    let mut out: Vec<Transaction> = Vec::new();
    while reversed.len() > 0
        invariant
            out@ == chronological(txs@.take(txs@.len() - reversed@.len())),
            reversed@.reverse() =~= txs@.skip(txs@.len() - reversed@.len()),
            reversed@.len() <= txs@.len(),
        decreases reversed@.len(),
    {
        let ghost done = txs@.len() - reversed@.len();
        let ghost rev_before = reversed@;
        let tx = reversed.pop().unwrap();
        assert(rev_before.reverse()[0] == tx);
        assert(txs@[done] == tx);
        insert_dated(&mut out, tx);
        assert(txs@.take(done + 1).drop_last() =~= txs@.take(done));
        assert(reversed@.reverse() =~= rev_before.reverse().drop_first());
        assert(txs@.skip(done + 1) =~= txs@.skip(done).drop_first());
    }
    assert(txs@.take(txs@.len() as int) =~= txs@);
    out
}


/// A position, once open, holds the symbol it was opened for.
pub proof fn lemma_position_symbol(txs: Seq<Transaction>, symbol: Seq<char>)
    ensures
        position(txs, symbol) matches Some(Some(h)) ==> h.symbol@ == symbol,
    decreases txs.len(),
{
    if txs.len() > 0 {
        lemma_position_symbol(txs.drop_last(), symbol);
    }
}

proof fn lemma_text_lt_trans(a: Seq<char>, b: Seq<char>, c: Seq<char>)
    ensures
        text_lt(a, b) && text_le(b, c) ==> text_lt(a, c),
        text_le(a, b) && text_lt(b, c) ==> text_lt(a, c),
{
    crate::text::lemma_text_le_total_order(a, b, c);
    crate::text::lemma_text_le_total_order(a, c, b);
    crate::text::lemma_text_le_total_order(b, c, a);
}

fn text_less(a: &str, b: &str) -> (r: bool)
    ensures
        r == text_lt(a@, b@),
{
    text_less_eq(a, b) && !text_equal(a, b)
}

/// Some text of `texts` equals `t`.
pub open spec fn has_text(texts: Seq<String>, t: Seq<char>) -> bool {
    exists|i: int| 0 <= i < texts.len() && texts[i]@ == t
}

/// The shares of `symbol` bought less those sold in `txs`, at scale `k`.
pub open spec fn net_shares(txs: Seq<Transaction>, symbol: Seq<char>, k: int) -> int
    decreases txs.len(),
{
    if txs.len() == 0 {
        0
    } else if txs.last().symbol@ == symbol {
        net_shares(txs.drop_last(), symbol, k) + share_change(txs.last(), k)
    } else {
        net_shares(txs.drop_last(), symbol, k)
    }
}

/// Every share count of `symbol` in `txs` has a scale up to `k` (itself from
/// 0 to 28), and the shares held so far fit at `k` after each of them.
pub open spec fn shares_fit(txs: Seq<Transaction>, symbol: Seq<char>, k: int) -> bool {
    &&& 0 <= k <= MAX_SCALE
    &&& forall|i: int|
        #![trigger txs[i]]
        0 <= i < txs.len() && txs[i].symbol@ == symbol ==> txs[i].shares.scale <= k && fits(
            net_shares(txs.take(i + 1), symbol, k),
        )
}

/// The invested cost of `symbol` that the purchases in `txs` add up to, at
/// scale `k`: each purchase adds `price * shares + fee`.
pub open spec fn bought_cost(txs: Seq<Transaction>, symbol: Seq<char>, k: int) -> int
    decreases txs.len(),
{
    if txs.len() == 0 {
        0
    } else if txs.last().symbol@ == symbol && kind_of(txs.last().transaction_type@) == TransactionKind::Buy {
        bought_cost(txs.drop_last(), symbol, k) + gross_at(txs.last(), k) + at_scale(txs.last().fee, k)
    } else {
        bought_cost(txs.drop_last(), symbol, k)
    }
}

/// No transaction of `symbol` in `txs` is a sale, and every purchase's cost,
/// and the invested cost after it, is computed exactly at scale `k` (from 0
/// to 28).
pub open spec fn costs_fit(txs: Seq<Transaction>, symbol: Seq<char>, k: int) -> bool {
    &&& 0 <= k <= MAX_SCALE
    &&& forall|i: int|
        #![trigger txs[i]]
        0 <= i < txs.len() && txs[i].symbol@ == symbol ==> kind_of(txs[i].transaction_type@) != TransactionKind::Sell
    &&& forall|i: int|
        #![trigger txs[i]]
        0 <= i < txs.len() && txs[i].symbol@ == symbol && kind_of(txs[i].transaction_type@) == TransactionKind::Buy ==> {
            &&& txs[i].price.scale + txs[i].shares.scale <= k
            &&& txs[i].fee.scale <= k
            &&& fits(txs[i].price.mantissa * txs[i].shares.mantissa)
            &&& fits(gross_at(txs[i], k) + at_scale(txs[i].fee, k))
            &&& fits(bought_cost(txs.take(i + 1), symbol, k))
        }
}

/// The holding a transaction applies to: the one open before it, or the
/// empty one it opens.
pub open spec fn held(before: Option<Holding>, tx: Transaction) -> Holding {
    match before {
        Some(h) => h,
        None => opening(tx),
    }
}

/// The gain a transaction realizes at scale `k`, given the holding before
/// it: a sale `price * shares - fee - avg_cost * shares`, a dividend
/// `price * shares - fee`, anything else nothing.
pub open spec fn gain_change(before: Option<Holding>, tx: Transaction, k: int) -> int {
    match kind_of(tx.transaction_type@) {
        TransactionKind::Sell => gross_at(tx, k) - at_scale(tx.fee, k) - basis_at(held(before, tx), tx, k),
        TransactionKind::Dividend => gross_at(tx, k) - at_scale(tx.fee, k),
        _ => 0,
    }
}

/// The gains realized in `symbol` by the sales and dividends of `txs`, at
/// scale `k`, each against the holding before it.
pub open spec fn realized_sum(txs: Seq<Transaction>, symbol: Seq<char>, k: int) -> int
    decreases txs.len(),
{
    if txs.len() == 0 {
        0
    } else if txs.last().symbol@ == symbol {
        match position(txs.drop_last(), symbol) {
            Some(p) => realized_sum(txs.drop_last(), symbol, k) + gain_change(p, txs.last(), k),
            None => realized_sum(txs.drop_last(), symbol, k),
        }
    } else {
        realized_sum(txs.drop_last(), symbol, k)
    }
}

/// The cost still invested in `symbol` after `txs`, at scale `k`: each
/// purchase adds `price * shares + fee`, each sale that leaves shares takes
/// away its cost basis `avg_cost * shares` (against the holding before it),
/// and a sale that leaves none clears it.
pub open spec fn invested_cost(txs: Seq<Transaction>, symbol: Seq<char>, k: int) -> int
    decreases txs.len(),
{
    if txs.len() == 0 {
        0
    } else if txs.last().symbol@ == symbol {
        let c = invested_cost(txs.drop_last(), symbol, k);
        match position(txs.drop_last(), symbol) {
            Some(p) => match kind_of(txs.last().transaction_type@) {
                TransactionKind::Buy => c + gross_at(txs.last(), k) + at_scale(txs.last().fee, k),
                TransactionKind::Sell => match position(txs, symbol) {
                    Some(Some(h2)) => if h2.total_shares.positive() {
                        c - basis_at(held(p, txs.last()), txs.last(), k)
                    } else {
                        0
                    },
                    _ => c,
                },
                _ => c,
            },
            None => c,
        }
    } else {
        invested_cost(txs.drop_last(), symbol, k)
    }
}

/// Every purchase and sale of `symbol` in `txs` computes exactly at scale
/// `k` (from 0 to 28), against the holding before it.
pub open spec fn trades_fit(txs: Seq<Transaction>, symbol: Seq<char>, k: int) -> bool {
    &&& 0 <= k <= MAX_SCALE
    &&& forall|i: int|
        #![trigger txs[i]]
        0 <= i < txs.len() && txs[i].symbol@ == symbol ==> match position(txs.take(i), symbol) {
            Some(p) => {
                &&& kind_of(txs[i].transaction_type@) == TransactionKind::Buy ==> buy_cost_exact_at(
                    held(p, txs[i]),
                    txs[i],
                    k,
                )
                &&& kind_of(txs[i].transaction_type@) == TransactionKind::Sell ==> sell_exact_at(held(p, txs[i]), txs[i], k)
            },
            None => true,
        }
}

/// Every sale and dividend of `symbol` in `txs` computes exactly at scale
/// `k` (from 0 to 28), against the holding before it.
pub open spec fn gains_fit(txs: Seq<Transaction>, symbol: Seq<char>, k: int) -> bool {
    &&& 0 <= k <= MAX_SCALE
    &&& forall|i: int|
        #![trigger txs[i]]
        0 <= i < txs.len() && txs[i].symbol@ == symbol ==> match position(txs.take(i), symbol) {
            Some(p) => {
                &&& kind_of(txs[i].transaction_type@) == TransactionKind::Sell ==> sell_exact_at(held(p, txs[i]), txs[i], k)
                &&& kind_of(txs[i].transaction_type@) == TransactionKind::Dividend ==> dividend_exact_at(
                    held(p, txs[i]),
                    txs[i],
                    k,
                )
            },
            None => true,
        }
}

/// Some transaction of `txs` is in `symbol`.
pub open spec fn has_symbol(txs: Seq<Transaction>, symbol: Seq<char>) -> bool {
    exists|k: int| 0 <= k < txs.len() && txs[k].symbol@ == symbol
}

/// The texts are in strictly ascending order.
pub open spec fn strictly_ascending(texts: Seq<String>) -> bool {
    forall|i: int, j: int| 0 <= i < j < texts.len() ==> text_lt(#[trigger] texts[i]@, #[trigger] texts[j]@)
}

/// Adds `symbol` to the ascending texts unless it is there already.
fn insert_symbol(syms: &mut Vec<String>, symbol: &String)
    requires
        strictly_ascending(old(syms)@),
    ensures
        strictly_ascending(final(syms)@),
        has_text(final(syms)@, symbol@),
        forall|t: Seq<char>| #[trigger] has_text(final(syms)@, t) <==> (has_text(old(syms)@, t) || t == symbol@),
{
    let mut p: usize = 0;
    while p < syms.len() && text_less(syms[p].as_str(), symbol.as_str())
        invariant
            p <= syms@.len(),
            forall|i: int| 0 <= i < p ==> text_lt(#[trigger] syms@[i]@, symbol@),
        decreases syms@.len() - p,
    {
        p = p + 1;
    }
    if p < syms.len() && text_equal(syms[p].as_str(), symbol.as_str()) {
        assert(syms@[p as int]@ == symbol@);
        return;
    }
    let ghost old_syms = syms@;
    proof {
        if p < old_syms.len() {
            crate::text::lemma_text_le_total_order(symbol@, old_syms[p as int]@, symbol@);
            assert(text_lt(symbol@, old_syms[p as int]@));
        }
        assert forall|j: int| p <= j < old_syms.len() implies text_lt(symbol@, #[trigger] old_syms[j]@) by {
            if j > p {
                assert(text_lt(old_syms[p as int]@, old_syms[j]@));
                lemma_text_lt_trans(symbol@, old_syms[p as int]@, old_syms[j]@);
            }
        }
    }
    syms.insert(p, symbol.clone());
    assert(syms@[p as int]@ == symbol@);
    assert forall|i: int, j: int| 0 <= i < j < syms@.len() implies text_lt(#[trigger] syms@[i]@, #[trigger] syms@[j]@) by {
        if j < p {
            assert(syms@[i] == old_syms[i]);
            assert(syms@[j] == old_syms[j]);
        } else if i < p && j == p {
            assert(syms@[i] == old_syms[i]);
        } else if i < p && j > p {
            assert(syms@[j] == old_syms[j - 1]);
            assert(syms@[i] == old_syms[i]);
            lemma_text_lt_trans(syms@[i]@, symbol@, syms@[j]@);
        } else if i == p {
            assert(syms@[j] == old_syms[j - 1]);
        } else {
            assert(syms@[i] == old_syms[i - 1]);
            assert(syms@[j] == old_syms[j - 1]);
        }
    }
    assert forall|t: Seq<char>| #[trigger] has_text(syms@, t) <==> (has_text(old_syms, t) || t == symbol@) by {
        if has_text(syms@, t) {
            let i = choose|i: int| 0 <= i < syms@.len() && syms@[i]@ == t;
            if i < p {
                assert(syms@[i] == old_syms[i]);
            } else if i > p {
                assert(syms@[i] == old_syms[i - 1]);
            }
        }
        if has_text(old_syms, t) {
            let i = choose|i: int| 0 <= i < old_syms.len() && old_syms[i]@ == t;
            if i < p {
                assert(syms@[i] == old_syms[i]);
            } else {
                assert(syms@[i + 1] == old_syms[i]);
            }
        }
    }
}

/// The distinct symbols of the transactions, in ascending order.
fn sorted_symbols(txs: &Vec<Transaction>) -> (syms: Vec<String>)
    ensures
        strictly_ascending(syms@),
        forall|t: Seq<char>| #[trigger] has_text(syms@, t) <==> has_symbol(txs@, t),
{
    let mut syms: Vec<String> = Vec::new();
    let n = txs.len();
    let mut k: usize = 0;
    while k < n
        invariant
            n == txs@.len(),
            k <= n,
            strictly_ascending(syms@),
            forall|t: Seq<char>| #[trigger] has_text(syms@, t) <==> has_symbol(txs@.take(k as int), t),
        decreases n - k,
    {
        let ghost before = syms@;
        insert_symbol(&mut syms, &txs[k].symbol);
        proof {
            let prefix = txs@.take(k + 1);
            assert forall|t: Seq<char>| #[trigger] has_symbol(prefix, t) <==> (has_symbol(txs@.take(k as int), t) || t == txs@[k as int].symbol@) by {
                if has_symbol(prefix, t) {
                    let q = choose|q: int| 0 <= q < prefix.len() && prefix[q].symbol@ == t;
                    if q < k {
                        assert(txs@.take(k as int)[q] == prefix[q]);
                    }
                }
                if has_symbol(txs@.take(k as int), t) {
                    let q = choose|q: int| 0 <= q < k && txs@.take(k as int)[q].symbol@ == t;
                    assert(prefix[q] == txs@.take(k as int)[q]);
                }
                if t == txs@[k as int].symbol@ {
                    assert(prefix[k as int] == txs@[k as int]);
                }
            }
            assert forall|t: Seq<char>| #[trigger] has_text(syms@, t) <==> has_symbol(txs@.take(k + 1), t) by {
                assert(has_text(syms@, t) <==> (has_text(before, t) || t == txs@[k as int].symbol@));
                assert(has_symbol(txs@.take(k + 1), t) <==> (has_symbol(txs@.take(k as int), t) || t == txs@[k as int].symbol@));
            }
        }
        k = k + 1;
    }
    assert(txs@.take(n as int) =~= txs@);
    syms
}

/// The position in `symbol` after `ordered`, taken in the order given.
#[verifier::rlimit(60)]
fn position_in(ordered: &Vec<Transaction>, symbol: &String) -> (r: Result<Option<Holding>, LedgerError>)
    requires
        forall|k: int| 0 <= k < ordered@.len() ==> (#[trigger] ordered@[k]).wf(),
    ensures
        match r {
            Ok(p) => position(ordered@, symbol@) == Some(p) && (p matches Some(h) ==> h.wf()),
            Err(_) => position(ordered@, symbol@) is None,
        },
        r matches Ok(Some(h)) ==> forall|q: int|
            #[trigger] shares_fit(ordered@, symbol@, q) ==> at_scale(h.total_shares, q) == net_shares(
                ordered@,
                symbol@,
                q,
            ),
        r matches Ok(Some(h)) ==> forall|q: int|
            #[trigger] costs_fit(ordered@, symbol@, q) ==> at_scale(h.total_cost, q) == bought_cost(
                ordered@,
                symbol@,
                q,
            ),
        r matches Ok(Some(h)) ==> forall|q: int|
            #[trigger] gains_fit(ordered@, symbol@, q) ==> at_scale(h.realized_gain, q) == realized_sum(
                ordered@,
                symbol@,
                q,
            ),
        r matches Ok(Some(h)) ==> forall|q: int|
            #[trigger] trades_fit(ordered@, symbol@, q) ==> at_scale(h.total_cost, q) == invested_cost(
                ordered@,
                symbol@,
                q,
            ),
{
    let mut current: Option<Holding> = None;
    let n = ordered.len();
    for k in 0..n
        invariant
            n == ordered@.len(),
            forall|q: int| 0 <= q < ordered@.len() ==> (#[trigger] ordered@[q]).wf(),
            position(ordered@.take(k as int), symbol@) == Some(current),
            current matches Some(h) ==> h.wf(),
            forall|q: int|
                #[trigger] shares_fit(ordered@, symbol@, q) ==> (current matches Some(h) ==> h.total_shares.scale <= q
                    && at_scale(h.total_shares, q) == net_shares(ordered@.take(k as int), symbol@, q)),
            forall|q: int|
                #[trigger] costs_fit(ordered@, symbol@, q) ==> (current matches Some(h) ==> h.total_cost.scale <= q
                    && at_scale(h.total_cost, q) == bought_cost(ordered@.take(k as int), symbol@, q)),
            forall|q: int|
                #[trigger] gains_fit(ordered@, symbol@, q) ==> (current matches Some(h) ==> h.realized_gain.scale
                    <= q && at_scale(h.realized_gain, q) == realized_sum(ordered@.take(k as int), symbol@, q)),
            forall|q: int|
                #[trigger] trades_fit(ordered@, symbol@, q) ==> (current matches Some(h) ==> h.total_cost.scale
                    <= q && at_scale(h.total_cost, q) == invested_cost(ordered@.take(k as int), symbol@, q)),
    {
        let tx = &ordered[k];
        assert(ordered@.take(k + 1).drop_last() =~= ordered@.take(k as int));
        assert(ordered@.take(k + 1).last() == ordered@[k as int]);
        if text_equal(tx.symbol.as_str(), symbol.as_str()) {
            let ghost prior = current;
            let h = match current {
                Some(h) => h,
                None => open_holding(tx),
            };
            match apply_transaction(h, tx) {
                Some(h2) => {
                    proof {
                        assert forall|q: int| #[trigger] shares_fit(ordered@, symbol@, q) implies h2.total_shares.scale
                            <= q && at_scale(h2.total_shares, q) == net_shares(ordered@.take(k + 1), symbol@, q) by {
                            assert(ordered@[k as int].symbol@ == symbol@);
                            assert(ordered@[k as int].shares.scale <= q);
                            assert(fits(net_shares(ordered@.take(k + 1), symbol@, q)));
                            if prior is None {
                                lemma_closed_position_no_shares(ordered@.take(k as int), symbol@, q);
                                assert(h == opening(*tx));
                                assert(at_scale(h.total_shares, q) == 0);
                            }
                            assert(shares_exact_at(h, *tx, q));
                        }
                        assert forall|q: int| #[trigger] costs_fit(ordered@, symbol@, q) implies h2.total_cost.scale
                            <= q && at_scale(h2.total_cost, q) == bought_cost(ordered@.take(k + 1), symbol@, q) by {
                            assert(ordered@[k as int].symbol@ == symbol@);
                            if prior is None {
                                lemma_closed_position_no_cost(ordered@.take(k as int), symbol@, q);
                                assert(h == opening(*tx));
                                assert(at_scale(h.total_cost, q) == 0);
                            }
                            if kind_of(tx.transaction_type@) == TransactionKind::Buy {
                                assert(fits(bought_cost(ordered@.take(k + 1), symbol@, q)));
                                assert(buy_cost_exact_at(h, *tx, q));
                            }
                        }
                        assert forall|q: int| #[trigger] gains_fit(ordered@, symbol@, q) implies h2.realized_gain.scale
                            <= q && at_scale(h2.realized_gain, q) == realized_sum(ordered@.take(k + 1), symbol@, q) by {
                            assert(ordered@[k as int].symbol@ == symbol@);
                            assert(ordered@.take(k + 1).take(k as int) =~= ordered@.take(k as int));
                            assert(h == held(prior, *tx));
                            if prior is None {
                                lemma_closed_position_no_gain(ordered@.take(k as int), symbol@, q);
                                assert(at_scale(h.realized_gain, q) == 0);
                            }
                            if kind_of(tx.transaction_type@) == TransactionKind::Sell {
                                assert(sell_exact_at(h, *tx, q));
                            } else if kind_of(tx.transaction_type@) == TransactionKind::Dividend {
                                assert(dividend_exact_at(h, *tx, q));
                            }
                        }
                        assert forall|q: int| #[trigger] trades_fit(ordered@, symbol@, q) implies h2.total_cost.scale
                            <= q && at_scale(h2.total_cost, q) == invested_cost(ordered@.take(k + 1), symbol@, q) by {
                            assert(ordered@[k as int].symbol@ == symbol@);
                            assert(ordered@.take(k + 1).take(k as int) =~= ordered@.take(k as int));
                            assert(h == held(prior, *tx));
                            assert(position(ordered@.take(k + 1), symbol@) == Some(Some(h2)));
                            if prior is None {
                                lemma_closed_position_no_investment(ordered@.take(k as int), symbol@, q);
                                assert(at_scale(h.total_cost, q) == 0);
                            }
                            if kind_of(tx.transaction_type@) == TransactionKind::Buy {
                                assert(buy_cost_exact_at(h, *tx, q));
                            } else if kind_of(tx.transaction_type@) == TransactionKind::Sell {
                                assert(sell_exact_at(h, *tx, q));
                            }
                        }
                    }
                    current = Some(h2);
                },
                None => {
                    proof {
                        assert(position(ordered@.take(k + 1), symbol@) is None);
                        lemma_position_stays_overflowed(ordered@, symbol@, k + 1);
                    }
                    return Err(LedgerError::ArithmeticOverflow);
                },
            }
        }
    }
    assert(ordered@.take(n as int) =~= ordered@);
    Ok(current)
}

/// While no transaction has opened a position, nothing is invested.
proof fn lemma_closed_position_no_investment(txs: Seq<Transaction>, symbol: Seq<char>, q: int)
    requires
        position(txs, symbol) == Some(None::<Holding>),
    ensures
        invested_cost(txs, symbol, q) == 0,
    decreases txs.len(),
{
    if txs.len() > 0 {
        lemma_closed_position_no_investment(txs.drop_last(), symbol, q);
    }
}

/// While no transaction has opened a position, nothing has been realized.
proof fn lemma_closed_position_no_gain(txs: Seq<Transaction>, symbol: Seq<char>, q: int)
    requires
        position(txs, symbol) == Some(None::<Holding>),
    ensures
        realized_sum(txs, symbol, q) == 0,
    decreases txs.len(),
{
    if txs.len() > 0 {
        lemma_closed_position_no_gain(txs.drop_last(), symbol, q);
    }
}

/// While no transaction has opened a position, nothing has been bought.
proof fn lemma_closed_position_no_cost(txs: Seq<Transaction>, symbol: Seq<char>, q: int)
    requires
        position(txs, symbol) == Some(None::<Holding>),
    ensures
        bought_cost(txs, symbol, q) == 0,
    decreases txs.len(),
{
    if txs.len() > 0 {
        lemma_closed_position_no_cost(txs.drop_last(), symbol, q);
    }
}

/// While no transaction has opened a position, no shares are held.
proof fn lemma_closed_position_no_shares(txs: Seq<Transaction>, symbol: Seq<char>, q: int)
    requires
        position(txs, symbol) == Some(None::<Holding>),
    ensures
        net_shares(txs, symbol, q) == 0,
    decreases txs.len(),
{
    if txs.len() > 0 {
        lemma_closed_position_no_shares(txs.drop_last(), symbol, q);
    }
}

proof fn lemma_position_stays_overflowed(txs: Seq<Transaction>, symbol: Seq<char>, k: int)
    requires
        0 <= k <= txs.len(),
        position(txs.take(k), symbol) is None,
    ensures
        position(txs, symbol) is None,
    decreases txs.len() - k,
{
    if k < txs.len() {
        assert(txs.take(k + 1).drop_last() =~= txs.take(k));
        lemma_position_stays_overflowed(txs, symbol, k + 1);
    } else {
        assert(txs.take(k) =~= txs);
    }
}

/// Some holding of `holdings` is in `symbol`.
pub open spec fn lists_symbol(holdings: Seq<Holding>, symbol: Seq<char>) -> bool {
    exists|a: int| 0 <= a < holdings.len() && holdings[a].symbol@ == symbol
}

/// The open positions of a portfolio from its transactions: transactions are
/// taken in date order (those of one date in the order given), grouped by
/// symbol, and a holding is kept for each symbol with a positive number of
/// shares, in ascending order of symbol. A decimal overflow in any symbol's
/// position is an error.
pub fn calculate_holdings(transactions: Vec<Transaction>) -> (r: Result<Vec<Holding>, LedgerError>)
    requires
        forall|k: int| 0 <= k < transactions@.len() ==> (#[trigger] transactions@[k]).wf(),
    ensures
        r is Err <==> ledger_overflows(transactions@),
        r matches Ok(hs) ==> holdings_of(transactions@, hs@),
        r matches Ok(hs) ==> forall|i: int| 0 <= i < hs@.len() ==> (#[trigger] hs@[i]).wf(),
        r matches Ok(hs) ==> forall|i: int, k: int|
            #![trigger shares_fit(chronological(transactions@), hs@[i].symbol@, k)]
            0 <= i < hs@.len() && shares_fit(chronological(transactions@), hs@[i].symbol@, k) ==> at_scale(
                hs@[i].total_shares,
                k,
            ) == net_shares(chronological(transactions@), hs@[i].symbol@, k),
        r matches Ok(hs) ==> forall|i: int, k: int|
            #![trigger costs_fit(chronological(transactions@), hs@[i].symbol@, k)]
            0 <= i < hs@.len() && costs_fit(chronological(transactions@), hs@[i].symbol@, k) ==> at_scale(
                hs@[i].total_cost,
                k,
            ) == bought_cost(chronological(transactions@), hs@[i].symbol@, k),
        r matches Ok(hs) ==> forall|i: int, k: int|
            #![trigger gains_fit(chronological(transactions@), hs@[i].symbol@, k)]
            0 <= i < hs@.len() && gains_fit(chronological(transactions@), hs@[i].symbol@, k) ==> at_scale(
                hs@[i].realized_gain,
                k,
            ) == realized_sum(chronological(transactions@), hs@[i].symbol@, k),
        r matches Ok(hs) ==> forall|i: int, k: int|
            #![trigger trades_fit(chronological(transactions@), hs@[i].symbol@, k)]
            0 <= i < hs@.len() && trades_fit(chronological(transactions@), hs@[i].symbol@, k) ==> at_scale(
                hs@[i].total_cost,
                k,
            ) == invested_cost(chronological(transactions@), hs@[i].symbol@, k),
{
    let ghost txs = transactions@;
    proof {
        lemma_stable_order_keeps(txs, by_date(), |t: Transaction| t.wf());
    }
    let ordered = order_by_date(transactions);
    assert(forall|k: int| 0 <= k < ordered@.len() ==> (#[trigger] ordered@[k]).wf());
    let syms = sorted_symbols(&ordered);
    let mut out: Vec<Holding> = Vec::new();
    let m = syms.len();
    let mut i: usize = 0;
    while i < m
        invariant
            m == syms@.len(),
            i <= m,
            txs == transactions@,
            ordered@ == chronological(txs),
            forall|k: int| 0 <= k < ordered@.len() ==> (#[trigger] ordered@[k]).wf(),
            strictly_ascending(syms@),
            forall|t: Seq<char>| #[trigger] has_text(syms@, t) <==> has_symbol(ordered@, t),
            forall|a: int, b: int| 0 <= a < b < out@.len() ==> text_lt(#[trigger] out@[a].symbol@, #[trigger] out@[b].symbol@),
            forall|a: int| 0 <= a < out@.len() ==> {
                &&& position(ordered@, #[trigger] out@[a].symbol@) == Some(Some(out@[a]))
                &&& out@[a].total_shares.positive()
                &&& out@[a].wf()
            },
            forall|a: int, b: int| 0 <= a < out@.len() && i <= b < m ==> text_lt(#[trigger] out@[a].symbol@, #[trigger] syms@[b]@),
            forall|a: int, q: int|
                #![trigger shares_fit(ordered@, out@[a].symbol@, q)]
                0 <= a < out@.len() && shares_fit(ordered@, out@[a].symbol@, q) ==> at_scale(out@[a].total_shares, q)
                    == net_shares(ordered@, out@[a].symbol@, q),
            forall|a: int, q: int|
                #![trigger costs_fit(ordered@, out@[a].symbol@, q)]
                0 <= a < out@.len() && costs_fit(ordered@, out@[a].symbol@, q) ==> at_scale(out@[a].total_cost, q)
                    == bought_cost(ordered@, out@[a].symbol@, q),
            forall|a: int, q: int|
                #![trigger gains_fit(ordered@, out@[a].symbol@, q)]
                0 <= a < out@.len() && gains_fit(ordered@, out@[a].symbol@, q) ==> at_scale(out@[a].realized_gain, q)
                    == realized_sum(ordered@, out@[a].symbol@, q),
            forall|a: int, q: int|
                #![trigger trades_fit(ordered@, out@[a].symbol@, q)]
                0 <= a < out@.len() && trades_fit(ordered@, out@[a].symbol@, q) ==> at_scale(out@[a].total_cost, q)
                    == invested_cost(ordered@, out@[a].symbol@, q),
            forall|b: int| 0 <= b < i ==> (#[trigger] position(ordered@, syms@[b]@)) is Some,
            forall|b: int| 0 <= b < i ==> match #[trigger] position(ordered@, syms@[b]@) {
                Some(Some(h)) => h.total_shares.positive() ==> lists_symbol(out@, syms@[b]@),
                _ => true,
            },
        decreases m - i,
    {
        let found = position_in(&ordered, &syms[i]);
        match found {
            Err(e) => {
                proof {
                    assert(has_text(syms@, syms@[i as int]@));
                    let k = choose|k: int| 0 <= k < ordered@.len() && ordered@[k].symbol@ == syms@[i as int]@;
                    assert(position(ordered@, ordered@[k].symbol@) is None);
                    assert(ledger_overflows(txs));
                }
                return Err(e);
            },
            Ok(None) => {},
            Ok(Some(h)) => {
                if h.total_shares.is_positive() {
                    proof {
                        lemma_position_symbol(ordered@, syms@[i as int]@);
                    }
                    let ghost old_out = out@;
                    out.push(h);
                    proof {
                        assert(out@[old_out.len() as int].symbol@ == syms@[i as int]@);
                        assert forall|a: int, b: int| 0 <= a < b < out@.len() implies text_lt(
                            #[trigger] out@[a].symbol@,
                            #[trigger] out@[b].symbol@,
                        ) by {
                            assert(out@[a] == old_out[a]);
                            if b < old_out.len() {
                                assert(out@[b] == old_out[b]);
                            } else {
                                assert(text_lt(old_out[a].symbol@, syms@[i as int]@));
                            }
                        }
                        assert forall|a: int| 0 <= a < out@.len() implies {
                            &&& position(ordered@, #[trigger] out@[a].symbol@) == Some(Some(out@[a]))
                            &&& out@[a].total_shares.positive()
                            &&& out@[a].wf()
                        } by {
                            if a < old_out.len() {
                                assert(out@[a] == old_out[a]);
                            }
                        }
                        assert forall|a: int, q: int|
                            #![trigger shares_fit(ordered@, out@[a].symbol@, q)]
                            0 <= a < out@.len() && shares_fit(ordered@, out@[a].symbol@, q) implies at_scale(
                                out@[a].total_shares,
                                q,
                            ) == net_shares(ordered@, out@[a].symbol@, q) by {
                            if a < old_out.len() {
                                assert(out@[a] == old_out[a]);
                            } else {
                                assert(out@[a] == h);
                                assert(shares_fit(ordered@, syms@[i as int]@, q));
                            }
                        }
                        assert forall|a: int, q: int|
                            #![trigger trades_fit(ordered@, out@[a].symbol@, q)]
                            0 <= a < out@.len() && trades_fit(ordered@, out@[a].symbol@, q) implies at_scale(
                                out@[a].total_cost,
                                q,
                            ) == invested_cost(ordered@, out@[a].symbol@, q) by {
                            if a < old_out.len() {
                                assert(out@[a] == old_out[a]);
                            } else {
                                assert(out@[a] == h);
                                assert(trades_fit(ordered@, syms@[i as int]@, q));
                            }
                        }
                        assert forall|a: int, q: int|
                            #![trigger gains_fit(ordered@, out@[a].symbol@, q)]
                            0 <= a < out@.len() && gains_fit(ordered@, out@[a].symbol@, q) implies at_scale(
                                out@[a].realized_gain,
                                q,
                            ) == realized_sum(ordered@, out@[a].symbol@, q) by {
                            if a < old_out.len() {
                                assert(out@[a] == old_out[a]);
                            } else {
                                assert(out@[a] == h);
                                assert(gains_fit(ordered@, syms@[i as int]@, q));
                            }
                        }
                        assert forall|a: int, q: int|
                            #![trigger costs_fit(ordered@, out@[a].symbol@, q)]
                            0 <= a < out@.len() && costs_fit(ordered@, out@[a].symbol@, q) implies at_scale(
                                out@[a].total_cost,
                                q,
                            ) == bought_cost(ordered@, out@[a].symbol@, q) by {
                            if a < old_out.len() {
                                assert(out@[a] == old_out[a]);
                            } else {
                                assert(out@[a] == h);
                                assert(costs_fit(ordered@, syms@[i as int]@, q));
                            }
                        }
                        assert forall|a: int, b: int| 0 <= a < out@.len() && i + 1 <= b < m implies text_lt(
                            #[trigger] out@[a].symbol@,
                            #[trigger] syms@[b]@,
                        ) by {
                            if a < old_out.len() {
                                assert(out@[a] == old_out[a]);
                                assert(text_lt(old_out[a].symbol@, syms@[b]@));
                            } else {
                                assert(text_lt(syms@[i as int]@, syms@[b]@));
                            }
                        }
                        assert forall|b: int| 0 <= b < i + 1 implies match #[trigger] position(ordered@, syms@[b]@) {
                            Some(Some(h)) => h.total_shares.positive() ==> lists_symbol(out@, syms@[b]@),
                            _ => true,
                        } by {
                            if b < i {
                                if position(ordered@, syms@[b]@) matches Some(Some(h)) && h.total_shares.positive() {
                                    assert(lists_symbol(old_out, syms@[b]@));
                                    let a = choose|a: int| 0 <= a < old_out.len() && old_out[a].symbol@ == syms@[b]@;
                                    assert(out@[a] == old_out[a]);
                                }
                            } else {
                                assert(out@[old_out.len() as int].symbol@ == syms@[b]@);
                            }
                        }
                    }
                }
            },
        }
        i = i + 1;
    }
    proof {
        assert forall|k: int| 0 <= k < ordered@.len() implies (#[trigger] position(ordered@, ordered@[k].symbol@)) is Some
            && match position(ordered@, ordered@[k].symbol@) {
                Some(Some(h)) => h.total_shares.positive() ==> lists_symbol(out@, ordered@[k].symbol@),
                _ => true,
            } by {
            assert(has_symbol(ordered@, ordered@[k].symbol@));
            assert(has_text(syms@, ordered@[k].symbol@));
            let b = choose|b: int| 0 <= b < syms@.len() && syms@[b]@ == ordered@[k].symbol@;
            assert(position(ordered@, syms@[b]@) is Some);
        }
        assert forall|a: int| 0 <= a < out@.len() implies (#[trigger] out@[a]).wf() by {
            assert(position(ordered@, out@[a].symbol@) == Some(Some(out@[a])));
        }
    }
    Ok(out)
}


/// A sale that leaves shares held does not change the average cost, the
/// symbol or the name.
pub proof fn lemma_sell_keeps_average_cost(h: Holding, tx: Transaction)
    requires
        kind_of(tx.transaction_type@) == TransactionKind::Sell,
        apply(h, tx) matches Some(after) && after.total_shares.positive(),
    ensures
        apply(h, tx)->Some_0.avg_cost == h.avg_cost,
        apply(h, tx)->Some_0.symbol == h.symbol,
        apply(h, tx)->Some_0.name == h.name,
{
}

/// A sale that leaves no shares clears the average cost and the invested
/// cost.
pub proof fn lemma_sell_out_clears_cost(h: Holding, tx: Transaction)
    requires
        kind_of(tx.transaction_type@) == TransactionKind::Sell,
        apply(h, tx) matches Some(after) && !after.total_shares.positive(),
    ensures
        apply(h, tx)->Some_0.avg_cost == zero(),
        apply(h, tx)->Some_0.total_cost == zero(),
{
}

/// After a purchase that leaves shares held, the average cost is the
/// invested cost over the shares held.
pub proof fn lemma_buy_sets_average_cost(h: Holding, tx: Transaction)
    requires
        kind_of(tx.transaction_type@) == TransactionKind::Buy,
        apply(h, tx) matches Some(after) && after.total_shares.positive(),
    ensures
        Some(apply(h, tx)->Some_0.avg_cost) == quotient(apply(h, tx)->Some_0.total_cost, apply(h, tx)->Some_0.total_shares),
{
}

/// A dividend changes only the realized gain.
pub proof fn lemma_dividend_changes_only_gain(h: Holding, tx: Transaction)
    requires
        kind_of(tx.transaction_type@) == TransactionKind::Dividend,
        apply(h, tx) is Some,
    ensures
        apply(h, tx)->Some_0 == (Holding { realized_gain: apply(h, tx)->Some_0.realized_gain, ..h }),
{
}

/// A transaction of any other type leaves the holding as it is.
pub proof fn lemma_other_type_no_effect(h: Holding, tx: Transaction)
    requires
        kind_of(tx.transaction_type@) == TransactionKind::Other,
    ensures
        apply(h, tx) == Some(h),
{
}

/// The transaction is in `symbol`.
pub open spec fn of_symbol(symbol: Seq<char>) -> spec_fn(Transaction) -> bool {
    |t: Transaction| t.symbol@ == symbol
}

/// The transactions of one symbol alone decide its position: those of other
/// symbols can be left out.
pub proof fn lemma_position_of_symbol_alone(txs: Seq<Transaction>, symbol: Seq<char>)
    ensures
        position(txs, symbol) == position(txs.filter(of_symbol(symbol)), symbol),
    decreases txs.len(),
{
    reveal_with_fuel(Seq::filter, 1);
    if txs.len() > 0 {
        lemma_position_of_symbol_alone(txs.drop_last(), symbol);
        let f = txs.drop_last().filter(of_symbol(symbol));
        if txs.last().symbol@ == symbol {
            let g = txs.filter(of_symbol(symbol));
            assert(g == f.push(txs.last()));
            assert(g.drop_last() =~= f);
        } else {
            assert(txs.filter(of_symbol(symbol)) == f);
        }
    }
}

/// Dates are ordered totally and consistently.
pub proof fn lemma_by_date_total_preorder()
    ensures
        total_preorder(by_date()),
{
    assert forall|a: Transaction, b: Transaction| #[trigger] (by_date())(a, b) || #[trigger] (by_date())(b, a) by {
        crate::text::lemma_text_le_total_order(a.date@, b.date@, a.date@);
    }
    assert forall|a: Transaction, b: Transaction, c: Transaction|
        #[trigger] (by_date())(a, b) && #[trigger] (by_date())(b, c) implies (by_date())(a, c) by {
        crate::text::lemma_text_le_total_order(a.date@, b.date@, c.date@);
    }
}

/// Transactions in date order are sorted by date and are the same
/// transactions as those given.
pub proof fn lemma_chronological_is_sorted_permutation(txs: Seq<Transaction>)
    ensures
        forall|i: int, j: int|
            0 <= i < j < chronological(txs).len() ==> dated_no_later(
                #[trigger] chronological(txs)[i],
                #[trigger] chronological(txs)[j],
            ),
        chronological(txs).to_multiset() == txs.to_multiset(),
{
    lemma_by_date_total_preorder();
    lemma_stable_order_sorted_permutation(txs, by_date());
}

/// Holdings list each symbol at most once.
pub proof fn lemma_holdings_distinct(txs: Seq<Transaction>, holdings: Seq<Holding>)
    requires
        holdings_of(txs, holdings),
    ensures
        forall|i: int, j: int|
            0 <= i < holdings.len() && 0 <= j < holdings.len() && i != j ==> holdings[i].symbol@ != holdings[j].symbol@,
{
    assert forall|i: int, j: int|
        0 <= i < holdings.len() && 0 <= j < holdings.len() && i != j implies holdings[i].symbol@ != holdings[j].symbol@ by {
        if i < j {
            assert(text_lt(holdings[i].symbol@, holdings[j].symbol@));
        } else {
            assert(text_lt(holdings[j].symbol@, holdings[i].symbol@));
        }
    }
}

/// A position is open only where some transaction is in its symbol.
pub proof fn lemma_position_has_symbol(txs: Seq<Transaction>, symbol: Seq<char>)
    ensures
        position(txs, symbol) matches Some(Some(h)) ==> has_symbol(txs, symbol),
    decreases txs.len(),
{
    if txs.len() > 0 {
        lemma_position_has_symbol(txs.drop_last(), symbol);
        if position(txs.drop_last(), symbol) matches Some(Some(h)) {
            let k = choose|k: int| 0 <= k < txs.drop_last().len() && txs.drop_last()[k].symbol@ == symbol;
            assert(txs[k] == txs.drop_last()[k]);
        }
        if txs.last().symbol@ == symbol {
            assert(txs[txs.len() - 1].symbol@ == symbol);
        }
    }
}

proof fn lemma_ascending_same_symbols(a: Seq<Holding>, b: Seq<Holding>)
    requires
        forall|i: int, j: int| 0 <= i < j < a.len() ==> text_lt(#[trigger] a[i].symbol@, #[trigger] a[j].symbol@),
        forall|i: int, j: int| 0 <= i < j < b.len() ==> text_lt(#[trigger] b[i].symbol@, #[trigger] b[j].symbol@),
        forall|t: Seq<char>| #[trigger] lists_symbol(a, t) <==> lists_symbol(b, t),
    ensures
        a.len() == b.len(),
        forall|i: int| 0 <= i < a.len() ==> (#[trigger] a[i]).symbol@ == b[i].symbol@,
    decreases a.len(),
{
    if a.len() == 0 {
        if b.len() > 0 {
            assert(lists_symbol(b, b[0].symbol@));
            assert(lists_symbol(a, b[0].symbol@) <==> lists_symbol(b, b[0].symbol@));
        }
    } else {
        assert(lists_symbol(a, a[0].symbol@));
        assert(b.len() > 0);
        assert(lists_symbol(b, b[0].symbol@));
        assert(lists_symbol(a, b[0].symbol@) <==> lists_symbol(b, b[0].symbol@));
        assert(lists_symbol(a, a[0].symbol@) <==> lists_symbol(b, a[0].symbol@));
        let j = choose|j: int| 0 <= j < b.len() && b[j].symbol@ == a[0].symbol@;
        let i = choose|i: int| 0 <= i < a.len() && a[i].symbol@ == b[0].symbol@;
        if j > 0 {
            assert(text_lt(b[0].symbol@, b[j].symbol@));
            if i > 0 {
                assert(text_lt(a[0].symbol@, a[i].symbol@));
                crate::text::lemma_text_le_total_order(a[0].symbol@, b[0].symbol@, a[0].symbol@);
            }
        }
        let a2 = a.drop_first();
        let b2 = b.drop_first();
        assert forall|t: Seq<char>| #[trigger] lists_symbol(a2, t) <==> lists_symbol(b2, t) by {
            if lists_symbol(a2, t) {
                let p = choose|p: int| 0 <= p < a2.len() && a2[p].symbol@ == t;
                assert(text_lt(a[0].symbol@, a[p + 1].symbol@));
                assert(lists_symbol(a, t));
                let q = choose|q: int| 0 <= q < b.len() && b[q].symbol@ == t;
                if q == 0 {
                    crate::text::lemma_text_le_total_order(a[0].symbol@, t, a[0].symbol@);
                }
                assert(b2[q - 1].symbol@ == t);
            }
            if lists_symbol(b2, t) {
                let p = choose|p: int| 0 <= p < b2.len() && b2[p].symbol@ == t;
                assert(text_lt(b[0].symbol@, b[p + 1].symbol@));
                assert(lists_symbol(b, t));
                assert(lists_symbol(a, t) <==> lists_symbol(b, t));
                let q = choose|q: int| 0 <= q < a.len() && a[q].symbol@ == t;
                if q == 0 {
                    crate::text::lemma_text_le_total_order(b[0].symbol@, t, b[0].symbol@);
                }
                assert(a2[q - 1].symbol@ == t);
            }
        }
        lemma_ascending_same_symbols(a2, b2);
        assert forall|k: int| 0 <= k < a.len() implies (#[trigger] a[k]).symbol@ == b[k].symbol@ by {
            if k > 0 {
                assert(a2[k - 1] == a[k]);
                assert(b2[k - 1] == b[k]);
            }
        }
    }
}

/// The transactions decide the holdings: two lists that are both the
/// holdings of the same transactions are equal.
pub proof fn lemma_holdings_unique(txs: Seq<Transaction>, a: Seq<Holding>, b: Seq<Holding>)
    requires
        holdings_of(txs, a),
        holdings_of(txs, b),
    ensures
        a == b,
{
    let ordered = chronological(txs);
    assert forall|t: Seq<char>| #[trigger] lists_symbol(a, t) <==> lists_symbol(b, t) by {
        if lists_symbol(a, t) {
            let i = choose|i: int| 0 <= i < a.len() && a[i].symbol@ == t;
            assert(position(ordered, a[i].symbol@) == Some(Some(a[i])));
            lemma_position_has_symbol(ordered, t);
            let k = choose|k: int| 0 <= k < ordered.len() && ordered[k].symbol@ == t;
            assert(position(ordered, ordered[k].symbol@) == Some(Some(a[i])));
        }
        if lists_symbol(b, t) {
            let i = choose|i: int| 0 <= i < b.len() && b[i].symbol@ == t;
            assert(position(ordered, b[i].symbol@) == Some(Some(b[i])));
            lemma_position_has_symbol(ordered, t);
            let k = choose|k: int| 0 <= k < ordered.len() && ordered[k].symbol@ == t;
            assert(position(ordered, ordered[k].symbol@) == Some(Some(b[i])));
        }
    }
    lemma_ascending_same_symbols(a, b);
    assert forall|i: int| 0 <= i < a.len() implies a[i] == b[i] by {
        assert(position(ordered, a[i].symbol@) == Some(Some(a[i])));
        assert(position(ordered, b[i].symbol@) == Some(Some(b[i])));
    }
    assert(a =~= b);
}

/// Two holdings that agree in shares, invested cost and average cost still
/// agree in them after the same transaction, whatever their realized gains.
proof fn lemma_apply_ignores_gain(x: Holding, y: Holding, t: Transaction)
    requires
        x.total_shares == y.total_shares,
        x.total_cost == y.total_cost,
        x.avg_cost == y.avg_cost,
    ensures
        apply(x, t) matches Some(x2) ==> (apply(y, t) matches Some(y2) ==> x2.total_shares == y2.total_shares
            && x2.total_cost == y2.total_cost && x2.avg_cost == y2.avg_cost),
{
}

/// How the positions with and without an extra dividend relate: where both
/// are open they agree in shares, invested cost and average cost; where only
/// the one with the dividend is open, it holds nothing.
pub open spec fn agree_but_gain(with: Option<Option<Holding>>, without: Option<Option<Holding>>) -> bool {
    match (with, without) {
        (Some(Some(x)), Some(Some(y))) => x.total_shares == y.total_shares && x.total_cost == y.total_cost
            && x.avg_cost == y.avg_cost,
        (Some(Some(x)), Some(None)) => x.total_shares == zero() && x.total_cost == zero() && x.avg_cost == zero(),
        (Some(None), Some(Some(y))) => false,
        _ => true,
    }
}

proof fn lemma_dividend_agree(before: Seq<Transaction>, d: Transaction, after: Seq<Transaction>)
    requires
        kind_of(d.transaction_type@) == TransactionKind::Dividend,
    ensures
        agree_but_gain(position(before.push(d) + after, d.symbol@), position(before + after, d.symbol@)),
    decreases after.len(),
{
    let s = d.symbol@;
    if after.len() == 0 {
        assert(before.push(d) + after =~= before.push(d));
        assert(before + after =~= before);
        assert(before.push(d).drop_last() =~= before);
    } else {
        let rest = after.drop_last();
        let t = after.last();
        lemma_dividend_agree(before, d, rest);
        assert((before.push(d) + after).drop_last() =~= before.push(d) + rest);
        assert((before + after).drop_last() =~= before + rest);
        assert((before.push(d) + after).last() == t);
        assert((before + after).last() == t);
        if t.symbol@ == s {
            let pw = position(before.push(d) + rest, s);
            let po = position(before + rest, s);
            if let (Some(Some(x)), Some(Some(y))) = (pw, po) {
                lemma_apply_ignores_gain(x, y, t);
            } else if let (Some(Some(x)), Some(None)) = (pw, po) {
                lemma_apply_ignores_gain(x, opening(t), t);
            }
        }
    }
}

/// A dividend changes nothing but the realized gain of its symbol's
/// position, wherever it falls among the other transactions: with it and
/// without it the position holds the same shares at the same invested and
/// average cost; where only the position with it is open, that one holds
/// nothing; and it never leaves a position unopened that is open without it.
pub proof fn lemma_dividend_changes_only_gain_anywhere(before: Seq<Transaction>, d: Transaction, after: Seq<Transaction>)
    requires
        kind_of(d.transaction_type@) == TransactionKind::Dividend,
    ensures
        position(before.push(d) + after, d.symbol@) matches Some(Some(h1)) ==> (position(before + after, d.symbol@) matches Some(
            Some(h0),
        ) ==> h1.total_shares == h0.total_shares && h1.total_cost == h0.total_cost && h1.avg_cost == h0.avg_cost),
        position(before.push(d) + after, d.symbol@) matches Some(Some(h1)) ==> (position(before + after, d.symbol@)
            == Some(None::<Holding>) ==> h1.total_shares == zero()),
        position(before + after, d.symbol@) matches Some(Some(h0)) ==> position(before.push(d) + after, d.symbol@)
            != Some(None::<Holding>),
{
    lemma_dividend_agree(before, d, after);
}

/// Recording a dividend, on whatever date, leaves every holding of its
/// symbol with the same shares, invested cost and average cost, and lists
/// the same symbols: only the realized gain can change.
pub proof fn lemma_holdings_after_dividend(
    txs: Seq<Transaction>,
    d: Transaction,
    before: Seq<Holding>,
    after: Seq<Holding>,
)
    requires
        kind_of(d.transaction_type@) == TransactionKind::Dividend,
        !ledger_overflows(txs),
        !ledger_overflows(txs.push(d)),
        holdings_of(txs, before),
        holdings_of(txs.push(d), after),
    ensures
        lists_symbol(before, d.symbol@) <==> lists_symbol(after, d.symbol@),
        forall|i: int, j: int|
            0 <= i < before.len() && 0 <= j < after.len() && before[i].symbol@ == d.symbol@ && after[j].symbol@
                == d.symbol@ ==> before[i].total_shares == after[j].total_shares && before[i].total_cost
                == after[j].total_cost && before[i].avg_cost == after[j].avg_cost,
{
    let s = d.symbol@;
    let c0 = chronological(txs);
    let c1 = chronological(txs.push(d));
    assert(txs.push(d).drop_last() =~= txs);
    let j = lemma_insert_stable_splits(c0, d, by_date());
    assert(c1 == c0.take(j).push(d) + c0.skip(j));
    assert(c0.take(j) + c0.skip(j) =~= c0);
    lemma_dividend_changes_only_gain_anywhere(c0.take(j), d, c0.skip(j));
    lemma_position_has_symbol(c0, s);
    lemma_position_has_symbol(c1, s);
    assert(c1[j] == d);
    assert(position(c1, c1[j].symbol@) is Some);
    if has_symbol(c0, s) {
        let k = choose|k: int| 0 <= k < c0.len() && c0[k].symbol@ == s;
        assert(position(c0, c0[k].symbol@) is Some);
    } else {
        lemma_no_symbol_no_position(c0, s);
    }
    if lists_symbol(before, s) {
        let a = choose|a: int| 0 <= a < before.len() && before[a].symbol@ == s;
        assert(position(c0, before[a].symbol@) == Some(Some(before[a])));
        assert(position(c1, c1[j].symbol@) matches Some(Some(h)) && h.total_shares.positive());
    }
    if lists_symbol(after, s) {
        let b = choose|b: int| 0 <= b < after.len() && after[b].symbol@ == s;
        assert(position(c1, after[b].symbol@) == Some(Some(after[b])));
        assert(after[b].total_shares.positive());
        if has_symbol(c0, s) {
            let k = choose|k: int| 0 <= k < c0.len() && c0[k].symbol@ == s;
            assert(position(c0, c0[k].symbol@) matches Some(Some(h)) && h.total_shares.positive());
        }
    }
    assert forall|i: int, k: int|
        0 <= i < before.len() && 0 <= k < after.len() && before[i].symbol@ == s && after[k].symbol@ == s implies before[i].total_shares
        == after[k].total_shares && before[i].total_cost == after[k].total_cost && before[i].avg_cost
        == after[k].avg_cost by {
        assert(position(c0, before[i].symbol@) == Some(Some(before[i])));
        assert(position(c1, after[k].symbol@) == Some(Some(after[k])));
    }
}

/// Without a transaction in a symbol its position stays unopened.
proof fn lemma_no_symbol_no_position(txs: Seq<Transaction>, symbol: Seq<char>)
    requires
        !has_symbol(txs, symbol),
    ensures
        position(txs, symbol) == Some(None::<Holding>),
    decreases txs.len(),
{
    if txs.len() > 0 {
        assert(!has_symbol(txs.drop_last(), symbol)) by {
            if has_symbol(txs.drop_last(), symbol) {
                let k = choose|k: int| 0 <= k < txs.drop_last().len() && txs.drop_last()[k].symbol@ == symbol;
                assert(txs[k] == txs.drop_last()[k]);
            }
        }
        assert(txs[txs.len() - 1].symbol@ != symbol);
        lemma_no_symbol_no_position(txs.drop_last(), symbol);
    }
}

/// The net shares of a list made of two parts are those of the parts added.
proof fn lemma_net_shares_concat(a: Seq<Transaction>, b: Seq<Transaction>, symbol: Seq<char>, k: int)
    ensures
        net_shares(a + b, symbol, k) == net_shares(a, symbol, k) + net_shares(b, symbol, k),
    decreases b.len(),
{
    if b.len() == 0 {
        assert(a + b =~= a);
    } else {
        lemma_net_shares_concat(a, b.drop_last(), symbol, k);
        assert((a + b).drop_last() =~= a + b.drop_last());
        assert((a + b).last() == b.last());
    }
}

/// Putting transactions in any stable order does not change the net shares:
/// they are the shares bought less those sold, whatever the order.
pub proof fn lemma_net_shares_any_order(
    txs: Seq<Transaction>,
    stays_before: spec_fn(Transaction, Transaction) -> bool,
    symbol: Seq<char>,
    k: int,
)
    ensures
        net_shares(stable_order(txs, stays_before), symbol, k) == net_shares(txs, symbol, k),
    decreases txs.len(),
{
    if txs.len() > 0 {
        let rest = txs.drop_last();
        let x = txs.last();
        lemma_net_shares_any_order(rest, stays_before, symbol, k);
        let sorted = stable_order(rest, stays_before);
        let j = lemma_insert_stable_splits(sorted, x, stays_before);
        lemma_net_shares_concat(sorted.take(j).push(x), sorted.skip(j), symbol, k);
        lemma_net_shares_concat(sorted.take(j), sorted.skip(j), symbol, k);
        assert(sorted.take(j).push(x).drop_last() =~= sorted.take(j));
        assert(sorted.take(j) + sorted.skip(j) =~= sorted);
    }
}

/// The realized gain with an extra dividend is the one without it plus the
/// dividend's `price * shares - fee`, wherever the dividend falls, as long
/// as neither position overflowed.
pub proof fn lemma_dividend_gain_anywhere(before: Seq<Transaction>, d: Transaction, after: Seq<Transaction>, k: int)
    requires
        kind_of(d.transaction_type@) == TransactionKind::Dividend,
    ensures
        position(before.push(d) + after, d.symbol@) is Some && position(before + after, d.symbol@) is Some
            ==> realized_sum(before.push(d) + after, d.symbol@, k) == realized_sum(before + after, d.symbol@, k)
            + (gross_at(d, k) - at_scale(d.fee, k)),
    decreases after.len(),
{
    let s = d.symbol@;
    if after.len() == 0 {
        assert(before.push(d) + after =~= before.push(d));
        assert(before + after =~= before);
        assert(before.push(d).drop_last() =~= before);
    } else {
        let rest = after.drop_last();
        let t = after.last();
        lemma_dividend_gain_anywhere(before, d, rest, k);
        lemma_dividend_agree(before, d, rest);
        assert((before.push(d) + after).drop_last() =~= before.push(d) + rest);
        assert((before + after).drop_last() =~= before + rest);
        assert((before.push(d) + after).last() == t);
        assert((before + after).last() == t);
    }
}

/// Recording a dividend, on whatever date, adds its `price * shares - fee`
/// to the gain its symbol's holding realizes, where the gains of both
/// holdings are computed exactly at scale `k`.
pub proof fn lemma_dividend_adds_its_income(txs: Seq<Transaction>, d: Transaction, k: int)
    requires
        kind_of(d.transaction_type@) == TransactionKind::Dividend,
        position(chronological(txs.push(d)), d.symbol@) is Some,
        position(chronological(txs), d.symbol@) is Some,
    ensures
        realized_sum(chronological(txs.push(d)), d.symbol@, k) == realized_sum(chronological(txs), d.symbol@, k) + (
        gross_at(d, k) - at_scale(d.fee, k)),
{
    let c0 = chronological(txs);
    assert(txs.push(d).drop_last() =~= txs);
    let j = lemma_insert_stable_splits(c0, d, by_date());
    assert(c0.take(j) + c0.skip(j) =~= c0);
    lemma_dividend_gain_anywhere(c0.take(j), d, c0.skip(j), k);
}

/// The transactions of one symbol alone decide the gains it realizes: those
/// of other symbols can be left out.
pub proof fn lemma_realized_of_symbol_alone(txs: Seq<Transaction>, symbol: Seq<char>, k: int)
    ensures
        realized_sum(txs, symbol, k) == realized_sum(txs.filter(of_symbol(symbol)), symbol, k),
    decreases txs.len(),
{
    reveal_with_fuel(Seq::filter, 1);
    if txs.len() > 0 {
        let rest = txs.drop_last();
        lemma_realized_of_symbol_alone(rest, symbol, k);
        lemma_position_of_symbol_alone(rest, symbol);
        let f = rest.filter(of_symbol(symbol));
        if txs.last().symbol@ == symbol {
            let g = txs.filter(of_symbol(symbol));
            assert(g == f.push(txs.last()));
            assert(g.drop_last() =~= f);
        } else {
            assert(txs.filter(of_symbol(symbol)) == f);
        }
    }
}

/// The transactions of one symbol alone decide the cost invested in it.
pub proof fn lemma_invested_of_symbol_alone(txs: Seq<Transaction>, symbol: Seq<char>, k: int)
    ensures
        invested_cost(txs, symbol, k) == invested_cost(txs.filter(of_symbol(symbol)), symbol, k),
    decreases txs.len(),
{
    reveal_with_fuel(Seq::filter, 1);
    if txs.len() > 0 {
        let rest = txs.drop_last();
        lemma_invested_of_symbol_alone(rest, symbol, k);
        lemma_position_of_symbol_alone(rest, symbol);
        lemma_position_of_symbol_alone(txs, symbol);
        let f = rest.filter(of_symbol(symbol));
        if txs.last().symbol@ == symbol {
            let g = txs.filter(of_symbol(symbol));
            assert(g == f.push(txs.last()));
            assert(g.drop_last() =~= f);
        } else {
            assert(txs.filter(of_symbol(symbol)) == f);
        }
    }
}
} // verus!
