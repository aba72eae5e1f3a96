//! Portfolio and transaction records as they are stored: each gets a fresh
//! random identifier and the time of its creation.

use crate::amount::Amount;
use crate::ledger::Transaction;
use crate::text::decimal_string;
use vstd::prelude::*;

verus! {

/// A portfolio: a named set of transactions with target allocations kept as
/// JSON text.
#[derive(Debug, Clone)]
pub struct Portfolio {
    pub id: String,
    pub name: String,
    pub target_allocations: String,
    pub base_currency: String,
    pub created_at: String,
    pub updated_at: String,
}

/// Name of the portfolio made when there is none.
pub const DEFAULT_PORTFOLIO_NAME: &'static str = "Default Portfolio";

/// Target allocations of the portfolio made when there is none.
pub const DEFAULT_ALLOCATIONS: &'static str = "{\"Stock\": 60, \"Bond\": 30, \"Cash\": 10}";

/// Target allocations of a portfolio added from the portfolio list.
pub const NEW_PORTFOLIO_ALLOCATIONS: &'static str = "{\"Stock\": 50, \"Bond\": 30, \"Cash\": 20}";

/// Base currency of a new portfolio.
pub const BASE_CURRENCY: &'static str = "TWD";

/// Currency of a transaction entered in the form.
pub const ENTRY_CURRENCY: &'static str = "TWD";

/// An identifier is the hyphenated form of a version 4 UUID: 36 characters,
/// hyphens at 8, 13, 18 and 23, the version digit `4` at 14.
pub open spec fn is_record_id(id: Seq<char>) -> bool {
    &&& id.len() == 36
    &&& id[8] == '-'
    &&& id[13] == '-'
    &&& id[18] == '-'
    &&& id[23] == '-'
    &&& id[14] == '4'
}

/// Calls `Uuid::new_v4` and writes it in its hyphenated lower-case form. The
/// contract claims the shape of that form: 36 characters, hyphens at 8, 13,
/// 18 and 23, and the version digit `4` at 14; the other digits are random
/// and nothing is claimed of them.
#[verifier::external_body]
fn new_record_id() -> (r: String)
    ensures
        is_record_id(r@),
{
    uuid::Uuid::new_v4().to_string()
}

/// Calls `chrono::Utc::now` and writes the time in RFC 3339 form. Nothing is
/// claimed: the text is the clock's.
#[verifier::external_body]
pub(crate) fn now_rfc3339() -> String {
    chrono::Utc::now().to_rfc3339()
}

/// Calls `chrono::Utc::now` and writes its date as `YYYY-MM-DD`. Nothing is
/// claimed: the text is the clock's.
#[verifier::external_body]
fn today_utc() -> String {
    chrono::Utc::now().date_naive().to_string()
}

fn copy_text(s: &str) -> (r: String)
    ensures
        r@ == s@,
{
    s.to_owned()
}

impl Portfolio {
    /// A new portfolio with a fresh identifier, created and updated now, in
    /// the base currency.
    pub fn create(name: &str, target_allocations: &str) -> (p: Portfolio)
        ensures
            is_record_id(p.id@),
            p.name@ == name@,
            p.target_allocations@ == target_allocations@,
            p.base_currency@ == BASE_CURRENCY@,
            p.created_at@ == p.updated_at@,
    {
        let id = new_record_id();
        let now = now_rfc3339();
        Portfolio::create_with(id, now, name, target_allocations)
    }

    /// A new portfolio with the given identifier, created and updated at
    /// `now`, in the base currency.
    pub fn create_with(id: String, now: String, name: &str, target_allocations: &str) -> (p: Portfolio)
        ensures
            p.id == id,
            p.name@ == name@,
            p.target_allocations@ == target_allocations@,
            p.base_currency@ == BASE_CURRENCY@,
            p.created_at == now,
            p.updated_at@ == now@,
    {
        let updated_at = now.clone();
        Portfolio {
            id,
            name: copy_text(name),
            target_allocations: copy_text(target_allocations),
            base_currency: copy_text(BASE_CURRENCY),
            created_at: now,
            updated_at,
        }
    }

    /// The portfolio made when there is none.
    pub fn create_default() -> (p: Portfolio)
        ensures
            is_record_id(p.id@),
            p.name@ == DEFAULT_PORTFOLIO_NAME@,
            p.target_allocations@ == DEFAULT_ALLOCATIONS@,
            p.base_currency@ == BASE_CURRENCY@,
    {
        Portfolio::create(DEFAULT_PORTFOLIO_NAME, DEFAULT_ALLOCATIONS)
    }

    /// Renames the portfolio and replaces its target allocations; it is
    /// updated at `now`.
    pub fn revise_at(&mut self, name: &str, target_allocations: &str, now: String)
        ensures
            final(self).id == old(self).id,
            final(self).name@ == name@,
            final(self).target_allocations@ == target_allocations@,
            final(self).base_currency == old(self).base_currency,
            final(self).created_at == old(self).created_at,
            final(self).updated_at == now,
    {
        self.name = copy_text(name);
        self.target_allocations = copy_text(target_allocations);
        self.updated_at = now;
    }

    /// A field-by-field copy.
    pub fn duplicate(&self) -> (r: Portfolio)
        ensures
            r == *self,
    {
        Portfolio {
            id: self.id.clone(),
            name: self.name.clone(),
            target_allocations: self.target_allocations.clone(),
            base_currency: self.base_currency.clone(),
            created_at: self.created_at.clone(),
            updated_at: self.updated_at.clone(),
        }
    }
}

/// The name of the portfolio added when `count` portfolios exist:
/// `Portfolio <count + 1>`.
pub fn numbered_portfolio_name(count: u64) -> (r: String)
    requires
        count < u64::MAX,
    ensures
        r@ == "Portfolio "@ + crate::text::decimal_text(count as nat + 1),
{
    let number = decimal_string(count + 1);
    let prefix = copy_text("Portfolio ");
    prefix.concat(number.as_str())
}

/// The portfolio to start with: the first of those stored, if any.
pub fn first_portfolio(portfolios: &Vec<Portfolio>) -> (r: Option<Portfolio>)
    ensures
        portfolios@.len() == 0 ==> r is None,
        portfolios@.len() > 0 ==> r == Some(portfolios@[0]),
{
    if portfolios.len() == 0 {
        None
    } else {
        Some(portfolios[0].duplicate())
    }
}

fn copy_name(name: Option<&str>) -> (r: Option<String>)
    ensures
        name is None ==> r is None,
        name matches Some(n) ==> r matches Some(m) && m@ == n@,
{
    match name {
        Some(n) => Some(copy_text(n)),
        None => None,
    }
}

impl Transaction {
    /// A new transaction of a portfolio with a fresh identifier, created now.
    pub fn create(
        portfolio_id: &str,
        symbol: &str,
        name: Option<&str>,
        date: &str,
        price: Amount,
        shares: Amount,
        fee: Amount,
        transaction_type: &str,
        currency: &str,
    ) -> (t: Transaction)
        ensures
            is_record_id(t.id@),
            t.portfolio_id@ == portfolio_id@,
            t.symbol@ == symbol@,
            name is None ==> t.name is None,
            name matches Some(n) ==> t.name matches Some(m) && m@ == n@,
            t.date@ == date@,
            t.price == price,
            t.shares == shares,
            t.fee == fee,
            t.transaction_type@ == transaction_type@,
            t.currency@ == currency@,
    {
        let id = new_record_id();
        let created_at = now_rfc3339();
        Transaction {
            id,
            portfolio_id: copy_text(portfolio_id),
            symbol: copy_text(symbol),
            name: copy_name(name),
            date: copy_text(date),
            price,
            shares,
            fee,
            transaction_type: copy_text(transaction_type),
            currency: copy_text(currency),
            created_at,
        }
    }

    /// Replaces everything of the transaction but its identifier, its
    /// portfolio and its creation time.
    pub fn revise(
        &mut self,
        symbol: &str,
        name: Option<&str>,
        date: &str,
        price: Amount,
        shares: Amount,
        fee: Amount,
        transaction_type: &str,
        currency: &str,
    )
        ensures
            final(self).id == old(self).id,
            final(self).portfolio_id == old(self).portfolio_id,
            final(self).created_at == old(self).created_at,
            final(self).symbol@ == symbol@,
            name is None ==> final(self).name is None,
            name matches Some(n) ==> final(self).name matches Some(m) && m@ == n@,
            final(self).date@ == date@,
            final(self).price == price,
            final(self).shares == shares,
            final(self).fee == fee,
            final(self).transaction_type@ == transaction_type@,
            final(self).currency@ == currency@,
    {
        self.symbol = copy_text(symbol);
        self.name = copy_name(name);
        self.date = copy_text(date);
        self.price = price;
        self.shares = shares;
        self.fee = fee;
        self.transaction_type = copy_text(transaction_type);
        self.currency = copy_text(currency);
    }
}

/// A transaction entered in the form, not yet dated or stored.
#[derive(Debug)]
pub struct TransactionDraft {
    pub symbol: String,
    pub shares: Amount,
    pub price: Amount,
    pub fee: Amount,
    pub transaction_type: String,
}

impl TransactionDraft {
    /// The stored transaction for the draft: in the given portfolio, dated
    /// today, without a name, in the entry currency.
    pub fn record_today(&self, portfolio_id: &str) -> (t: Transaction)
        ensures
            is_record_id(t.id@),
            t.portfolio_id@ == portfolio_id@,
            t.symbol@ == self.symbol@,
            t.name is None,
            t.price == self.price,
            t.shares == self.shares,
            t.fee == self.fee,
            t.transaction_type@ == self.transaction_type@,
            t.currency@ == ENTRY_CURRENCY@,
    {
        let today = today_utc();
        Transaction::create(
            portfolio_id,
            self.symbol.as_str(),
            None,
            today.as_str(),
            self.price,
            self.shares,
            self.fee,
            self.transaction_type.as_str(),
            ENTRY_CURRENCY,
        )
    }
}

} // verus!
