//! The keyboard-driven screen state: which view is shown, the selected row,
//! the transaction form and the status line. A key press changes the state
//! and names the command the application is to carry out; the outcome of the
//! command is then reported back.

use crate::amount::Amount;
use crate::records::{Portfolio, TransactionDraft};
use crate::targets::text_between;
use crate::text::{chars_of, pop_char, push_char, to_uppercase};
use vstd::prelude::*;

verus! {

/// The views of the dashboard.
#[derive(Debug, Clone, Copy, PartialEq, Eq)]
pub enum ViewMode {
    Dashboard,
    AddTransaction,
    PortfolioSelect,
    TransactionLog,
    /// The symbol filter of the transaction log is being typed.
    FilterInput,
    /// Buy and sell advice towards the target allocations.
    Rebalance,
}

/// The fields of the transaction form, in tab order.
#[derive(Debug, Clone, Copy, PartialEq, Eq)]
pub enum TransactionField {
    Symbol,
    Shares,
    Price,
    Fee,
    Type,
}

/// A key press.
#[derive(Debug, Clone, Copy, PartialEq, Eq)]
pub enum Key {
    Char(char),
    Esc,
    Enter,
    Tab,
    Backspace,
    Up,
    Down,
    Other,
}

/// What the application is to do after a key press.
#[derive(Debug, Clone, Copy, PartialEq, Eq)]
pub enum Command {
    Nothing,
    /// Fetch the quotes of the held symbols.
    RefreshPrices,
    /// Recompute the holdings of the current portfolio.
    RefreshHoldings,
    /// Check the form and store the transaction it describes.
    SubmitTransaction,
    /// Make the portfolio at this index of the list the current one.
    SwitchPortfolio(usize),
    /// Delete the portfolio at this index of the list.
    DeletePortfolio(usize),
    /// Delete the transaction at this index of the log.
    DeleteTransaction(usize),
    /// Add a new numbered portfolio.
    CreatePortfolio,
    /// Compare the holdings with the target allocations of the current
    /// portfolio and work out the advice.
    Rebalance,
}

/// The texts of the transaction form.
#[derive(Debug)]
pub struct InputFields {
    pub symbol: String,
    pub shares: String,
    pub price: String,
    pub fee: String,
    pub transaction_type: String,
}

/// The texts of the transaction form, as character sequences.
pub struct FieldsView {
    pub symbol: Seq<char>,
    pub shares: Seq<char>,
    pub price: Seq<char>,
    pub fee: Seq<char>,
    pub transaction_type: Seq<char>,
}

impl View for InputFields {
    type V = FieldsView;

    open spec fn view(&self) -> FieldsView {
        FieldsView {
            symbol: self.symbol@,
            shares: self.shares@,
            price: self.price@,
            fee: self.fee@,
            transaction_type: self.transaction_type@,
        }
    }
}

/// The screen state.
#[derive(Debug)]
pub struct ViewState {
    pub view_mode: ViewMode,
    pub selected_index: usize,
    pub input_fields: InputFields,
    pub input_field: TransactionField,
    pub error_msg: Option<String>,
    pub status_msg: String,
    /// The symbol filter of the transaction log; empty shows every row.
    pub filter: String,
}

/// The screen state with texts as character sequences.
pub struct ScreenView {
    pub view_mode: ViewMode,
    pub selected_index: nat,
    pub fields: FieldsView,
    pub input_field: TransactionField,
    pub error_msg: Option<Seq<char>>,
    pub status_msg: Seq<char>,
    pub filter: Seq<char>,
}

impl View for ViewState {
    type V = ScreenView;

    open spec fn view(&self) -> ScreenView {
        ScreenView {
            view_mode: self.view_mode,
            selected_index: self.selected_index as nat,
            fields: self.input_fields@,
            input_field: self.input_field,
            error_msg: match self.error_msg {
                Some(e) => Some(e@),
                None => None,
            },
            status_msg: self.status_msg@,
            filter: self.filter@,
        }
    }
}

/// The form as it is opened: empty, with a zero fee, for a purchase.
pub open spec fn blank_form() -> FieldsView {
    FieldsView { symbol: seq![], shares: seq![], price: seq![], fee: "0"@, transaction_type: "Buy"@ }
}

/// The field after `f` in tab order; the last wraps to the first.
pub open spec fn next_field(f: TransactionField) -> TransactionField {
    match f {
        TransactionField::Symbol => TransactionField::Shares,
        TransactionField::Shares => TransactionField::Price,
        TransactionField::Price => TransactionField::Fee,
        TransactionField::Fee => TransactionField::Type,
        TransactionField::Type => TransactionField::Symbol,
    }
}

/// The text of one field.
pub open spec fn field_text(f: FieldsView, which: TransactionField) -> Seq<char> {
    match which {
        TransactionField::Symbol => f.symbol,
        TransactionField::Shares => f.shares,
        TransactionField::Price => f.price,
        TransactionField::Fee => f.fee,
        TransactionField::Type => f.transaction_type,
    }
}

/// The form with one field's text replaced.
pub open spec fn with_field(f: FieldsView, which: TransactionField, t: Seq<char>) -> FieldsView {
    match which {
        TransactionField::Symbol => FieldsView { symbol: t, ..f },
        TransactionField::Shares => FieldsView { shares: t, ..f },
        TransactionField::Price => FieldsView { price: t, ..f },
        TransactionField::Fee => FieldsView { fee: t, ..f },
        TransactionField::Type => FieldsView { transaction_type: t, ..f },
    }
}

/// The form after typing `c` into a field: the type field takes `b`/`B` as
/// a purchase and `s`/`S` as a sale and ignores anything else; the other
/// fields append the character.
pub open spec fn typed(f: FieldsView, which: TransactionField, c: char) -> FieldsView {
    if which == TransactionField::Type {
        if c == 'b' || c == 'B' {
            with_field(f, which, "Buy"@)
        } else if c == 's' || c == 'S' {
            with_field(f, which, "Sell"@)
        } else {
            f
        }
    } else {
        with_field(f, which, field_text(f, which).push(c))
    }
}

/// The form after erasing the last character of a field.
pub open spec fn erased(f: FieldsView, which: TransactionField) -> FieldsView {
    let t = field_text(f, which);
    if t.len() == 0 {
        f
    } else {
        with_field(f, which, t.drop_last())
    }
}

/// The row above: the first row stays.
pub open spec fn row_up(selected: nat) -> nat {
    if selected > 0 {
        (selected - 1) as nat
    } else {
        selected
    }
}

/// The row below among `rows` rows: the last row stays.
pub open spec fn row_down(selected: nat, rows: nat) -> nat {
    let last: nat = if rows > 0 {
        (rows - 1) as nat
    } else {
        0
    };
    if selected < last {
        selected + 1
    } else {
        selected
    }
}

/// The filter after erasing its last character.
pub open spec fn filter_erased(f: Seq<char>) -> Seq<char> {
    if f.len() == 0 {
        f
    } else {
        f.drop_last()
    }
}

/// The state after a key press and the command it names, when the list of
/// portfolios has `portfolios` rows and the transaction log shows
/// `transactions` rows. Any key clears the error message.
pub open spec fn key_step(s0: ScreenView, key: Key, portfolios: nat, transactions: nat) -> (ScreenView, Command) {
    let s = ScreenView { error_msg: None, ..s0 };
    match s.view_mode {
        ViewMode::Dashboard => match key {
            Key::Char(c) => if c == 'p' {
                (ScreenView { view_mode: ViewMode::PortfolioSelect, selected_index: 0, ..s }, Command::Nothing)
            } else if c == 'a' {
                (
                    ScreenView { view_mode: ViewMode::AddTransaction, input_field: TransactionField::Symbol, ..s },
                    Command::Nothing,
                )
            } else if c == 'l' {
                (
                    ScreenView { view_mode: ViewMode::TransactionLog, selected_index: 0, filter: seq![], ..s },
                    Command::Nothing,
                )
            } else if c == 'f' {
                (ScreenView { view_mode: ViewMode::FilterInput, filter: seq![], ..s }, Command::Nothing)
            } else if c == 'b' {
                (ScreenView { view_mode: ViewMode::Rebalance, ..s }, Command::Rebalance)
            } else if c == 'r' {
                (s, Command::RefreshPrices)
            } else if c == 'd' {
                (s, Command::RefreshHoldings)
            } else {
                (s, Command::Nothing)
            },
            _ => (s, Command::Nothing),
        },
        ViewMode::AddTransaction => match key {
            Key::Esc => (ScreenView { view_mode: ViewMode::Dashboard, ..s }, Command::Nothing),
            Key::Enter => (s, Command::SubmitTransaction),
            Key::Tab => (ScreenView { input_field: next_field(s.input_field), ..s }, Command::Nothing),
            Key::Backspace => (ScreenView { fields: erased(s.fields, s.input_field), ..s }, Command::Nothing),
            Key::Char(c) => (ScreenView { fields: typed(s.fields, s.input_field, c), ..s }, Command::Nothing),
            _ => (s, Command::Nothing),
        },
        ViewMode::PortfolioSelect => match key {
            Key::Esc => (ScreenView { view_mode: ViewMode::Dashboard, ..s }, Command::Nothing),
            Key::Up => (ScreenView { selected_index: row_up(s.selected_index), ..s }, Command::Nothing),
            Key::Down => (
                ScreenView { selected_index: row_down(s.selected_index, portfolios), ..s },
                Command::Nothing,
            ),
            Key::Enter => if s.selected_index < portfolios {
                (s, Command::SwitchPortfolio(s.selected_index as usize))
            } else {
                (s, Command::Nothing)
            },
            Key::Char(c) => if c == 'd' || c == 'D' {
                if portfolios <= 1 {
                    (ScreenView { error_msg: Some(LAST_PORTFOLIO_ERROR@), ..s }, Command::Nothing)
                } else if s.selected_index < portfolios {
                    (s, Command::DeletePortfolio(s.selected_index as usize))
                } else {
                    (s, Command::Nothing)
                }
            } else if c == 'n' || c == 'N' {
                (s, Command::CreatePortfolio)
            } else {
                (s, Command::Nothing)
            },
            _ => (s, Command::Nothing),
        },
        ViewMode::TransactionLog => match key {
            Key::Esc => (ScreenView { view_mode: ViewMode::Dashboard, ..s }, Command::Nothing),
            Key::Up => (ScreenView { selected_index: row_up(s.selected_index), ..s }, Command::Nothing),
            Key::Down => (
                ScreenView { selected_index: row_down(s.selected_index, transactions), ..s },
                Command::Nothing,
            ),
            Key::Char(c) => if (c == 'd' || c == 'D') && s.selected_index < transactions {
                (s, Command::DeleteTransaction(s.selected_index as usize))
            } else {
                (s, Command::Nothing)
            },
            _ => (s, Command::Nothing),
        },
        ViewMode::FilterInput => match key {
            Key::Esc => (ScreenView { view_mode: ViewMode::Dashboard, filter: seq![], ..s }, Command::Nothing),
            Key::Enter => (ScreenView { view_mode: ViewMode::TransactionLog, selected_index: 0, ..s }, Command::Nothing),
            Key::Backspace => (ScreenView { filter: filter_erased(s.filter), ..s }, Command::Nothing),
            Key::Char(c) => (ScreenView { filter: s.filter.push(c), ..s }, Command::Nothing),
            _ => (s, Command::Nothing),
        },
        ViewMode::Rebalance => match key {
            Key::Esc => (ScreenView { view_mode: ViewMode::Dashboard, ..s }, Command::Nothing),
            _ => (s, Command::Nothing),
        },
    }
}

/// How a row of a list is drawn.
#[derive(Debug, Clone, Copy, PartialEq, Eq)]
pub enum RowStyle {
    /// The row the selection is on.
    Selected,
    /// The current portfolio, not selected.
    Current,
    /// Any other row.
    Plain,
}

/// The style of a row: the selection wins over the current portfolio.
pub open spec fn row_style(selected: bool, current: bool) -> RowStyle {
    if selected {
        RowStyle::Selected
    } else if current {
        RowStyle::Current
    } else {
        RowStyle::Plain
    }
}

/// Marks the current portfolio in the list.
pub const CURRENT_MARK: &'static str = "✓ ";

/// Stands in for the mark on the other rows.
pub const NO_MARK: &'static str = "  ";

/// The position of the first hyphen of `id` from `i` on, or its length.
pub open spec fn hyphen_at(id: Seq<char>, i: nat) -> nat
    decreases id.len() - i,
{
    if i < id.len() && id[i as int] != '-' {
        hyphen_at(id, i + 1)
    } else {
        i
    }
}

/// The identifier up to its first hyphen (all of it where it has none).
pub open spec fn short_id(id: Seq<char>) -> Seq<char> {
    id.take(hyphen_at(id, 0) as int)
}

/// One row of the portfolio list.
#[derive(Debug)]
pub struct PortfolioRow {
    /// The mark and the name.
    pub label: String,
    pub short_id: String,
    pub style: RowStyle,
}

/// The row shown for a portfolio.
pub open spec fn shows_portfolio(row: PortfolioRow, p: Portfolio, selected: bool, current_id: Seq<char>) -> bool {
    let current = p.id@ == current_id;
    &&& row.label@ == (if current {
        CURRENT_MARK@
    } else {
        NO_MARK@
    }) + p.name@
    &&& row.short_id@ == short_id(p.id@)
    &&& row.style == row_style(selected, current)
}

fn hyphen_from(cs: &Vec<char>) -> (r: usize)
    ensures
        r == hyphen_at(cs@, 0),
        r <= cs@.len(),
{
    let mut j: usize = 0;
    while j < cs.len() && cs[j] != '-'
        invariant
            j <= cs@.len(),
            hyphen_at(cs@, j as nat) == hyphen_at(cs@, 0),
        decreases cs@.len() - j,
    {
        j = j + 1;
    }
    j
}

/// The rows of the portfolio list: each name behind the mark of the current
/// portfolio or a blank, its identifier up to the first hyphen, and its
/// style.
pub fn portfolio_rows(portfolios: &Vec<Portfolio>, current_id: &str, selected: usize) -> (r: Vec<PortfolioRow>)
    ensures
        r@.len() == portfolios@.len(),
        forall|k: int|
            0 <= k < r@.len() ==> shows_portfolio(#[trigger] r@[k], portfolios@[k], k == selected, current_id@),
{
    let mut out: Vec<PortfolioRow> = Vec::new();
    let n = portfolios.len();
    let mut k: usize = 0;
    while k < n
        invariant
            n == portfolios@.len(),
            k <= n,
            out@.len() == k,
            forall|q: int| 0 <= q < k ==> shows_portfolio(#[trigger] out@[q], portfolios@[q], q == selected, current_id@),
        decreases n - k,
    {
        let p = &portfolios[k];
        let current = crate::text::text_equal(p.id.as_str(), current_id);
        let mark = if current {
            text_of(CURRENT_MARK)
        } else {
            text_of(NO_MARK)
        };
        let cs = chars_of(p.id.as_str());
        let end = hyphen_from(&cs);
        let short = text_between(&cs, 0, end);
        let style = if k == selected {
            RowStyle::Selected
        } else if current {
            RowStyle::Current
        } else {
            RowStyle::Plain
        };
        assert(cs@.subrange(0, end as int) =~= short_id(p.id@));
        out.push(PortfolioRow { label: mark.concat(p.name.as_str()), short_id: short, style });
        k = k + 1;
    }
    out
}

/// The field on a row of the transaction form, in tab order.
pub open spec fn field_on_row(k: int) -> TransactionField {
    if k == 0 {
        TransactionField::Symbol
    } else if k == 1 {
        TransactionField::Shares
    } else if k == 2 {
        TransactionField::Price
    } else if k == 3 {
        TransactionField::Fee
    } else {
        TransactionField::Type
    }
}

/// The label of a field of the transaction form.
pub open spec fn field_label(f: TransactionField) -> Seq<char> {
    match f {
        TransactionField::Symbol => "Symbol"@,
        TransactionField::Shares => "Shares"@,
        TransactionField::Price => "Price"@,
        TransactionField::Fee => "Fee"@,
        TransactionField::Type => "Type (Buy/Sell)"@,
    }
}

/// One row of the transaction form.
#[derive(Debug)]
pub struct FormRow {
    pub label: String,
    pub value: String,
    /// The row of the field being typed into.
    pub highlighted: bool,
}

/// Shown when the only portfolio is to be deleted.
pub const LAST_PORTFOLIO_ERROR: &'static str = "Cannot delete the last portfolio";

/// Shown when the form does not describe a transaction.
pub const INVALID_INPUT_ERROR: &'static str = "Invalid input: Please fill all fields correctly";

/// Status line of a new screen.
pub const READY_STATUS: &'static str = " Ready";

/// Status line after the holdings were recomputed.
pub const HOLDINGS_REFRESHED_STATUS: &'static str = " Holdings refreshed";

/// Status line after a portfolio was added.
pub const PORTFOLIO_CREATED_STATUS: &'static str = " Created new portfolio";

fn text_of(s: &str) -> (r: String)
    ensures
        r@ == s@,
{
    s.to_owned()
}

impl InputFields {
    /// The form as it is opened: empty, with a zero fee, for a purchase.
    pub fn blank() -> (r: InputFields)
        ensures
            r@ == blank_form(),
    {
        let r = InputFields {
            symbol: String::new(),
            shares: String::new(),
            price: String::new(),
            fee: text_of("0"),
            transaction_type: text_of("Buy"),
        };
        assert(r@.symbol =~= seq![]);
        assert(r@.shares =~= seq![]);
        r
    }
}

/// The transaction a form describes: the symbol in upper case, shares,
/// price and fee read as decimals (text that is no decimal reads as zero),
/// and the type as entered.
pub open spec fn draft_of(f: FieldsView) -> (Seq<char>, Amount, Amount, Amount, Seq<char>) {
    (
        crate::text::uppercase_of(f.symbol),
        crate::amount::or_zero(crate::amount::lift(crate::amount::decimal_parse(f.shares))),
        crate::amount::or_zero(crate::amount::lift(crate::amount::decimal_parse(f.price))),
        crate::amount::or_zero(crate::amount::lift(crate::amount::decimal_parse(f.fee))),
        f.transaction_type,
    )
}

/// A form describes a transaction when the symbol is not empty and both the
/// shares and the price are positive.
pub open spec fn acceptable(f: FieldsView) -> bool {
    let d = draft_of(f);
    &&& f.symbol.len() > 0
    &&& d.1.positive()
    &&& d.2.positive()
}

/// The draft holds what the form describes, in valid decimals.
pub open spec fn drafted(d: TransactionDraft, f: FieldsView) -> bool {
    &&& (d.symbol@, d.shares, d.price, d.fee, d.transaction_type@) == draft_of(f)
    &&& d.shares.wf()
    &&& d.price.wf()
    &&& d.fee.wf()
}

impl ViewState {
    /// The screen at start: the dashboard, first row selected, a blank form
    /// on its first field, no error, ready.
    pub fn new() -> (r: ViewState)
        ensures
            r@.view_mode == ViewMode::Dashboard,
            r@.selected_index == 0,
            r@.fields == blank_form(),
            r@.input_field == TransactionField::Symbol,
            r@.error_msg is None,
            r@.status_msg == READY_STATUS@,
            r@.filter.len() == 0,
    {
        ViewState {
            view_mode: ViewMode::Dashboard,
            selected_index: 0,
            input_fields: InputFields::blank(),
            input_field: TransactionField::Symbol,
            error_msg: None,
            status_msg: text_of(READY_STATUS),
            filter: String::new(),
        }
    }

    /// The five rows of the transaction form, in tab order: each field's
    /// label and text, the current field highlighted.
    pub fn form_rows(&self) -> (r: Vec<FormRow>)
        ensures
            r@.len() == 5,
            forall|k: int|
                0 <= k < 5 ==> {
                    &&& (#[trigger] r@[k]).label@ == field_label(field_on_row(k))
                    &&& r@[k].value@ == field_text(self@.fields, field_on_row(k))
                    &&& r@[k].highlighted == (field_on_row(k) == self@.input_field)
                },
    {
        let f = &self.input_fields;
        let mut out: Vec<FormRow> = Vec::new();
        out.push(
            FormRow {
                label: text_of("Symbol"),
                value: f.symbol.clone(),
                highlighted: matches!(self.input_field, TransactionField::Symbol),
            },
        );
        out.push(
            FormRow {
                label: text_of("Shares"),
                value: f.shares.clone(),
                highlighted: matches!(self.input_field, TransactionField::Shares),
            },
        );
        out.push(
            FormRow { label: text_of("Price"), value: f.price.clone(), highlighted: matches!(self.input_field, TransactionField::Price) },
        );
        out.push(FormRow { label: text_of("Fee"), value: f.fee.clone(), highlighted: matches!(self.input_field, TransactionField::Fee) });
        out.push(
            FormRow {
                label: text_of("Type (Buy/Sell)"),
                value: f.transaction_type.clone(),
                highlighted: matches!(self.input_field, TransactionField::Type),
            },
        );
        assert forall|k: int| 0 <= k < 5 implies {
            &&& (#[trigger] out@[k]).label@ == field_label(field_on_row(k))
            &&& out@[k].value@ == field_text(self@.fields, field_on_row(k))
            &&& out@[k].highlighted == (field_on_row(k) == self@.input_field)
        } by {
            if k == 0 {
            } else if k == 1 {
            } else if k == 2 {
            } else if k == 3 {
            } else {
            }
        }
        out
    }

    /// Handles a key press and names the command it asks for.
    pub fn handle_key(&mut self, key: Key, portfolios: usize, transactions: usize) -> (cmd: Command)
        ensures
            (final(self)@, cmd) == key_step(old(self)@, key, portfolios as nat, transactions as nat),
    {
        self.error_msg = None;
        match self.view_mode {
            ViewMode::Dashboard => {
                match key {
                    Key::Char(c) => {
                        if c == 'p' {
                            self.view_mode = ViewMode::PortfolioSelect;
                            self.selected_index = 0;
                            Command::Nothing
                        } else if c == 'a' {
                            self.view_mode = ViewMode::AddTransaction;
                            self.input_field = TransactionField::Symbol;
                            Command::Nothing
                        } else if c == 'l' {
                            self.view_mode = ViewMode::TransactionLog;
                            self.selected_index = 0;
                            self.filter = String::new();
                            assert(self.filter@ =~= seq![]);
                            Command::Nothing
                        } else if c == 'f' {
                            self.view_mode = ViewMode::FilterInput;
                            self.filter = String::new();
                            assert(self.filter@ =~= seq![]);
                            Command::Nothing
                        } else if c == 'b' {
                            self.view_mode = ViewMode::Rebalance;
                            Command::Rebalance
                        } else if c == 'r' {
                            Command::RefreshPrices
                        } else if c == 'd' {
                            Command::RefreshHoldings
                        } else {
                            Command::Nothing
                        }
                    },
                    _ => Command::Nothing,
                }
            },
            ViewMode::AddTransaction => {
                match key {
                    Key::Esc => {
                        self.view_mode = ViewMode::Dashboard;
                        Command::Nothing
                    },
                    Key::Enter => Command::SubmitTransaction,
                    Key::Tab => {
                        self.input_field =
                            match self.input_field {
                                TransactionField::Symbol => TransactionField::Shares,
                                TransactionField::Shares => TransactionField::Price,
                                TransactionField::Price => TransactionField::Fee,
                                TransactionField::Fee => TransactionField::Type,
                                TransactionField::Type => TransactionField::Symbol,
                            };
                        Command::Nothing
                    },
                    Key::Backspace => {
                        let _ = match self.input_field {
                            TransactionField::Symbol => pop_char(&mut self.input_fields.symbol),
                            TransactionField::Shares => pop_char(&mut self.input_fields.shares),
                            TransactionField::Price => pop_char(&mut self.input_fields.price),
                            TransactionField::Fee => pop_char(&mut self.input_fields.fee),
                            TransactionField::Type => pop_char(&mut self.input_fields.transaction_type),
                        };
                        Command::Nothing
                    },
                    Key::Char(c) => {
                        match self.input_field {
                            TransactionField::Symbol => push_char(&mut self.input_fields.symbol, c),
                            TransactionField::Shares => push_char(&mut self.input_fields.shares, c),
                            TransactionField::Price => push_char(&mut self.input_fields.price, c),
                            TransactionField::Fee => push_char(&mut self.input_fields.fee, c),
                            TransactionField::Type => {
                                if c == 'b' || c == 'B' {
                                    self.input_fields.transaction_type = text_of("Buy");
                                } else if c == 's' || c == 'S' {
                                    self.input_fields.transaction_type = text_of("Sell");
                                }
                            },
                        }
                        Command::Nothing
                    },
                    _ => Command::Nothing,
                }
            },
            ViewMode::PortfolioSelect => {
                match key {
                    Key::Esc => {
                        self.view_mode = ViewMode::Dashboard;
                        Command::Nothing
                    },
                    Key::Up => {
                        if self.selected_index > 0 {
                            self.selected_index = self.selected_index - 1;
                        }
                        Command::Nothing
                    },
                    Key::Down => {
                        if self.selected_index < portfolios.saturating_sub(1) {
                            self.selected_index = self.selected_index + 1;
                        }
                        Command::Nothing
                    },
                    Key::Enter => {
                        if self.selected_index < portfolios {
                            Command::SwitchPortfolio(self.selected_index)
                        } else {
                            Command::Nothing
                        }
                    },
                    Key::Char(c) => {
                        if c == 'd' || c == 'D' {
                            if portfolios <= 1 {
                                self.error_msg = Some(text_of(LAST_PORTFOLIO_ERROR));
                                Command::Nothing
                            } else if self.selected_index < portfolios {
                                Command::DeletePortfolio(self.selected_index)
                            } else {
                                Command::Nothing
                            }
                        } else if c == 'n' || c == 'N' {
                            Command::CreatePortfolio
                        } else {
                            Command::Nothing
                        }
                    },
                    _ => Command::Nothing,
                }
            },
            ViewMode::TransactionLog => {
                match key {
                    Key::Esc => {
                        self.view_mode = ViewMode::Dashboard;
                        Command::Nothing
                    },
                    Key::Up => {
                        if self.selected_index > 0 {
                            self.selected_index = self.selected_index - 1;
                        }
                        Command::Nothing
                    },
                    Key::Down => {
                        if self.selected_index < transactions.saturating_sub(1) {
                            self.selected_index = self.selected_index + 1;
                        }
                        Command::Nothing
                    },
                    Key::Char(c) => {
                        if (c == 'd' || c == 'D') && self.selected_index < transactions {
                            Command::DeleteTransaction(self.selected_index)
                        } else {
                            Command::Nothing
                        }
                    },
                    _ => Command::Nothing,
                }
            },
            ViewMode::FilterInput => {
                match key {
                    Key::Esc => {
                        self.view_mode = ViewMode::Dashboard;
                        self.filter = String::new();
                        assert(self.filter@ =~= seq![]);
                        Command::Nothing
                    },
                    Key::Enter => {
                        self.view_mode = ViewMode::TransactionLog;
                        self.selected_index = 0;
                        Command::Nothing
                    },
                    Key::Backspace => {
                        let _ = pop_char(&mut self.filter);
                        Command::Nothing
                    },
                    Key::Char(c) => {
                        push_char(&mut self.filter, c);
                        Command::Nothing
                    },
                    _ => Command::Nothing,
                }
            },
            ViewMode::Rebalance => {
                match key {
                    Key::Esc => {
                        self.view_mode = ViewMode::Dashboard;
                        Command::Nothing
                    },
                    _ => Command::Nothing,
                }
            },
        }
    }

    /// Checks the form. When it describes a transaction, that transaction is
    /// returned and the screen is left as it is; otherwise the error message
    /// says so and nothing is returned.
    pub fn submit_transaction(&mut self) -> (r: Option<TransactionDraft>)
        ensures
            acceptable(old(self)@.fields) ==> final(self)@ == old(self)@,
            acceptable(old(self)@.fields) ==> r is Some,
            r matches Some(d) ==> drafted(d, old(self)@.fields),
            !acceptable(old(self)@.fields) ==> r is None,
            !acceptable(old(self)@.fields) ==> final(self)@ == (ScreenView {
                error_msg: Some(INVALID_INPUT_ERROR@),
                ..old(self)@
            }),
            r matches Some(d) ==> d.symbol@.len() > 0 && d.shares.positive() && d.price.positive(),
            old(self)@.fields.symbol.len() == 0 ==> r is None,
            !crate::amount::or_zero(crate::amount::lift(crate::amount::decimal_parse(old(self)@.fields.shares))).positive()
                ==> r is None,
            !crate::amount::or_zero(crate::amount::lift(crate::amount::decimal_parse(old(self)@.fields.price))).positive()
                ==> r is None,
            r is None ==> final(self)@.error_msg == Some(INVALID_INPUT_ERROR@),
    {
        let symbol = to_uppercase(self.input_fields.symbol.as_str());
        let shares = Amount::parse_or_zero(self.input_fields.shares.as_str());
        let price = Amount::parse_or_zero(self.input_fields.price.as_str());
        let fee = Amount::parse_or_zero(self.input_fields.fee.as_str());
        let transaction_type = self.input_fields.transaction_type.clone();
        if symbol.as_str().is_empty() || !shares.is_positive() || !price.is_positive() {
            self.error_msg = Some(text_of(INVALID_INPUT_ERROR));
            return None;
        }
        Some(TransactionDraft { symbol, shares, price, fee, transaction_type })
    }

    /// The drafted transaction was stored: the form is blanked, the
    /// dashboard shown, and the status line names the transaction.
    pub fn transaction_added(&mut self, draft: &TransactionDraft)
        ensures
            final(self)@ == (ScreenView {
                view_mode: ViewMode::Dashboard,
                fields: blank_form(),
                status_msg: " Added "@ + draft.transaction_type@ + " transaction for "@ + draft.symbol@,
                ..old(self)@
            }),
    {
        self.input_fields = InputFields::blank();
        self.view_mode = ViewMode::Dashboard;
        self.status_msg = text_of(" Added ").concat(draft.transaction_type.as_str()).concat(" transaction for ").concat(
            draft.symbol.as_str(),
        );
    }

    /// The holdings were recomputed.
    pub fn holdings_refreshed(&mut self)
        ensures
            final(self)@ == (ScreenView { status_msg: HOLDINGS_REFRESHED_STATUS@, ..old(self)@ }),
    {
        self.status_msg = text_of(HOLDINGS_REFRESHED_STATUS);
    }

    /// The holdings could not be recomputed, for the reason given.
    pub fn holdings_failed(&mut self, reason: &str)
        ensures
            final(self)@ == (ScreenView {
                error_msg: Some("Failed to calculate holdings: "@ + reason@),
                ..old(self)@
            }),
    {
        self.error_msg = Some(text_of("Failed to calculate holdings: ").concat(reason));
    }

    /// The transactions could not be read, for the reason given.
    pub fn transactions_failed(&mut self, reason: &str)
        ensures
            final(self)@ == (ScreenView {
                error_msg: Some("Failed to load transactions: "@ + reason@),
                ..old(self)@
            }),
    {
        self.error_msg = Some(text_of("Failed to load transactions: ").concat(reason));
    }

    /// The portfolio of that name became the current one.
    pub fn portfolio_switched(&mut self, name: &str)
        ensures
            final(self)@ == (ScreenView {
                view_mode: ViewMode::Dashboard,
                status_msg: " Switched to: "@ + name@,
                ..old(self)@
            }),
    {
        self.view_mode = ViewMode::Dashboard;
        self.status_msg = text_of(" Switched to: ").concat(name);
    }

    /// A transaction in that symbol was deleted.
    pub fn transaction_deleted(&mut self, symbol: &str)
        ensures
            final(self)@ == (ScreenView { status_msg: " Deleted transaction: "@ + symbol@, ..old(self)@ }),
    {
        self.status_msg = text_of(" Deleted transaction: ").concat(symbol);
    }

    /// The portfolio of that name was deleted; the dashboard is shown.
    pub fn portfolio_deleted(&mut self, name: &str)
        ensures
            final(self)@ == (ScreenView {
                view_mode: ViewMode::Dashboard,
                status_msg: " Deleted portfolio: "@ + name@,
                ..old(self)@
            }),
    {
        self.view_mode = ViewMode::Dashboard;
        self.status_msg = text_of(" Deleted portfolio: ").concat(name);
    }

    /// A deletion failed, for the reason given.
    pub fn delete_failed(&mut self, reason: &str)
        ensures
            final(self)@ == (ScreenView { error_msg: Some("Failed to delete: "@ + reason@), ..old(self)@ }),
    {
        self.error_msg = Some(text_of("Failed to delete: ").concat(reason));
    }

    /// A new portfolio was added.
    pub fn portfolio_created(&mut self)
        ensures
            final(self)@ == (ScreenView { status_msg: PORTFOLIO_CREATED_STATUS@, ..old(self)@ }),
    {
        self.status_msg = text_of(PORTFOLIO_CREATED_STATUS);
    }

    /// Replaces the status line.
    pub fn set_status(&mut self, status: String)
        ensures
            final(self)@ == (ScreenView { status_msg: status@, ..old(self)@ }),
    {
        self.status_msg = status;
    }

    /// Whether the key, just handled, ends the program: `q` on the
    /// dashboard.
    pub fn quits(&self, key: Key) -> (r: bool)
        ensures
            r == (self.view_mode == ViewMode::Dashboard && key == Key::Char('q')),
    {
        match self.view_mode {
            ViewMode::Dashboard => match key {
                Key::Char(c) => c == 'q',
                _ => false,
            },
            _ => false,
        }
    }
}


/// A form is taken only with a symbol and with shares and a price that read
/// as positive decimals (an empty or unreadable field reads as zero); the
/// fee and the type are not checked.
pub proof fn lemma_accepted_forms_have_positive_amounts(f: FieldsView)
    ensures
        acceptable(f) ==> f.symbol.len() > 0,
        acceptable(f) ==> crate::amount::or_zero(crate::amount::lift(crate::amount::decimal_parse(f.shares))).mantissa > 0,
        acceptable(f) ==> crate::amount::or_zero(crate::amount::lift(crate::amount::decimal_parse(f.price))).mantissa > 0,
        f.symbol.len() > 0 && crate::amount::or_zero(crate::amount::lift(crate::amount::decimal_parse(f.shares))).mantissa
            > 0 && crate::amount::or_zero(crate::amount::lift(crate::amount::decimal_parse(f.price))).mantissa > 0
            ==> acceptable(f),
        acceptable(f) == acceptable(FieldsView { fee: seq![], transaction_type: seq![], ..f }),
{
}

/// In the transaction log and in the portfolio list, Up selects the row
/// above (the first row stays), Down the row below (the last row stays), and
/// neither changes anything else or asks for a command; in the log, `d` on
/// a row deletes that very row.
pub proof fn lemma_arrow_keys_move_selection(s: ScreenView, portfolios: nat, transactions: nat)
    requires
        s.view_mode == ViewMode::TransactionLog || s.view_mode == ViewMode::PortfolioSelect,
    ensures
        ({
            let (up, cmd) = key_step(s, Key::Up, portfolios, transactions);
            &&& up.selected_index == if s.selected_index > 0 {
                s.selected_index - 1
            } else {
                0int
            }
            &&& cmd == Command::Nothing
            &&& up == ScreenView { selected_index: up.selected_index, error_msg: None, ..s }
        }),
        ({
            let rows = if s.view_mode == ViewMode::TransactionLog {
                transactions
            } else {
                portfolios
            };
            let (down, cmd) = key_step(s, Key::Down, portfolios, transactions);
            &&& down.selected_index == if s.selected_index + 1 < rows {
                s.selected_index + 1
            } else {
                s.selected_index
            }
            &&& cmd == Command::Nothing
            &&& down == ScreenView { selected_index: down.selected_index, error_msg: None, ..s }
        }),
        s.view_mode == ViewMode::TransactionLog && s.selected_index < transactions ==> key_step(
            s,
            Key::Char('d'),
            portfolios,
            transactions,
        ).1 == Command::DeleteTransaction(s.selected_index as usize),
{
}

/// Tab walks through the five fields of the form and comes back to the one
/// it started from.
pub proof fn lemma_tab_cycles(f: TransactionField)
    ensures
        next_field(next_field(next_field(next_field(next_field(f))))) == f,
        next_field(f) != f,
{
}

/// The commands a key asks for name existing rows only, and a portfolio is
/// never deleted when it is the only one.
pub proof fn lemma_commands_name_existing_rows(s: ScreenView, key: Key, portfolios: nat, transactions: nat)
    ensures
        key_step(s, key, portfolios, transactions).1 matches Command::SwitchPortfolio(i) ==> i < portfolios,
        key_step(s, key, portfolios, transactions).1 matches Command::DeletePortfolio(i) ==> i < portfolios
            && portfolios > 1,
        key_step(s, key, portfolios, transactions).1 matches Command::DeleteTransaction(i) ==> i < transactions,
{
}

/// Moving the selection keeps it on a row of the list shown.
pub proof fn lemma_selection_stays_in_list(s: ScreenView, key: Key, portfolios: nat, transactions: nat)
    requires
        s.view_mode == ViewMode::PortfolioSelect ==> s.selected_index < portfolios,
        s.view_mode == ViewMode::TransactionLog ==> s.selected_index < transactions,
    ensures
        key_step(s, key, portfolios, transactions).0.view_mode == ViewMode::PortfolioSelect
            ==> key_step(s, key, portfolios, transactions).0.selected_index < portfolios || portfolios == 0,
        key_step(s, key, portfolios, transactions).0.view_mode == ViewMode::TransactionLog
            ==> key_step(s, key, portfolios, transactions).0.selected_index < transactions || transactions == 0,
{
}

/// Every key clears the error message; the only error a key itself reports
/// is the refusal to delete the last portfolio.
pub proof fn lemma_key_clears_error(s: ScreenView, key: Key, portfolios: nat, transactions: nat)
    ensures
        key_step(s, key, portfolios, transactions).0.error_msg is None || key_step(
            s,
            key,
            portfolios,
            transactions,
        ).0.error_msg == Some(LAST_PORTFOLIO_ERROR@),
{
}

/// Escape leads back to the dashboard from every other view.
pub proof fn lemma_escape_returns_to_dashboard(s: ScreenView, portfolios: nat, transactions: nat)
    requires
        s.view_mode != ViewMode::Dashboard,
    ensures
        key_step(s, Key::Esc, portfolios, transactions).0.view_mode == ViewMode::Dashboard,
        key_step(s, Key::Esc, portfolios, transactions).1 == Command::Nothing,
{
}

/// On the dashboard, `f` opens the symbol filter empty; what is typed there
/// is the filter, and Enter shows the transaction log from its first row
/// with that filter. `b` shows the rebalancing advice and asks for it to be
/// worked out.
pub proof fn lemma_filter_and_rebalance_keys(s: ScreenView, c: char, portfolios: nat, transactions: nat)
    requires
        s.view_mode == ViewMode::Dashboard,
    ensures
        ({
            let s1 = key_step(s, Key::Char('f'), portfolios, transactions).0;
            let s2 = key_step(s1, Key::Char(c), portfolios, transactions).0;
            let s3 = key_step(s2, Key::Enter, portfolios, transactions).0;
            &&& s1.view_mode == ViewMode::FilterInput
            &&& s1.filter == Seq::<char>::empty()
            &&& s2.view_mode == ViewMode::FilterInput
            &&& s2.filter == seq![c]
            &&& s3.view_mode == ViewMode::TransactionLog
            &&& s3.filter == seq![c]
            &&& s3.selected_index == 0
        }),
        key_step(s, Key::Char('b'), portfolios, transactions).0.view_mode == ViewMode::Rebalance,
        key_step(s, Key::Char('b'), portfolios, transactions).1 == Command::Rebalance,
{
    assert(Seq::<char>::empty().push(c) =~= seq![c]);
}

/// Typing leaves the fields other than the current one as they are.
pub proof fn lemma_typing_touches_current_field(f: FieldsView, which: TransactionField, other: TransactionField, c: char)
    requires
        which != other,
    ensures
        field_text(typed(f, which, c), other) == field_text(f, other),
        field_text(erased(f, which), other) == field_text(f, other),
{
}
} // verus!
