//! Rebalancing advice: the market value of each holding against the share of
//! the portfolio's total value that the target allocations give its symbol.
//! Every target symbol gets advice, in the order of the targets, and then
//! every held symbol without a target, whose target value is zero.

use crate::amount::{checked_add, checked_div, checked_mul, checked_sub, difference, product, quotient, sum, Amount};
use crate::ledger::{Holding, LedgerError};
use crate::targets::Target;
use crate::text::text_equal;
use vstd::prelude::*;

verus! {

/// What to do about a symbol.
#[derive(Debug, Clone, Copy, PartialEq, Eq)]
pub enum Action {
    /// Its value is below its target: buy more.
    Buy,
    /// Its value is above its target: sell some.
    Sell,
    /// Its value is on target.
    Hold,
}

/// The advice for one symbol.
#[derive(Debug)]
pub struct Advice {
    pub symbol: String,
    /// The market value held now.
    pub current_value: Amount,
    /// The value the target allocation asks for.
    pub target_value: Amount,
    /// The target value less the current value.
    pub difference: Amount,
    pub action: Action,
}

/// The advice with the symbol as a character sequence.
pub type AdviceView = (Seq<char>, Amount, Amount, Amount, Action);

impl View for Advice {
    type V = AdviceView;

    open spec fn view(&self) -> AdviceView {
        (self.symbol@, self.current_value, self.target_value, self.difference, self.action)
    }
}

/// The zero amount.
pub open spec fn zero() -> Amount {
    Amount { mantissa: 0, scale: 0 }
}

/// One hundred percent.
pub open spec fn hundred() -> Amount {
    Amount { mantissa: 100, scale: 0 }
}

/// The action a difference calls for.
pub open spec fn action_of(d: Amount) -> Action {
    if d.mantissa > 0 {
        Action::Buy
    } else if d.mantissa < 0 {
        Action::Sell
    } else {
        Action::Hold
    }
}

/// The advice for a symbol held at `current` whose target is `target`.
pub open spec fn advice_of(symbol: Seq<char>, current: Amount, target: Amount) -> Option<AdviceView> {
    match difference(target, current) {
        Some(d) => Some((symbol, current, target, d, action_of(d))),
        None => None,
    }
}

/// The total market value of the first `n` holdings, each at its price.
pub open spec fn total_upto(hs: Seq<Holding>, ps: Seq<Amount>, n: nat) -> Option<Amount>
    decreases n,
{
    if n == 0 {
        Some(zero())
    } else {
        match total_upto(hs, ps, (n - 1) as nat) {
            Some(t) => match product(hs[n - 1].total_shares, ps[n - 1]) {
                Some(v) => sum(t, v),
                None => None,
            },
            None => None,
        }
    }
}

/// The market value held in a symbol: that of the first holding from
/// `from` on with that symbol, or zero.
pub open spec fn current_value(hs: Seq<Holding>, ps: Seq<Amount>, symbol: Seq<char>, from: nat) -> Option<Amount>
    decreases hs.len() - from,
{
    if from >= hs.len() {
        Some(zero())
    } else if hs[from as int].symbol@ == symbol {
        product(hs[from as int].total_shares, ps[from as int])
    } else {
        current_value(hs, ps, symbol, from + 1)
    }
}

/// The value a target percentage of `total` comes to.
pub open spec fn target_value(total: Amount, percent: Amount) -> Option<Amount> {
    match product(total, percent) {
        Some(p) => quotient(p, hundred()),
        None => None,
    }
}

/// The advice for one target.
pub open spec fn target_advice(hs: Seq<Holding>, ps: Seq<Amount>, total: Amount, t: (Seq<char>, Amount)) -> Option<
    AdviceView,
> {
    match current_value(hs, ps, t.0, 0) {
        Some(c) => match target_value(total, t.1) {
            Some(v) => advice_of(t.0, c, v),
            None => None,
        },
        None => None,
    }
}

/// The advice for the first `n` targets.
pub open spec fn targets_advice(
    hs: Seq<Holding>,
    ps: Seq<Amount>,
    total: Amount,
    ts: Seq<(Seq<char>, Amount)>,
    n: nat,
) -> Option<Seq<AdviceView>>
    decreases n,
{
    if n == 0 {
        Some(seq![])
    } else {
        match targets_advice(hs, ps, total, ts, (n - 1) as nat) {
            Some(s) => match target_advice(hs, ps, total, ts[n - 1]) {
                Some(a) => Some(s.push(a)),
                None => None,
            },
            None => None,
        }
    }
}

/// Some target names the symbol.
pub open spec fn targeted(ts: Seq<(Seq<char>, Amount)>, symbol: Seq<char>) -> bool {
    exists|k: int| 0 <= k < ts.len() && ts[k].0 == symbol
}

/// The advice for those of the first `n` holdings that no target names:
/// their target value is zero.
pub open spec fn untargeted_advice(
    hs: Seq<Holding>,
    ps: Seq<Amount>,
    ts: Seq<(Seq<char>, Amount)>,
    n: nat,
) -> Option<Seq<AdviceView>>
    decreases n,
{
    if n == 0 {
        Some(seq![])
    } else {
        match untargeted_advice(hs, ps, ts, (n - 1) as nat) {
            Some(s) => if targeted(ts, hs[n - 1].symbol@) {
                Some(s)
            } else {
                match product(hs[n - 1].total_shares, ps[n - 1]) {
                    Some(v) => match advice_of(hs[n - 1].symbol@, v, zero()) {
                        Some(a) => Some(s.push(a)),
                        None => None,
                    },
                    None => None,
                }
            },
            None => None,
        }
    }
}

/// The advice for holdings `hs` at prices `ps` against the targets `ts`;
/// `None` where a decimal operation leaves the range of a decimal.
pub open spec fn rebalance_advice(hs: Seq<Holding>, ps: Seq<Amount>, ts: Seq<(Seq<char>, Amount)>) -> Option<
    Seq<AdviceView>,
> {
    match total_upto(hs, ps, hs.len()) {
        Some(total) => match targets_advice(hs, ps, total, ts, ts.len()) {
            Some(a) => match untargeted_advice(hs, ps, ts, hs.len()) {
                Some(b) => Some(a + b),
                None => None,
            },
            None => None,
        },
        None => None,
    }
}

/// The advice computed, element by element.
pub open spec fn same_advice(v: Seq<Advice>, s: Seq<AdviceView>) -> bool {
    &&& v.len() == s.len()
    &&& forall|k: int| 0 <= k < v.len() ==> (#[trigger] v[k])@ == s[k]
}

/// The targets as read, element by element.
pub open spec fn target_views(ts: Seq<Target>) -> Seq<(Seq<char>, Amount)> {
    ts.map_values(|t: Target| t@)
}

proof fn lemma_total_stays_none(hs: Seq<Holding>, ps: Seq<Amount>, k: nat, n: nat)
    requires
        k <= n,
        total_upto(hs, ps, k) is None,
    ensures
        total_upto(hs, ps, n) is None,
    decreases n,
{
    if k < n {
        lemma_total_stays_none(hs, ps, k, (n - 1) as nat);
    }
}

proof fn lemma_targets_stay_none(
    hs: Seq<Holding>,
    ps: Seq<Amount>,
    total: Amount,
    ts: Seq<(Seq<char>, Amount)>,
    k: nat,
    n: nat,
)
    requires
        k <= n,
        targets_advice(hs, ps, total, ts, k) is None,
    ensures
        targets_advice(hs, ps, total, ts, n) is None,
    decreases n,
{
    if k < n {
        lemma_targets_stay_none(hs, ps, total, ts, k, (n - 1) as nat);
    }
}

proof fn lemma_untargeted_stay_none(hs: Seq<Holding>, ps: Seq<Amount>, ts: Seq<(Seq<char>, Amount)>, k: nat, n: nat)
    requires
        k <= n,
        untargeted_advice(hs, ps, ts, k) is None,
    ensures
        untargeted_advice(hs, ps, ts, n) is None,
    decreases n,
{
    if k < n {
        lemma_untargeted_stay_none(hs, ps, ts, k, (n - 1) as nat);
    }
}

fn zero_amount() -> (r: Amount)
    ensures
        r == zero(),
        r.wf(),
{
    Amount { mantissa: 0, scale: 0 }
}

fn action_for(d: Amount) -> (r: Action)
    ensures
        r == action_of(d),
{
    if d.mantissa > 0 {
        Action::Buy
    } else if d.mantissa < 0 {
        Action::Sell
    } else {
        Action::Hold
    }
}

fn advise(symbol: &str, current: Amount, target: Amount) -> (r: Option<Advice>)
    requires
        current.wf(),
        target.wf(),
    ensures
        match r {
            Some(a) => advice_of(symbol@, current, target) == Some(a@),
            None => advice_of(symbol@, current, target) is None,
        },
{
    match checked_sub(target, current) {
        Some(d) => Some(
            Advice {
                symbol: symbol.to_owned(),
                current_value: current,
                target_value: target,
                difference: d,
                action: action_for(d),
            },
        ),
        None => None,
    }
}

/// The holdings are in valid decimals and each has a price in a valid
/// decimal.
pub open spec fn priced(hs: Seq<Holding>, ps: Seq<Amount>) -> bool {
    &&& ps.len() == hs.len()
    &&& forall|k: int| 0 <= k < hs.len() ==> (#[trigger] hs[k]).total_shares.wf()
    &&& forall|k: int| 0 <= k < ps.len() ==> (#[trigger] ps[k]).wf()
}

fn total_value(holdings: &Vec<Holding>, prices: &Vec<Amount>) -> (r: Option<Amount>)
    requires
        priced(holdings@, prices@),
    ensures
        r == total_upto(holdings@, prices@, holdings@.len()),
        r matches Some(t) ==> t.wf(),
{
    let n = holdings.len();
    let mut total = zero_amount();
    let mut k: usize = 0;
    while k < n
        invariant
            n == holdings@.len(),
            priced(holdings@, prices@),
            k <= n,
            total_upto(holdings@, prices@, k as nat) == Some(total),
            total.wf(),
        decreases n - k,
    {
        let v = match checked_mul(holdings[k].total_shares, prices[k]) {
            Some(v) => v,
            None => {
                proof {
                    lemma_total_stays_none(holdings@, prices@, (k + 1) as nat, n as nat);
                }
                return None;
            },
        };
        total = match checked_add(total, v) {
            Some(t) => t,
            None => {
                proof {
                    lemma_total_stays_none(holdings@, prices@, (k + 1) as nat, n as nat);
                }
                return None;
            },
        };
        k = k + 1;
    }
    Some(total)
}

fn value_held(holdings: &Vec<Holding>, prices: &Vec<Amount>, symbol: &str) -> (r: Option<Amount>)
    requires
        priced(holdings@, prices@),
    ensures
        r == current_value(holdings@, prices@, symbol@, 0),
        r matches Some(v) ==> v.wf(),
{
    let n = holdings.len();
    let mut k: usize = 0;
    while k < n
        invariant
            n == holdings@.len(),
            priced(holdings@, prices@),
            k <= n,
            current_value(holdings@, prices@, symbol@, k as nat) == current_value(holdings@, prices@, symbol@, 0),
        decreases n - k,
    {
        if text_equal(holdings[k].symbol.as_str(), symbol) {
            return checked_mul(holdings[k].total_shares, prices[k]);
        }
        k = k + 1;
    }
    Some(zero_amount())
}

fn names_target(targets: &Vec<Target>, symbol: &str) -> (r: bool)
    ensures
        r == targeted(target_views(targets@), symbol@),
{
    let n = targets.len();
    let mut k: usize = 0;
    while k < n
        invariant
            n == targets@.len(),
            k <= n,
            forall|q: int| 0 <= q < k ==> (#[trigger] targets@[q]).symbol@ != symbol@,
        decreases n - k,
    {
        if text_equal(targets[k].symbol.as_str(), symbol) {
            assert(target_views(targets@)[k as int].0 == symbol@);
            return true;
        }
        k = k + 1;
    }
    proof {
        if targeted(target_views(targets@), symbol@) {
            let q = choose|q: int| 0 <= q < target_views(targets@).len() && target_views(targets@)[q].0 == symbol@;
            assert(targets@[q].symbol@ == symbol@);
        }
    }
    false
}

/// Works out the advice for the holdings, each at the price given for it
/// (in the same order), against the target allocations. Fails where a
/// decimal operation leaves the range of a decimal.
pub fn rebalance(holdings: &Vec<Holding>, prices: &Vec<Amount>, targets: &Vec<Target>) -> (r: Result<
    Vec<Advice>,
    LedgerError,
>)
    requires
        priced(holdings@, prices@),
        forall|k: int| 0 <= k < targets@.len() ==> (#[trigger] targets@[k]).percent.wf(),
    ensures
        r is Err <==> rebalance_advice(holdings@, prices@, target_views(targets@)) is None,
        r matches Ok(v) ==> rebalance_advice(holdings@, prices@, target_views(targets@)) matches Some(s)
            && same_advice(v@, s),
{
    let ghost ts = target_views(targets@);
    let total = match total_value(holdings, prices) {
        Some(t) => t,
        None => return Err(LedgerError::ArithmeticOverflow),
    };
    let hundred_percent = Amount { mantissa: 100, scale: 0 };
    let mut out: Vec<Advice> = Vec::new();
    let m = targets.len();
    let mut k: usize = 0;
    while k < m
        invariant
            m == targets@.len(),
            ts == target_views(targets@),
            priced(holdings@, prices@),
            forall|q: int| 0 <= q < targets@.len() ==> (#[trigger] targets@[q]).percent.wf(),
            total.wf(),
            total_upto(holdings@, prices@, holdings@.len()) == Some(total),
            hundred_percent == hundred(),
            k <= m,
            targets_advice(holdings@, prices@, total, ts, k as nat) matches Some(s) && same_advice(out@, s),
        decreases m - k,
    {
        let ghost before = out@;
        let symbol = targets[k].symbol.as_str();
        assert(ts[k as int] == targets@[k as int]@);
        let current = match value_held(holdings, prices, symbol) {
            Some(c) => c,
            None => {
                proof {
                    lemma_targets_stay_none(holdings@, prices@, total, ts, (k + 1) as nat, m as nat);
                }
                return Err(LedgerError::ArithmeticOverflow);
            },
        };
        let share = match checked_mul(total, targets[k].percent) {
            Some(p) => p,
            None => {
                proof {
                    lemma_targets_stay_none(holdings@, prices@, total, ts, (k + 1) as nat, m as nat);
                }
                return Err(LedgerError::ArithmeticOverflow);
            },
        };
        let goal = match checked_div(share, hundred_percent) {
            Some(g) => g,
            None => {
                proof {
                    lemma_targets_stay_none(holdings@, prices@, total, ts, (k + 1) as nat, m as nat);
                }
                return Err(LedgerError::ArithmeticOverflow);
            },
        };
        match advise(symbol, current, goal) {
            Some(a) => {
                out.push(a);
                proof {
                    let s = targets_advice(holdings@, prices@, total, ts, k as nat)->0;
                    assert forall|q: int| 0 <= q < out@.len() implies (#[trigger] out@[q])@ == s.push(a@)[q] by {
                        if q < before.len() {
                            assert(out@[q] == before[q]);
                        }
                    }
                }
            },
            None => {
                proof {
                    lemma_targets_stay_none(holdings@, prices@, total, ts, (k + 1) as nat, m as nat);
                }
                return Err(LedgerError::ArithmeticOverflow);
            },
        }
        k = k + 1;
    }
    let ghost first = out@;
    let n = holdings.len();
    let mut k: usize = 0;
    while k < n
        invariant
            n == holdings@.len(),
            m == targets@.len(),
            ts == target_views(targets@),
            priced(holdings@, prices@),
            k <= n,
            targets_advice(holdings@, prices@, total, ts, m as nat) matches Some(s) && same_advice(first, s),
            first.len() <= out@.len(),
            forall|q: int| 0 <= q < first.len() ==> out@[q] == first[q],
            untargeted_advice(holdings@, prices@, ts, k as nat) matches Some(s) && same_advice(
                out@.skip(first.len() as int),
                s,
            ),
        decreases n - k,
    {
        let ghost before = out@;
        let symbol = holdings[k].symbol.as_str();
        if !names_target(targets, symbol) {
            let value = match checked_mul(holdings[k].total_shares, prices[k]) {
                Some(v) => v,
                None => {
                    proof {
                        lemma_untargeted_stay_none(holdings@, prices@, ts, (k + 1) as nat, n as nat);
                    }
                    return Err(LedgerError::ArithmeticOverflow);
                },
            };
            match advise(symbol, value, zero_amount()) {
                Some(a) => {
                    out.push(a);
                    proof {
                        let s = untargeted_advice(holdings@, prices@, ts, k as nat)->0;
                        assert forall|q: int| 0 <= q < first.len() implies out@[q] == first[q] by {
                            assert(out@[q] == before[q]);
                        }
                        let tail = out@.skip(first.len() as int);
                        assert forall|q: int| 0 <= q < tail.len() implies (#[trigger] tail[q])@ == s.push(a@)[q] by {
                            if q < tail.len() - 1 {
                                assert(tail[q] == before.skip(first.len() as int)[q]);
                            }
                        }
                    }
                },
                None => {
                    proof {
                        lemma_untargeted_stay_none(holdings@, prices@, ts, (k + 1) as nat, n as nat);
                    }
                    return Err(LedgerError::ArithmeticOverflow);
                },
            }
        }
        k = k + 1;
    }
    proof {
        let a = targets_advice(holdings@, prices@, total, ts, m as nat)->0;
        let b = untargeted_advice(holdings@, prices@, ts, n as nat)->0;
        assert forall|q: int| 0 <= q < out@.len() implies (#[trigger] out@[q])@ == (a + b)[q] by {
            if q < first.len() {
                assert(out@[q] == first[q]);
            } else {
                assert(out@[q] == out@.skip(first.len() as int)[q - first.len()]);
            }
        }
    }
    Ok(out)
}

/// The advice names every target, in the order of the targets, before any
/// held symbol without a target.
pub proof fn lemma_advice_follows_targets(hs: Seq<Holding>, ps: Seq<Amount>, ts: Seq<(Seq<char>, Amount)>)
    requires
        rebalance_advice(hs, ps, ts) is Some,
    ensures
        rebalance_advice(hs, ps, ts) matches Some(s) ==> s.len() >= ts.len() && forall|k: int|
            0 <= k < ts.len() ==> (#[trigger] s[k]).0 == ts[k].0,
{
    let total = total_upto(hs, ps, hs.len())->0;
    lemma_targets_advice_names(hs, ps, total, ts, ts.len());
}

proof fn lemma_targets_advice_names(
    hs: Seq<Holding>,
    ps: Seq<Amount>,
    total: Amount,
    ts: Seq<(Seq<char>, Amount)>,
    n: nat,
)
    requires
        n <= ts.len(),
    ensures
        targets_advice(hs, ps, total, ts, n) matches Some(s) ==> s.len() == n && forall|k: int|
            0 <= k < n ==> (#[trigger] s[k]).0 == ts[k].0,
    decreases n,
{
    if n > 0 {
        lemma_targets_advice_names(hs, ps, total, ts, (n - 1) as nat);
    }
}

/// Advice to buy or sell always moves the value towards its target: buy
/// where the target lies above the value held, sell where it lies below,
/// hold where it is reached.
pub proof fn lemma_action_follows_difference(symbol: Seq<char>, current: Amount, target: Amount)
    ensures
        advice_of(symbol, current, target) matches Some(a) ==> {
            &&& difference(target, current) == Some(a.3)
            &&& (a.4 == Action::Buy <==> a.3.mantissa > 0)
            &&& (a.4 == Action::Sell <==> a.3.mantissa < 0)
            &&& (a.4 == Action::Hold <==> a.3.mantissa == 0)
        },
{
}


/// The market value the spec finds for a symbol held at index `i` (the only
/// holding in it) is that holding's shares at the price given at that same
/// index; for a symbol not held it is zero.
proof fn lemma_current_value_at(hs: Seq<Holding>, ps: Seq<Amount>, symbol: Seq<char>, from: nat)
    requires
        from <= hs.len(),
    ensures
        forall|i: int|
            from <= i < hs.len() && hs[i].symbol@ == symbol && (forall|j: int|
                from <= j < i ==> hs[j].symbol@ != symbol) ==> current_value(hs, ps, symbol, from) == product(
                hs[i].total_shares,
                ps[i],
            ),
        (forall|j: int| from <= j < hs.len() ==> hs[j].symbol@ != symbol) ==> current_value(hs, ps, symbol, from)
            == Some(zero()),
    decreases hs.len() - from,
{
    if from < hs.len() {
        lemma_current_value_at(hs, ps, symbol, from + 1);
    }
}

proof fn lemma_targets_advice_at(
    hs: Seq<Holding>,
    ps: Seq<Amount>,
    total: Amount,
    ts: Seq<(Seq<char>, Amount)>,
    n: nat,
)
    requires
        n <= ts.len(),
    ensures
        targets_advice(hs, ps, total, ts, n) matches Some(s) ==> forall|k: int|
            0 <= k < n ==> Some(#[trigger] s[k]) == target_advice(hs, ps, total, ts[k]),
    decreases n,
{
    if n > 0 {
        lemma_targets_advice_at(hs, ps, total, ts, (n - 1) as nat);
        lemma_targets_advice_names(hs, ps, total, ts, (n - 1) as nat);
        if let Some(s) = targets_advice(hs, ps, total, ts, n) {
            let prev = targets_advice(hs, ps, total, ts, (n - 1) as nat)->0;
            assert forall|k: int| 0 <= k < n implies Some(#[trigger] s[k]) == target_advice(hs, ps, total, ts[k]) by {
                if k < n - 1 {
                    assert(s[k] == prev[k]);
                }
            }
        }
    }
}

/// Each target's advice values the holding in its symbol at that holding's
/// own shares times the price given at the holding's own index, and a
/// target not held at zero; the target value is the total value of all the
/// holdings, each at its own price, times the percentage over 100.
pub proof fn lemma_advice_values_each_holding_at_its_price(
    hs: Seq<Holding>,
    ps: Seq<Amount>,
    ts: Seq<(Seq<char>, Amount)>,
)
    requires
        forall|i: int, j: int| 0 <= i < j < hs.len() ==> hs[i].symbol@ != hs[j].symbol@,
    ensures
        rebalance_advice(hs, ps, ts) matches Some(s) ==> forall|k: int, i: int|
            0 <= k < ts.len() && 0 <= i < hs.len() && hs[i].symbol@ == ts[k].0 ==> Some(
                (#[trigger] s[k]).1,
            ) == product(#[trigger] hs[i].total_shares, ps[i]),
        rebalance_advice(hs, ps, ts) matches Some(s) ==> forall|k: int|
            0 <= k < ts.len() && (forall|j: int| 0 <= j < hs.len() ==> hs[j].symbol@ != ts[k].0) ==> (
            #[trigger] s[k]).1 == zero(),
        rebalance_advice(hs, ps, ts) matches Some(s) ==> forall|k: int|
            0 <= k < ts.len() ==> (total_upto(hs, ps, hs.len()) matches Some(total) && Some((#[trigger] s[k]).2)
                == target_value(total, ts[k].1)),
{
    if let Some(total) = total_upto(hs, ps, hs.len()) {
        lemma_targets_advice_at(hs, ps, total, ts, ts.len());
        lemma_targets_advice_names(hs, ps, total, ts, ts.len());
        assert forall|k: int| 0 <= k < ts.len() implies {
            &&& forall|i: int|
                0 <= i < hs.len() && hs[i].symbol@ == ts[k].0 ==> current_value(hs, ps, ts[k].0, 0) == product(
                    hs[i].total_shares,
                    ps[i],
                )
            &&& (forall|j: int| 0 <= j < hs.len() ==> hs[j].symbol@ != ts[k].0) ==> current_value(hs, ps, ts[k].0, 0)
                == Some(zero())
        } by {
            lemma_current_value_at(hs, ps, ts[k].0, 0);
            assert forall|i: int| 0 <= i < hs.len() && hs[i].symbol@ == ts[k].0 implies current_value(
                hs,
                ps,
                ts[k].0,
                0,
            ) == product(hs[i].total_shares, ps[i]) by {
                assert forall|j: int| 0 <= j < i implies hs[j].symbol@ != ts[k].0 by {
                    assert(hs[j].symbol@ != hs[i].symbol@);
                }
            }
        }
        if let Some(s) = rebalance_advice(hs, ps, ts) {
            let a = targets_advice(hs, ps, total, ts, ts.len())->0;
            assert forall|k: int| 0 <= k < ts.len() implies s[k] == a[k] by {}
        }
    }
}

proof fn lemma_untargeted_advice_items(hs: Seq<Holding>, ps: Seq<Amount>, ts: Seq<(Seq<char>, Amount)>, n: nat)
    requires
        n <= hs.len(),
    ensures
        untargeted_advice(hs, ps, ts, n) matches Some(s) ==> forall|q: int|
            0 <= q < s.len() ==> exists|i: int|
                0 <= i < n && !targeted(ts, hs[i].symbol@) && (#[trigger] s[q]).0 == hs[i].symbol@ && Some(s[q].1)
                    == product(hs[i].total_shares, ps[i]) && s[q].2 == zero(),
    decreases n,
{
    if n > 0 {
        lemma_untargeted_advice_items(hs, ps, ts, (n - 1) as nat);
        if let Some(s) = untargeted_advice(hs, ps, ts, n) {
            let prev = untargeted_advice(hs, ps, ts, (n - 1) as nat)->0;
            assert forall|q: int| 0 <= q < s.len() implies exists|i: int|
                0 <= i < n && !targeted(ts, hs[i].symbol@) && (#[trigger] s[q]).0 == hs[i].symbol@ && Some(s[q].1)
                    == product(hs[i].total_shares, ps[i]) && s[q].2 == zero() by {
                if q < prev.len() {
                    assert(s[q] == prev[q]);
                    let i = choose|i: int|
                        0 <= i < n - 1 && !targeted(ts, hs[i].symbol@) && prev[q].0 == hs[i].symbol@ && Some(prev[q].1)
                            == product(hs[i].total_shares, ps[i]) && prev[q].2 == zero();
                    assert(0 <= i < n);
                } else {
                    let i = n - 1;
                    assert(!targeted(ts, hs[i].symbol@));
                }
            }
        }
    }
}

/// After the targets, the advice lists holdings that no target names, each
/// valued at its own shares times the price given at its own index, with a
/// target value of zero.
pub proof fn lemma_untargeted_holdings_valued_at_their_price(
    hs: Seq<Holding>,
    ps: Seq<Amount>,
    ts: Seq<(Seq<char>, Amount)>,
)
    ensures
        rebalance_advice(hs, ps, ts) matches Some(s) ==> forall|q: int|
            ts.len() <= q < s.len() ==> exists|i: int|
                0 <= i < hs.len() && !targeted(ts, hs[i].symbol@) && (#[trigger] s[q]).0 == hs[i].symbol@ && Some(
                    s[q].1,
                ) == product(hs[i].total_shares, ps[i]) && s[q].2 == zero(),
{
    if let Some(total) = total_upto(hs, ps, hs.len()) {
        lemma_targets_advice_names(hs, ps, total, ts, ts.len());
        lemma_untargeted_advice_items(hs, ps, ts, hs.len());
        if let Some(s) = rebalance_advice(hs, ps, ts) {
            let a = targets_advice(hs, ps, total, ts, ts.len())->0;
            let b = untargeted_advice(hs, ps, ts, hs.len())->0;
            assert forall|q: int| ts.len() <= q < s.len() implies exists|i: int|
                0 <= i < hs.len() && !targeted(ts, hs[i].symbol@) && (#[trigger] s[q]).0 == hs[i].symbol@ && Some(
                    s[q].1,
                ) == product(hs[i].total_shares, ps[i]) && s[q].2 == zero() by {
                assert(s[q] == b[q - a.len()]);
            }
        }
    }
}
} // verus!
