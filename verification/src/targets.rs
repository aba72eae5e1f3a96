//! The target allocations of a portfolio, stored as a JSON object that maps
//! each symbol to its target share of the portfolio in percent, such as
//! `{"AAPL": 60, "VOO": 40}` or `{}`. A percentage is written in decimal
//! digits with an optional fraction, at most 28 digits in all.

use crate::amount::{pow10, Amount};
use crate::text::{chars_of, push_char};
use vstd::prelude::*;

verus! {

/// Most digits a percentage may have.
pub const MAX_DIGITS: usize = 28;

/// One symbol and its target percentage.
#[derive(Debug)]
pub struct Target {
    pub symbol: String,
    pub percent: Amount,
}

impl View for Target {
    type V = (Seq<char>, Amount);

    open spec fn view(&self) -> (Seq<char>, Amount) {
        (self.symbol@, self.percent)
    }
}

/// White space between the tokens.
pub open spec fn is_space(c: char) -> bool {
    c == ' ' || c == '\t' || c == '\n' || c == '\r'
}

/// A decimal digit.
pub open spec fn is_digit(c: char) -> bool {
    48 <= (c as u32) <= 57
}

/// The value of a decimal digit.
pub open spec fn digit_value(c: char) -> nat {
    ((c as u32) - 48) as nat
}

/// The value of a sequence of decimal digits.
pub open spec fn digits_value(d: Seq<char>) -> nat
    decreases d.len(),
{
    if d.len() == 0 {
        0
    } else {
        digits_value(d.drop_last()) * 10 + digit_value(d.last())
    }
}

/// The first position from `i` on that holds no white space.
pub open spec fn skip_spaces(s: Seq<char>, i: nat) -> nat
    decreases s.len() - i,
{
    if i < s.len() && is_space(s[i as int]) {
        skip_spaces(s, i + 1)
    } else {
        i
    }
}

/// The first position from `i` on that holds no digit.
pub open spec fn digits_end(s: Seq<char>, i: nat) -> nat
    decreases s.len() - i,
{
    if i < s.len() && is_digit(s[i as int]) {
        digits_end(s, i + 1)
    } else {
        i
    }
}

/// The first position from `i` on that holds a quote or a backslash.
pub open spec fn key_end(s: Seq<char>, i: nat) -> nat
    decreases s.len() - i,
{
    if i < s.len() && s[i as int] != '"' && s[i as int] != '\\' {
        key_end(s, i + 1)
    } else {
        i
    }
}

/// The percentage written at `i`, and the position after it: digits,
/// optionally a point and more digits, at most `MAX_DIGITS` digits in all.
pub open spec fn number_at(s: Seq<char>, i: nat) -> Option<(Amount, nat)> {
    let j = digits_end(s, i);
    if j == i {
        None
    } else if j < s.len() && s[j as int] == '.' {
        let k = digits_end(s, j + 1);
        let digits = s.subrange(i as int, j as int) + s.subrange(j + 1int, k as int);
        if k == j + 1 || digits.len() > MAX_DIGITS {
            None
        } else {
            Some((Amount { mantissa: digits_value(digits) as i128, scale: (k - j - 1) as u32 }, k))
        }
    } else if j - i > MAX_DIGITS {
        None
    } else {
        Some((Amount { mantissa: digits_value(s.subrange(i as int, j as int)) as i128, scale: 0 }, j))
    }
}

/// The member written at `i` (a quoted symbol, a colon and a percentage),
/// and the position after it.
pub open spec fn member_at(s: Seq<char>, i: nat) -> Option<((Seq<char>, Amount), nat)> {
    if !(i < s.len() && s[i as int] == '"') {
        None
    } else {
        let k = key_end(s, i + 1);
        if !(k < s.len() && s[k as int] == '"') {
            None
        } else {
            let m = skip_spaces(s, k + 1);
            if !(m < s.len() && s[m as int] == ':') {
                None
            } else {
                match number_at(s, skip_spaces(s, m + 1)) {
                    Some((a, e)) => Some(((s.subrange(i + 1int, k as int), a), e)),
                    None => None,
                }
            }
        }
    }
}

/// The members written from `i` on, separated by commas, and the position
/// after the white space that follows the last.
pub open spec fn members_at(s: Seq<char>, i: nat) -> Option<(Seq<(Seq<char>, Amount)>, nat)>
    decreases s.len() - i,
{
    match member_at(s, i) {
        None => None,
        Some((m, e)) => {
            let j = skip_spaces(s, e);
            if j < s.len() && s[j as int] == ',' {
                proof {
                    lemma_member_advances(s, i);
                    lemma_skip_spaces_bounds(s, e);
                    lemma_skip_spaces_bounds(s, j + 1);
                }
                match members_at(s, skip_spaces(s, j + 1)) {
                    Some((ms, f)) => Some((seq![m] + ms, f)),
                    None => None,
                }
            } else {
                Some((seq![m], j))
            }
        }
    }
}

/// The target allocations a text describes, in the order written; `None`
/// where the text is no such object.
pub open spec fn targets_of(s: Seq<char>) -> Option<Seq<(Seq<char>, Amount)>> {
    let i = skip_spaces(s, 0);
    if !(i < s.len() && s[i as int] == '{') {
        None
    } else {
        let j = skip_spaces(s, i + 1);
        if j < s.len() && s[j as int] == '}' {
            if skip_spaces(s, j + 1) == s.len() {
                Some(seq![])
            } else {
                None
            }
        } else {
            match members_at(s, j) {
                Some((ms, k)) => if k < s.len() && s[k as int] == '}' && skip_spaces(s, k + 1) == s.len() {
                    Some(ms)
                } else {
                    None
                },
                None => None,
            }
        }
    }
}

/// The parsed targets, element by element.
pub open spec fn same_targets(v: Seq<Target>, ms: Seq<(Seq<char>, Amount)>) -> bool {
    &&& v.len() == ms.len()
    &&& forall|k: int| 0 <= k < v.len() ==> (#[trigger] v[k])@ == ms[k]
}

/// Skipping white space moves forward and stays within the text.
pub proof fn lemma_skip_spaces_bounds(s: Seq<char>, i: nat)
    ensures
        i <= skip_spaces(s, i),
        i <= s.len() ==> skip_spaces(s, i) <= s.len(),
    decreases s.len() - i,
{
    if i < s.len() && is_space(s[i as int]) {
        lemma_skip_spaces_bounds(s, i + 1);
    }
}

proof fn lemma_digits_end_bounds(s: Seq<char>, i: nat)
    ensures
        i <= digits_end(s, i),
        i <= s.len() ==> digits_end(s, i) <= s.len(),
        forall|q: int| i <= q < digits_end(s, i) ==> is_digit(#[trigger] s[q]),
    decreases s.len() - i,
{
    if i < s.len() && is_digit(s[i as int]) {
        lemma_digits_end_bounds(s, i + 1);
    }
}

pub(crate) proof fn lemma_key_end_bounds(s: Seq<char>, i: nat)
    ensures
        i <= key_end(s, i),
        i <= s.len() ==> key_end(s, i) <= s.len(),
    decreases s.len() - i,
{
    if i < s.len() && s[i as int] != '"' && s[i as int] != '\\' {
        lemma_key_end_bounds(s, i + 1);
    }
}

/// A member, where one is written, takes at least one character.
pub proof fn lemma_member_advances(s: Seq<char>, i: nat)
    ensures
        member_at(s, i) matches Some((m, e)) ==> i < e <= s.len(),
{
    if i < s.len() && s[i as int] == '"' {
        let k = key_end(s, i + 1);
        lemma_key_end_bounds(s, i + 1);
        if k < s.len() && s[k as int] == '"' {
            let m = skip_spaces(s, k + 1);
            lemma_skip_spaces_bounds(s, k + 1);
            if m < s.len() && s[m as int] == ':' {
                let n = skip_spaces(s, m + 1);
                lemma_skip_spaces_bounds(s, m + 1);
                let j = digits_end(s, n);
                lemma_digits_end_bounds(s, n);
                if j < s.len() && s[j as int] == '.' {
                    lemma_digits_end_bounds(s, j + 1);
                }
            }
        }
    }
}

/// A value of `d` digits is below ten to the `d`.
proof fn lemma_digits_value_bound(d: Seq<char>)
    requires
        forall|q: int| 0 <= q < d.len() ==> is_digit(#[trigger] d[q]),
    ensures
        digits_value(d) < pow10(d.len()),
    decreases d.len(),
{
    if d.len() > 0 {
        assert forall|q: int| 0 <= q < d.drop_last().len() implies is_digit(#[trigger] d.drop_last()[q]) by {
            assert(d.drop_last()[q] == d[q]);
        }
        lemma_digits_value_bound(d.drop_last());
        assert(is_digit(d[d.len() - 1]));
    }
}

proof fn lemma_pow10_monotone(a: nat, b: nat)
    requires
        a <= b,
    ensures
        pow10(a) <= pow10(b),
    decreases b,
{
    if a < b {
        lemma_pow10_monotone(a, (b - 1) as nat);
    }
}

proof fn lemma_pow10_max()
    ensures
        pow10(MAX_DIGITS as nat) == 10_000_000_000_000_000_000_000_000_000nat,
{
    reveal_with_fuel(pow10, 29);
}

fn is_space_char(c: char) -> (r: bool)
    ensures
        r == is_space(c),
{
    c == ' ' || c == '\t' || c == '\n' || c == '\r'
}

fn is_digit_char(c: char) -> (r: bool)
    ensures
        r == is_digit(c),
{
    let code = c as u32;
    48 <= code && code <= 57
}

pub(crate) fn skip_spaces_from(cs: &Vec<char>, i: usize) -> (r: usize)
    requires
        i <= cs@.len(),
    ensures
        r == skip_spaces(cs@, i as nat),
{
    let mut j = i;
    while j < cs.len() && is_space_char(cs[j])
        invariant
            i <= j <= cs@.len(),
            skip_spaces(cs@, j as nat) == skip_spaces(cs@, i as nat),
        decreases cs@.len() - j,
    {
        j = j + 1;
    }
    j
}

fn digits_end_from(cs: &Vec<char>, i: usize) -> (r: usize)
    requires
        i <= cs@.len(),
    ensures
        r == digits_end(cs@, i as nat),
{
    let mut j = i;
    while j < cs.len() && is_digit_char(cs[j])
        invariant
            i <= j <= cs@.len(),
            digits_end(cs@, j as nat) == digits_end(cs@, i as nat),
        decreases cs@.len() - j,
    {
        j = j + 1;
    }
    j
}

pub(crate) fn key_end_from(cs: &Vec<char>, i: usize) -> (r: usize)
    requires
        i <= cs@.len(),
    ensures
        r == key_end(cs@, i as nat),
{
    let mut j = i;
    while j < cs.len() && cs[j] != '"' && cs[j] != '\\'
        invariant
            i <= j <= cs@.len(),
            key_end(cs@, j as nat) == key_end(cs@, i as nat),
        decreases cs@.len() - j,
    {
        j = j + 1;
    }
    j
}

/// The characters `from..to` as a text.
pub(crate) fn text_between(cs: &Vec<char>, from: usize, to: usize) -> (r: String)
    requires
        from <= to <= cs@.len(),
    ensures
        r@ == cs@.subrange(from as int, to as int),
{
    let mut r = String::new();
    let mut k = from;
    while k < to
        invariant
            from <= k <= to <= cs@.len(),
            r@ == cs@.subrange(from as int, k as int),
        decreases to - k,
    {
        push_char(&mut r, cs[k]);
        assert(r@ =~= cs@.subrange(from as int, k + 1));
        k = k + 1;
    }
    r
}

/// The value of the digits held, which are at most `MAX_DIGITS`.
fn value_of_digits(d: &Vec<char>) -> (r: i128)
    requires
        d@.len() <= MAX_DIGITS,
        forall|q: int| 0 <= q < d@.len() ==> is_digit(#[trigger] d@[q]),
    ensures
        r == digits_value(d@),
        0 <= r < pow10(MAX_DIGITS as nat),
{
    let mut v: i128 = 0;
    let mut q: usize = 0;
    proof {
        lemma_pow10_max();
    }
    while q < d.len()
        invariant
            d@.len() <= MAX_DIGITS,
            forall|x: int| 0 <= x < d@.len() ==> is_digit(#[trigger] d@[x]),
            q <= d@.len(),
            v == digits_value(d@.take(q as int)),
            pow10(MAX_DIGITS as nat) == 10_000_000_000_000_000_000_000_000_000nat,
        decreases d@.len() - q,
    {
        let ghost next = d@.take(q + 1);
        proof {
            assert(next.drop_last() =~= d@.take(q as int));
            assert forall|x: int| 0 <= x < next.len() implies is_digit(#[trigger] next[x]) by {
                assert(next[x] == d@[x]);
            }
            lemma_digits_value_bound(next);
            lemma_pow10_monotone(next.len(), MAX_DIGITS as nat);
            assert(is_digit(d@[q as int]));
        }
        let digit = (d[q] as u32 - 48) as i128;
        v = v * 10 + digit;
        q = q + 1;
    }
    proof {
        assert(d@.take(q as int) =~= d@);
        lemma_digits_value_bound(d@);
        lemma_pow10_monotone(d@.len(), MAX_DIGITS as nat);
    }
    v
}

fn number_from(cs: &Vec<char>, i: usize) -> (r: Option<(Amount, usize)>)
    requires
        i <= cs@.len(),
    ensures
        match r {
            Some((a, e)) => number_at(cs@, i as nat) == Some((a, e as nat)) && a.wf(),
            None => number_at(cs@, i as nat) is None,
        },
{
    let j = digits_end_from(cs, i);
    proof {
        lemma_digits_end_bounds(cs@, i as nat);
        lemma_pow10_max();
    }
    if j == i {
        return None;
    }
    let mut digits: Vec<char> = Vec::new();
    let mut q = i;
    while q < j
        invariant
            i <= q <= j <= cs@.len(),
            digits@ == cs@.subrange(i as int, q as int),
        decreases j - q,
    {
        digits.push(cs[q]);
        assert(digits@ =~= cs@.subrange(i as int, q + 1));
        q = q + 1;
    }
    if j < cs.len() && cs[j] == '.' {
        let k = digits_end_from(cs, j + 1);
        proof {
            lemma_digits_end_bounds(cs@, (j + 1) as nat);
        }
        if k == j + 1 {
            return None;
        }
        let mut q = j + 1;
        while q < k
            invariant
                j + 1 <= q <= k <= cs@.len(),
                digits@ == cs@.subrange(i as int, j as int) + cs@.subrange(j + 1, q as int),
            decreases k - q,
        {
            digits.push(cs[q]);
            assert(digits@ =~= cs@.subrange(i as int, j as int) + cs@.subrange(j + 1, q + 1));
            q = q + 1;
        }
        if digits.len() > MAX_DIGITS {
            return None;
        }
        proof {
            assert forall|x: int| 0 <= x < digits@.len() implies is_digit(#[trigger] digits@[x]) by {
                if x < j - i {
                    assert(digits@[x] == cs@[i + x]);
                } else {
                    assert(digits@[x] == cs@[j + 1 + (x - (j - i))]);
                }
            }
        }
        let v = value_of_digits(&digits);
        Some((Amount { mantissa: v, scale: (k - j - 1) as u32 }, k))
    } else {
        if j - i > MAX_DIGITS {
            return None;
        }
        proof {
            assert forall|x: int| 0 <= x < digits@.len() implies is_digit(#[trigger] digits@[x]) by {
                assert(digits@[x] == cs@[i + x]);
            }
        }
        let v = value_of_digits(&digits);
        Some((Amount { mantissa: v, scale: 0 }, j))
    }
}

fn member_from(cs: &Vec<char>, i: usize) -> (r: Option<(Target, usize)>)
    requires
        i <= cs@.len(),
    ensures
        match r {
            Some((t, e)) => member_at(cs@, i as nat) == Some((t@, e as nat)) && t.percent.wf(),
            None => member_at(cs@, i as nat) is None,
        },
{
    if !(i < cs.len() && cs[i] == '"') {
        return None;
    }
    let k = key_end_from(cs, i + 1);
    proof {
        lemma_key_end_bounds(cs@, (i + 1) as nat);
    }
    if !(k < cs.len() && cs[k] == '"') {
        return None;
    }
    let m = skip_spaces_from(cs, k + 1);
    proof {
        lemma_skip_spaces_bounds(cs@, (k + 1) as nat);
    }
    if !(m < cs.len() && cs[m] == ':') {
        return None;
    }
    let n = skip_spaces_from(cs, m + 1);
    proof {
        lemma_skip_spaces_bounds(cs@, (m + 1) as nat);
    }
    match number_from(cs, n) {
        Some((a, e)) => {
            let symbol = text_between(cs, i + 1, k);
            Some((Target { symbol, percent: a }, e))
        },
        None => None,
    }
}

fn members_from(cs: &Vec<char>, i: usize) -> (r: Option<(Vec<Target>, usize)>)
    requires
        i <= cs@.len(),
    ensures
        match r {
            Some((v, e)) => members_at(cs@, i as nat) matches Some((ms, f)) && same_targets(v@, ms) && f == e
                && forall|k: int| 0 <= k < v@.len() ==> (#[trigger] v@[k]).percent.wf(),
            None => members_at(cs@, i as nat) is None,
        },
    decreases cs@.len() - i,
{
    proof {
        lemma_member_advances(cs@, i as nat);
    }
    match member_from(cs, i) {
        None => None,
        Some((t, e)) => {
            let j = skip_spaces_from(cs, e);
            proof {
                lemma_skip_spaces_bounds(cs@, e as nat);
            }
            if j < cs.len() && cs[j] == ',' {
                let next = skip_spaces_from(cs, j + 1);
                proof {
                    lemma_skip_spaces_bounds(cs@, (j + 1) as nat);
                }
                match members_from(cs, next) {
                    Some((mut rest, f)) => {
                        let ghost before = rest@;
                        rest.insert(0, t);
                        proof {
                            let found = members_at(cs@, next as nat)->0;
                            let ms = found.0;
                            assert forall|k: int| 0 <= k < rest@.len() implies (#[trigger] rest@[k])@ == (seq![
                                t@,
                            ] + ms)[k] by {
                                if k > 0 {
                                    assert(rest@[k] == before[k - 1]);
                                }
                            }
                            assert forall|k: int| 0 <= k < rest@.len() implies (#[trigger] rest@[k]).percent.wf() by {
                                if k > 0 {
                                    assert(rest@[k] == before[k - 1]);
                                }
                            }
                        }
                        Some((rest, f))
                    },
                    None => None,
                }
            } else {
                let mut v: Vec<Target> = Vec::new();
                v.push(t);
                proof {
                    assert(v@[0]@ == seq![t@][0]);
                }
                Some((v, j))
            }
        },
    }
}

/// Reads the target allocations of a portfolio; `None` where the text is no
/// such object.
pub fn parse_targets(text: &str) -> (r: Option<Vec<Target>>)
    ensures
        match r {
            Some(v) => targets_of(text@) matches Some(ms) && same_targets(v@, ms) && forall|k: int|
                0 <= k < v@.len() ==> (#[trigger] v@[k]).percent.wf(),
            None => targets_of(text@) is None,
        },
{
    let cs = chars_of(text);
    let i = skip_spaces_from(&cs, 0);
    proof {
        lemma_skip_spaces_bounds(cs@, 0);
    }
    if !(i < cs.len() && cs[i] == '{') {
        return None;
    }
    let j = skip_spaces_from(&cs, i + 1);
    proof {
        lemma_skip_spaces_bounds(cs@, (i + 1) as nat);
    }
    if j < cs.len() && cs[j] == '}' {
        if skip_spaces_from(&cs, j + 1) == cs.len() {
            return Some(Vec::new());
        } else {
            return None;
        }
    }
    match members_from(&cs, j) {
        Some((v, k)) => {
            proof {
                lemma_skip_spaces_bounds(cs@, j as nat);
            }
            if k < cs.len() && cs[k] == '}' && skip_spaces_from(&cs, k + 1) == cs.len() {
                Some(v)
            } else {
                None
            }
        },
        None => None,
    }
}

} // verus!
