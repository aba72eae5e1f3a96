//! The watchlist of the configuration file, `{"tickers": ["AAPL", "TSLA"]}`:
//! symbols whose quotes are followed besides those of the holdings.

use crate::ledger::Holding;
use crate::targets::{
    key_end, key_end_from, lemma_key_end_bounds, lemma_skip_spaces_bounds, skip_spaces, skip_spaces_from,
    text_between,
};
use crate::text::{chars_of, text_equal};
use vstd::prelude::*;

verus! {

/// The one member of the configuration object.
pub const TICKERS_KEY: &'static str = "tickers";

/// The quoted text at `i` (no quote or backslash inside), and the position
/// after its closing quote.
pub open spec fn quoted_at(s: Seq<char>, i: nat) -> Option<(Seq<char>, nat)> {
    if !(i < s.len() && s[i as int] == '"') {
        None
    } else {
        let k = key_end(s, i + 1);
        if k < s.len() && s[k as int] == '"' {
            Some((s.subrange(i + 1int, k as int), k + 1))
        } else {
            None
        }
    }
}

/// The quoted texts written from `i` on, separated by commas, and the
/// position after the white space that follows the last.
pub open spec fn quoted_list_at(s: Seq<char>, i: nat) -> Option<(Seq<Seq<char>>, nat)>
    decreases s.len() - i,
{
    match quoted_at(s, i) {
        None => None,
        Some((w, e)) => {
            let j = skip_spaces(s, e);
            if j < s.len() && s[j as int] == ',' {
                proof {
                    lemma_quoted_advances(s, i);
                    lemma_skip_spaces_bounds(s, e);
                    lemma_skip_spaces_bounds(s, j + 1);
                }
                match quoted_list_at(s, skip_spaces(s, j + 1)) {
                    Some((ws, f)) => Some((seq![w] + ws, f)),
                    None => None,
                }
            } else {
                Some((seq![w], j))
            }
        }
    }
}

/// The array of quoted texts at `i`, and the position after it.
pub open spec fn array_at(s: Seq<char>, i: nat) -> Option<(Seq<Seq<char>>, nat)> {
    if !(i < s.len() && s[i as int] == '[') {
        None
    } else {
        let j = skip_spaces(s, i + 1);
        if j < s.len() && s[j as int] == ']' {
            Some((seq![], j + 1))
        } else {
            match quoted_list_at(s, j) {
                Some((ws, k)) => if k < s.len() && s[k as int] == ']' {
                    Some((ws, k + 1))
                } else {
                    None
                },
                None => None,
            }
        }
    }
}

/// The watchlist a configuration text gives, in the order written; `None`
/// where the text is no object whose one member `tickers` is an array of
/// symbols.
pub open spec fn watchlist_of(s: Seq<char>) -> Option<Seq<Seq<char>>> {
    let i = skip_spaces(s, 0);
    if !(i < s.len() && s[i as int] == '{') {
        None
    } else {
        match quoted_at(s, skip_spaces(s, i + 1)) {
            Some((key, e)) => {
                let m = skip_spaces(s, e);
                if key == TICKERS_KEY@ && m < s.len() && s[m as int] == ':' {
                    match array_at(s, skip_spaces(s, m + 1)) {
                        Some((ws, k)) => {
                            let z = skip_spaces(s, k);
                            if z < s.len() && s[z as int] == '}' && skip_spaces(s, z + 1) == s.len() {
                                Some(ws)
                            } else {
                                None
                            }
                        },
                        None => None,
                    }
                } else {
                    None
                }
            },
            None => None,
        }
    }
}

/// The texts, element by element.
pub open spec fn same_texts(v: Seq<String>, ws: Seq<Seq<char>>) -> bool {
    &&& v.len() == ws.len()
    &&& forall|k: int| 0 <= k < v.len() ==> (#[trigger] v[k])@ == ws[k]
}

/// A quoted text takes at least two characters.
pub proof fn lemma_quoted_advances(s: Seq<char>, i: nat)
    ensures
        quoted_at(s, i) matches Some((w, e)) ==> i < e <= s.len(),
{
    lemma_key_end_bounds(s, i + 1);
}

fn quoted_from(cs: &Vec<char>, i: usize) -> (r: Option<(String, usize)>)
    requires
        i <= cs@.len(),
    ensures
        match r {
            Some((w, e)) => quoted_at(cs@, i as nat) == Some((w@, e as nat)),
            None => quoted_at(cs@, i as nat) is None,
        },
{
    if !(i < cs.len() && cs[i] == '"') {
        return None;
    }
    let k = key_end_from(cs, i + 1);
    proof {
        lemma_key_end_bounds(cs@, (i + 1) as nat);
    }
    if k < cs.len() && cs[k] == '"' {
        Some((text_between(cs, i + 1, k), k + 1))
    } else {
        None
    }
}

fn quoted_list_from(cs: &Vec<char>, i: usize) -> (r: Option<(Vec<String>, usize)>)
    requires
        i <= cs@.len(),
    ensures
        match r {
            Some((v, e)) => quoted_list_at(cs@, i as nat) matches Some((ws, f)) && same_texts(v@, ws) && f == e,
            None => quoted_list_at(cs@, i as nat) is None,
        },
    decreases cs@.len() - i,
{
    proof {
        lemma_quoted_advances(cs@, i as nat);
    }
    match quoted_from(cs, i) {
        None => None,
        Some((w, e)) => {
            let j = skip_spaces_from(cs, e);
            proof {
                lemma_skip_spaces_bounds(cs@, e as nat);
            }
            if j < cs.len() && cs[j] == ',' {
                let next = skip_spaces_from(cs, j + 1);
                proof {
                    lemma_skip_spaces_bounds(cs@, (j + 1) as nat);
                }
                match quoted_list_from(cs, next) {
                    Some((mut rest, f)) => {
                        let ghost before = rest@;
                        rest.insert(0, w);
                        proof {
                            let found = quoted_list_at(cs@, next as nat)->0;
                            let ws = found.0;
                            assert forall|k: int| 0 <= k < rest@.len() implies (#[trigger] rest@[k])@ == (seq![
                                w@,
                            ] + ws)[k] by {
                                if k > 0 {
                                    assert(rest@[k] == before[k - 1]);
                                }
                            }
                        }
                        Some((rest, f))
                    },
                    None => None,
                }
            } else {
                let mut v: Vec<String> = Vec::new();
                v.push(w);
                proof {
                    assert(v@[0]@ == seq![w@][0]);
                }
                Some((v, j))
            }
        },
    }
}

fn array_from(cs: &Vec<char>, i: usize) -> (r: Option<(Vec<String>, usize)>)
    requires
        i <= cs@.len(),
    ensures
        match r {
            Some((v, e)) => array_at(cs@, i as nat) matches Some((ws, f)) && same_texts(v@, ws) && f == e
                && e <= cs@.len(),
            None => array_at(cs@, i as nat) is None,
        },
{
    if !(i < cs.len() && cs[i] == '[') {
        return None;
    }
    let j = skip_spaces_from(cs, i + 1);
    proof {
        lemma_skip_spaces_bounds(cs@, (i + 1) as nat);
    }
    if j < cs.len() && cs[j] == ']' {
        return Some((Vec::new(), j + 1));
    }
    match quoted_list_from(cs, j) {
        Some((v, k)) => {
            proof {
                lemma_skip_spaces_bounds(cs@, j as nat);
                if quoted_list_at(cs@, j as nat) is Some {
                    lemma_quoted_list_within(cs@, j as nat);
                }
            }
            if k < cs.len() && cs[k] == ']' {
                Some((v, k + 1))
            } else {
                None
            }
        },
        None => None,
    }
}

proof fn lemma_quoted_list_within(s: Seq<char>, i: nat)
    requires
        i <= s.len(),
    ensures
        quoted_list_at(s, i) matches Some((ws, f)) ==> f <= s.len(),
    decreases s.len() - i,
{
    lemma_quoted_advances(s, i);
    if let Some((w, e)) = quoted_at(s, i) {
        lemma_skip_spaces_bounds(s, e);
        let j = skip_spaces(s, e);
        if j < s.len() && s[j as int] == ',' {
            lemma_skip_spaces_bounds(s, j + 1);
            lemma_quoted_list_within(s, skip_spaces(s, j + 1));
        }
    }
}

/// Reads the watchlist of a configuration text; `None` where the text is
/// no object whose one member `tickers` is an array of symbols.
pub fn parse_watchlist(text: &str) -> (r: Option<Vec<String>>)
    ensures
        match r {
            Some(v) => watchlist_of(text@) matches Some(ws) && same_texts(v@, ws),
            None => watchlist_of(text@) is None,
        },
{
    let cs = chars_of(text);
    let i = skip_spaces_from(&cs, 0);
    proof {
        lemma_skip_spaces_bounds(cs@, 0);
    }
    if !(i < cs.len() && cs[i] == '{') {
        return None;
    }
    let j = skip_spaces_from(&cs, i + 1);
    proof {
        lemma_skip_spaces_bounds(cs@, (i + 1) as nat);
        lemma_quoted_advances(cs@, j as nat);
    }
    let (key, e) = match quoted_from(&cs, j) {
        Some(found) => found,
        None => return None,
    };
    let m = skip_spaces_from(&cs, e);
    proof {
        lemma_skip_spaces_bounds(cs@, e as nat);
    }
    if !(text_equal(key.as_str(), TICKERS_KEY) && m < cs.len() && cs[m] == ':') {
        return None;
    }
    let n = skip_spaces_from(&cs, m + 1);
    proof {
        lemma_skip_spaces_bounds(cs@, (m + 1) as nat);
    }
    let (list, k) = match array_from(&cs, n) {
        Some(found) => found,
        None => return None,
    };
    let z = skip_spaces_from(&cs, k);
    proof {
        lemma_skip_spaces_bounds(cs@, k as nat);
    }
    if z < cs.len() && cs[z] == '}' && skip_spaces_from(&cs, z + 1) == cs.len() {
        Some(list)
    } else {
        None
    }
}

/// The symbols whose quotes are fetched: those of `base` in their order,
/// then each watched symbol not among the symbols before it.
pub open spec fn with_watchlist(base: Seq<Seq<char>>, watched: Seq<Seq<char>>) -> Seq<Seq<char>>
    decreases watched.len(),
{
    if watched.len() == 0 {
        base
    } else {
        let before = with_watchlist(base, watched.drop_last());
        if before.contains(watched.last()) {
            before
        } else {
            before.push(watched.last())
        }
    }
}

/// The symbols of the holdings.
pub open spec fn holding_symbols(hs: Seq<Holding>) -> Seq<Seq<char>> {
    Seq::new(hs.len(), |k: int| hs[k].symbol@)
}

fn contains_text_in(v: &Vec<String>, t: &str) -> (r: bool)
    ensures
        r == Seq::new(v@.len(), |k: int| v@[k]@).contains(t@),
{
    let ghost views = Seq::new(v@.len(), |k: int| v@[k]@);
    let n = v.len();
    let mut k: usize = 0;
    while k < n
        invariant
            n == v@.len(),
            views == Seq::new(v@.len(), |q: int| v@[q]@),
            k <= n,
            forall|q: int| 0 <= q < k ==> v@[q]@ != t@,
        decreases n - k,
    {
        if text_equal(v[k].as_str(), t) {
            assert(views[k as int] == t@);
            return true;
        }
        k = k + 1;
    }
    proof {
        if views.contains(t@) {
            let q = choose|q: int| 0 <= q < views.len() && views[q] == t@;
            assert(v@[q]@ == t@);
        }
    }
    false
}

/// The symbols to fetch quotes for: those of the holdings, then those of
/// the watchlist not among them, each once.
pub fn symbols_to_quote(holdings: &Vec<Holding>, watchlist: &Vec<String>) -> (r: Vec<String>)
    ensures
        same_texts(r@, with_watchlist(holding_symbols(holdings@), Seq::new(watchlist@.len(), |k: int| watchlist@[k]@))),
{
    let ghost watched = Seq::new(watchlist@.len(), |k: int| watchlist@[k]@);
    let mut out: Vec<String> = Vec::new();
    let n = holdings.len();
    let mut k: usize = 0;
    while k < n
        invariant
            n == holdings@.len(),
            k <= n,
            same_texts(out@, holding_symbols(holdings@).take(k as int)),
        decreases n - k,
    {
        out.push(holdings[k].symbol.clone());
        proof {
            assert forall|q: int| 0 <= q < out@.len() implies (#[trigger] out@[q])@ == holding_symbols(holdings@).take(
                k + 1,
            )[q] by {}
        }
        k = k + 1;
    }
    assert(holding_symbols(holdings@).take(n as int) =~= holding_symbols(holdings@));
    let m = watchlist.len();
    let mut k: usize = 0;
    assert(watched.take(0) =~= Seq::<Seq<char>>::empty());
    while k < m
        invariant
            m == watchlist@.len(),
            watched == Seq::new(watchlist@.len(), |q: int| watchlist@[q]@),
            k <= m,
            same_texts(out@, with_watchlist(holding_symbols(holdings@), watched.take(k as int))),
        decreases m - k,
    {
        let ghost before = with_watchlist(holding_symbols(holdings@), watched.take(k as int));
        assert(watched.take(k + 1).drop_last() =~= watched.take(k as int));
        assert(watched.take(k + 1).last() == watchlist@[k as int]@);
        assert(Seq::new(out@.len(), |q: int| out@[q]@) =~= before);
        if !contains_text_in(&out, watchlist[k].as_str()) {
            out.push(watchlist[k].clone());
        }
        k = k + 1;
    }
    assert(watched.take(m as int) =~= watched);
    out
}

} // verus!
