//! The match engine: whether a word is consumed exactly by a compiled
//! pattern.
//!
//! The meaning of a token sequence is the spec function [`spec_match`];
//! the executable matcher [`match_compiled`] evaluates it with a boolean
//! dynamic-programming table over (characters consumed, tokens consumed).

use vstd::prelude::*;

use crate::chars::{
    check_digit, check_lower, check_upper, is_digit_char, is_lower_char, is_plain_char,
    is_upper_char, str_to_chars,
};
use crate::compile::{compile_wildcard, spec_compile};
use crate::tokens::{toks_view, CompileError, TokModel, WildcardTok};

verus! {

/// Whether `c` belongs to the lower-case (or, for `lower == false`, the
/// upper-case) letter class.
pub open spec fn has_case(c: char, lower: bool) -> bool {
    if lower {
        is_lower_char(c)
    } else {
        is_upper_char(c)
    }
}

/// The word `s` is consumed exactly by the token sequence `ts`.
///
/// Reading from the back: an empty pattern consumes only the empty word;
/// `MultipleAny` consumes any number of trailing characters; every other
/// token consumes a fixed number of them — one of the demanded kind, or,
/// for a counted case run, exactly that many of the given case.
pub open spec fn spec_match(s: Seq<char>, ts: Seq<TokModel>) -> bool
    decreases ts.len(), s.len(),
{
    if ts.len() == 0 {
        s.len() == 0
    } else {
        let t = ts.last();
        let init = ts.drop_last();
        match t {
            TokModel::MultipleAny => spec_match(s, init) || (s.len() > 0 && spec_match(
                s.drop_last(),
                ts,
            )),
            TokModel::SingleAny => s.len() > 0 && spec_match(s.drop_last(), init),
            TokModel::Digit => s.len() > 0 && is_digit_char(s.last()) && spec_match(
                s.drop_last(),
                init,
            ),
            TokModel::Symbol(c) => s.len() > 0 && s.last() == c && spec_match(s.drop_last(), init),
            TokModel::LowerSymbol(cnt) => match cnt {
                None => s.len() > 0 && is_lower_char(s.last()) && spec_match(s.drop_last(), init),
                Some(n) => s.len() >= n && (forall|k: int|
                    s.len() - n <= k < s.len() ==> is_lower_char(s[k])) && spec_match(
                    s.take(s.len() - n),
                    init,
                ),
            },
            TokModel::HigherSymbol(cnt) => match cnt {
                None => s.len() > 0 && is_upper_char(s.last()) && spec_match(s.drop_last(), init),
                Some(n) => s.len() >= n && (forall|k: int|
                    s.len() - n <= k < s.len() ==> is_upper_char(s[k])) && spec_match(
                    s.take(s.len() - n),
                    init,
                ),
            },
            TokModel::SymbolSet(cs) => s.len() > 0 && cs.contains(s.last()) && spec_match(
                s.drop_last(),
                init,
            ),
        }
    }
}

/// Whether `c` occurs among the members of `v`.
fn contains_char(v: &Vec<char>, c: char) -> (r: bool)
    ensures
        r == v@.contains(c),
{
    let mut k: usize = 0;
    while k < v.len()
        invariant
            k <= v@.len(),
            forall|t: int| 0 <= t < k ==> v@[t] != c,
        decreases v@.len() - k,
    {
        if v[k] == c {
            proof {
                assert(v@[k as int] == c);
            }
            return true;
        }
        k = k + 1;
    }
    false
}

/// Whether the `need` characters of `w` ending just before position `i`
/// all belong to the demanded case.
fn case_run_ok(w: &Vec<char>, i: usize, need: usize, lower: bool) -> (r: bool)
    requires
        i <= w@.len(),
    ensures
        r == (i >= need && forall|k: int| i - need <= k < i ==> has_case(w@[k], lower)),
{
    if need > i {
        return false;
    }
    let mut k: usize = i - need;
    while k < i
        invariant
            i - need <= k <= i <= w@.len(),
            forall|t: int| i - need <= t < k ==> has_case(w@[t], lower),
        decreases i - k,
    {
        let ok = if lower {
            check_lower(w[k])
        } else {
            check_upper(w[k])
        };
        if !ok {
            proof {
                assert(!has_case(w@[k as int], lower));
            }
            return false;
        }
        k = k + 1;
    }
    true
}

/// Build row `i` of the matching table: cell `j` says whether the first
/// `i` characters of the word are consumed exactly by the first `j`
/// tokens.  `dp` holds the rows already built, one per smaller `i`.
#[verifier::loop_isolation(false)]
fn dp_row(w: &Vec<char>, tokens: &Vec<WildcardTok>, i: usize, dp: &Vec<Vec<bool>>) -> (row: Vec<
    bool,
>)
    requires
        i <= w@.len(),
        dp@.len() == i,
        forall|a: int| 0 <= a < i ==> (#[trigger] dp@[a])@.len() == tokens@.len() + 1,
        forall|a: int, b: int|
            0 <= a < i && 0 <= b <= tokens@.len() ==> #[trigger] dp@[a]@[b] == spec_match(
                w@.take(a),
                toks_view(tokens@).take(b),
            ),
    ensures
        row@.len() == tokens@.len() + 1,
        forall|b: int|
            0 <= b < row@.len() ==> #[trigger] row@[b] == spec_match(
                w@.take(i as int),
                toks_view(tokens@).take(b),
            ),
{
    let ghost sv = w@;
    let ghost tv = toks_view(tokens@);
    let ghost s_i = sv.take(i as int);
    let m = tokens.len();
    let mut row: Vec<bool> = Vec::new();
    row.push(i == 0);
    proof {
        assert(s_i.len() == i);
        assert(tv.take(0) =~= Seq::<TokModel>::empty());
    }
    let mut j: usize = 0;
    while j < m
        invariant
            j <= m,
            row@.len() == j + 1,
            forall|b: int|
                0 <= b < row@.len() ==> #[trigger] row@[b] == spec_match(s_i, tv.take(b)),
        decreases m - j,
    {
        let ghost ts_j = tv.take(j + 1);
        proof {
            assert(ts_j.last() == tv[j as int]);
            assert(ts_j.drop_last() =~= tv.take(j as int));
            assert(tv[j as int] == tokens@[j as int]@);
            if i > 0 {
                assert(s_i.last() == sv[i - 1]);
                assert(s_i.drop_last() =~= sv.take(i - 1));
            }
        }
        let cell: bool = match &tokens[j] {
            WildcardTok::MultipleAny => row[j] || (i > 0 && dp[i - 1][j + 1]),
            WildcardTok::SingleAny => i > 0 && dp[i - 1][j],
            WildcardTok::Digit => i > 0 && check_digit(w[i - 1]) && dp[i - 1][j],
            WildcardTok::Symbol(c) => i > 0 && w[i - 1] == *c && dp[i - 1][j],
            WildcardTok::LowerSymbol(cnt) => match cnt {
                None => i > 0 && check_lower(w[i - 1]) && dp[i - 1][j],
                Some(nn) => {
                    let need = *nn as usize;
                    if case_run_ok(w, i, need, true) {
                        if need == 0 {
                            row[j]
                        } else {
                            dp[i - need][j]
                        }
                    } else {
                        false
                    }
                },
            },
            WildcardTok::HigherSymbol(cnt) => match cnt {
                None => i > 0 && check_upper(w[i - 1]) && dp[i - 1][j],
                Some(nn) => {
                    let need = *nn as usize;
                    if case_run_ok(w, i, need, false) {
                        if need == 0 {
                            row[j]
                        } else {
                            dp[i - need][j]
                        }
                    } else {
                        false
                    }
                },
            },
            WildcardTok::SymbolSet(v) => i > 0 && contains_char(v, w[i - 1]) && dp[i - 1][j],
        };
        proof {
            match tv[j as int] {
                TokModel::LowerSymbol(cnt) => {
                    if cnt is Some {
                        let n0 = cnt->0 as int;
                        if i >= n0 {
                            assert(s_i.take(i - n0) =~= sv.take(i - n0));
                            assert forall|k: int| 0 <= k < i implies is_lower_char(s_i[k])
                                == is_lower_char(sv[k]) by {}
                        }
                    }
                },
                TokModel::HigherSymbol(cnt) => {
                    if cnt is Some {
                        let n0 = cnt->0 as int;
                        if i >= n0 {
                            assert(s_i.take(i - n0) =~= sv.take(i - n0));
                            assert forall|k: int| 0 <= k < i implies is_upper_char(s_i[k])
                                == is_upper_char(sv[k]) by {}
                        }
                    }
                },
                _ => {},
            }
            assert(cell == spec_match(s_i, ts_j));
        }
        row.push(cell);
        j = j + 1;
    }
    row
}

/// Decide `spec_match(word@, toks_view(tokens@))` by dynamic programming
/// over (characters consumed, tokens consumed).
#[verifier::loop_isolation(false)]
pub fn match_compiled(word: &str, tokens: &Vec<WildcardTok>) -> (r: bool)
    ensures
        r == spec_match(word@, toks_view(tokens@)),
{
    let w = str_to_chars(word);
    let n = w.len();
    let m = tokens.len();
    let ghost sv = word@;
    let ghost tv = toks_view(tokens@);
    let mut dp: Vec<Vec<bool>> = Vec::new();
    let first = dp_row(&w, tokens, 0, &dp);
    dp.push(first);
    let mut i: usize = 0;
    while i < n
        invariant
            i <= n,
            dp@.len() == i + 1,
            forall|a: int| 0 <= a <= i ==> (#[trigger] dp@[a])@.len() == m + 1,
            forall|a: int, b: int|
                0 <= a <= i && 0 <= b <= m ==> #[trigger] dp@[a]@[b] == spec_match(
                    sv.take(a),
                    tv.take(b),
                ),
        decreases n - i,
    {
        let row = dp_row(&w, tokens, i + 1, &dp);
        dp.push(row);
        i = i + 1;
    }
    let r = dp[n][m];
    proof {
        assert(sv.take(n as int) =~= sv);
        assert(tv.take(m as int) =~= tv);
    }
    r
}

/// Whether `s` matches the pattern `pattern`: the pattern is compiled and
/// the word matched against the tokens.  A malformed pattern matches no
/// word.
pub fn is_match(s: &str, pattern: &str) -> (r: bool)
    ensures
        r == match spec_compile(pattern@) {
            Ok(ts) => spec_match(s@, ts),
            Err(_) => false,
        },
{
    match compile_wildcard(pattern) {
        Ok(tokens) => match_compiled(s, &tokens),
        Err(_) => false,
    }
}

/// A pattern of plain characters only: each compiles to a literal token.
pub open spec fn all_plain(p: Seq<char>) -> bool {
    forall|k: int| 0 <= k < p.len() ==> is_plain_char(p[k])
}

/// The literal tokens for the characters of `p`, in order.
/// The literal token for one character.
pub open spec fn literal_tok(c: char) -> TokModel {
    TokModel::Symbol(c)
}

pub open spec fn literal_toks(p: Seq<char>) -> Seq<TokModel> {
    Seq::new(p.len(), |i: int| literal_tok(p[i]))
}

/// A pattern of plain characters compiles to one literal token per
/// character.
pub proof fn lemma_compile_plain(p: Seq<char>)
    requires
        all_plain(p),
    ensures
        spec_compile(p) == Ok::<Seq<TokModel>, crate::tokens::CompileError>(literal_toks(p)),
    decreases p.len(),
{
    if p.len() == 0 {
        assert(literal_toks(p) =~= Seq::<TokModel>::empty());
    } else {
        assert(is_plain_char(p[0]));
        assert(all_plain(p.skip(1))) by {
            assert forall|k: int| 0 <= k < p.skip(1).len() implies is_plain_char(
                p.skip(1)[k],
            ) by {
                assert(p.skip(1)[k] == p[k + 1]);
            }
        }
        lemma_compile_plain(p.skip(1));
        let t0 = literal_tok(p[0]);
        assert(spec_compile(p) == crate::compile::spec_cons(t0, spec_compile(p.skip(1))));
        assert(seq![t0] + literal_toks(p.skip(1)) =~= literal_toks(p));
    }
}

/// A sequence of literal tokens matches exactly the word spelled by those
/// tokens.
pub proof fn lemma_match_literal_toks(s: Seq<char>, p: Seq<char>)
    ensures
        spec_match(s, literal_toks(p)) <==> s == p,
    decreases p.len(),
{
    let ts = literal_toks(p);
    if p.len() == 0 {
        assert(ts.len() == 0);
        if s.len() == 0 {
            assert(s =~= p);
        }
    } else {
        assert(ts.last() == TokModel::Symbol(p.last()));
        assert(ts.drop_last() =~= literal_toks(p.drop_last()));
        if s.len() > 0 {
            lemma_match_literal_toks(s.drop_last(), p.drop_last());
            if spec_match(s, ts) {
                assert(s.drop_last() == p.drop_last() && s.last() == p.last());
                assert forall|i: int| 0 <= i < s.len() implies s[i] == p[i] by {
                    if i < s.len() - 1 {
                        assert(s.drop_last()[i] == s[i]);
                        assert(p.drop_last()[i] == p[i]);
                    }
                }
                assert(s =~= p);
            }
            if s == p {
                assert(s.drop_last() =~= p.drop_last());
                assert(spec_match(s, ts));
            }
        }
    }
}

/// A pattern holding only plain characters matches a word exactly when
/// the word is the pattern itself.
pub proof fn lemma_literal_pattern_matches_itself(s: Seq<char>, p: Seq<char>)
    requires
        all_plain(p),
    ensures
        spec_compile(p) matches Ok(ts) && (spec_match(s, ts) <==> s == p),
{
    lemma_compile_plain(p);
    lemma_match_literal_toks(s, p);
}

/// `MultipleAny` alone consumes any word whole.
proof fn lemma_star_any(s: Seq<char>)
    ensures
        spec_match(s, seq![TokModel::MultipleAny]),
    decreases s.len(),
{
    let ts = seq![TokModel::MultipleAny];
    assert(ts.len() == 1);
    assert(ts.last() == TokModel::MultipleAny);
    assert(ts.drop_last() =~= Seq::<TokModel>::empty());
    if s.len() == 0 {
        assert(spec_match(s, ts.drop_last()));
    } else {
        lemma_star_any(s.drop_last());
        assert(spec_match(s.drop_last(), ts));
    }
}

/// The pattern `*` matches every word, the empty one included.
pub proof fn lemma_star_matches_all(s: Seq<char>)
    ensures
        spec_compile("*"@) matches Ok(ts) && spec_match(s, ts),
{
    reveal_strlit("*");
    let p = "*"@;
    assert(p =~= seq!['*']);
    assert(p[0] == '*');
    assert(p.skip(1) =~= Seq::<char>::empty());
    assert(spec_compile(Seq::<char>::empty()) == Ok::<Seq<TokModel>, CompileError>(
        Seq::<TokModel>::empty(),
    ));
    assert(spec_compile(p) == crate::compile::spec_cons(
        TokModel::MultipleAny,
        spec_compile(p.skip(1)),
    ));
    assert(seq![TokModel::MultipleAny] + Seq::<TokModel>::empty() =~= seq![TokModel::MultipleAny]);
    lemma_star_any(s);
}

/// The pattern `?` matches exactly the words of one character.
pub proof fn lemma_question_matches_single(s: Seq<char>)
    ensures
        spec_compile("?"@) matches Ok(ts) && (spec_match(s, ts) <==> s.len() == 1),
{
    reveal_strlit("?");
    let p = "?"@;
    assert(p =~= seq!['?']);
    assert(p[0] == '?');
    assert(p.skip(1) =~= Seq::<char>::empty());
    assert(spec_compile(Seq::<char>::empty()) == Ok::<Seq<TokModel>, CompileError>(
        Seq::<TokModel>::empty(),
    ));
    assert(spec_compile(p) == crate::compile::spec_cons(
        TokModel::SingleAny,
        spec_compile(p.skip(1)),
    ));
    let ts = seq![TokModel::SingleAny];
    assert(seq![TokModel::SingleAny] + Seq::<TokModel>::empty() =~= ts);
    assert(ts.len() == 1);
    assert(ts.last() == TokModel::SingleAny);
    assert(ts.drop_last() =~= Seq::<TokModel>::empty());
    if s.len() > 0 {
        assert(spec_match(s.drop_last(), ts.drop_last()) <==> s.len() == 1);
    }
}

} // verus!
