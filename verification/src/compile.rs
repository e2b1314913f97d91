//! The pattern compiler: a pattern string is scanned left to right, one
//! Unicode scalar at a time, into a sequence of [`WildcardTok`] tokens.
//!
//! The whole compilation is pinned down by the spec function
//! [`spec_compile`]; every executable function here is proved to agree with
//! it, including which [`CompileError`] a malformed pattern ends in.

use vstd::prelude::*;
use vstd::string::StrSliceExecFns;

use crate::chars::{check_digit, check_special, is_digit_char, is_special_char, str_eq};
use crate::tokens::{toks_view, CompileError, TokModel, WildcardTok};

verus! {

/// Index of the first occurrence of `c` in `s`, if any.
pub open spec fn find_char(s: Seq<char>, c: char) -> Option<int>
    decreases s.len(),
{
    if s.len() == 0 {
        None
    } else if s[0] == c {
        Some(0int)
    } else {
        match find_char(s.skip(1), c) {
            Some(i) => Some(i + 1),
            None => None,
        }
    }
}

/// `find_char` returns the position of the first occurrence of `c`, and
/// `None` exactly when `c` does not occur.
pub proof fn lemma_find_char(s: Seq<char>, c: char)
    ensures
        match find_char(s, c) {
            Some(i) => 0 <= i < s.len() && s[i] == c && (forall|t: int| 0 <= t < i ==> s[t] != c),
            None => forall|t: int| 0 <= t < s.len() ==> s[t] != c,
        },
    decreases s.len(),
{
    if s.len() == 0 {
    } else if s[0] == c {
    } else {
        lemma_find_char(s.skip(1), c);
        match find_char(s.skip(1), c) {
            Some(i) => {
                assert(s[i + 1] == s.skip(1)[i]);
                assert forall|t: int| 0 <= t < i + 1 implies s[t] != c by {
                    if t > 0 {
                        assert(s[t] == s.skip(1)[t - 1]);
                    }
                }
            },
            None => {
                assert forall|t: int| 0 <= t < s.len() implies s[t] != c by {
                    if t > 0 {
                        assert(s[t] == s.skip(1)[t - 1]);
                    }
                }
            },
        }
    }
}

/// Every character of `s` is an ASCII digit.
pub open spec fn all_digits(s: Seq<char>) -> bool {
    forall|k: int| 0 <= k < s.len() ==> is_digit_char(s[k])
}

/// The decimal value of a digit string.
pub open spec fn digits_value(s: Seq<char>) -> int
    decreases s.len(),
{
    if s.len() == 0 {
        0
    } else {
        digits_value(s.drop_last()) * 10 + (s.last() as u32 - 48)
    }
}

pub proof fn lemma_digits_value_nonneg(s: Seq<char>)
    requires
        all_digits(s),
    ensures
        digits_value(s) >= 0,
    decreases s.len(),
{
    if s.len() > 0 {
        assert(is_digit_char(s[s.len() - 1]));
        assert(all_digits(s.drop_last()));
        lemma_digits_value_nonneg(s.drop_last());
    }
}

/// The run count a digit string compiles to: its decimal value, with the
/// empty string and values out of `u32` range both standing for zero
/// ("unspecified").
pub open spec fn spec_num(digits: Seq<char>) -> u32 {
    if digits.len() == 0 || digits_value(digits) > u32::MAX {
        0u32
    } else {
        digits_value(digits) as u32
    }
}

/// The token a bracket keyword stands for: `upcase` and `lowcase` are the
/// case-run classes, with a count of zero read as "unspecified".
pub open spec fn spec_keyword(kw: Seq<char>, num: u32) -> Option<TokModel> {
    if kw == "upcase"@ {
        Some(TokModel::HigherSymbol(if num == 0 { None } else { Some(num) }))
    } else if kw == "lowcase"@ {
        Some(TokModel::LowerSymbol(if num == 0 { None } else { Some(num) }))
    } else {
        None
    }
}

/// The token the bracket content `content` (between `[` and `]`) stands
/// for: either `keyword` or `digits|keyword`.
pub open spec fn spec_bracket(content: Seq<char>) -> Option<TokModel> {
    match find_char(content, '|') {
        None => spec_keyword(content, 0),
        Some(b) => {
            let digits = content.take(b);
            let kw = content.skip(b + 1);
            if find_char(kw, '|') is Some {
                None
            } else if !all_digits(digits) {
                None
            } else {
                spec_keyword(kw, spec_num(digits))
            }
        },
    }
}

/// The token a full `[ ... ]` construct stands for, or `None` if the
/// delimiters or the content are malformed.
pub open spec fn spec_extract(s: Seq<char>) -> Option<TokModel> {
    if s.len() < 2 || s[0] != '[' || s[s.len() - 1] != ']' {
        None
    } else {
        spec_bracket(s.subrange(1, s.len() - 1))
    }
}

/// The token a full `< ... >` construct stands for: the set of the
/// characters between the delimiters, which must be non-empty.
pub open spec fn spec_handle_set(s: Seq<char>) -> Option<TokModel> {
    if s.len() < 3 || s[0] != '<' || s[s.len() - 1] != '>' {
        None
    } else {
        Some(TokModel::SymbolSet(s.subrange(1, s.len() - 1).to_set()))
    }
}

/// Prepend a token to a compilation result, keeping an error as it is.
pub open spec fn spec_cons(t: TokModel, rest: Result<Seq<TokModel>, CompileError>) -> Result<
    Seq<TokModel>,
    CompileError,
> {
    match rest {
        Ok(ts) => Ok(seq![t] + ts),
        Err(e) => Err(e),
    }
}

/// What compiling the pattern `p` yields: the token sequence, or the error
/// that ends the compilation.
pub open spec fn spec_compile(p: Seq<char>) -> Result<Seq<TokModel>, CompileError>
    decreases p.len(),
    via spec_compile_decreases
{
    if p.len() == 0 {
        Ok(Seq::empty())
    } else {
        let c = p[0];
        if c == '\\' {
            if p.len() < 2 || !is_special_char(p[1]) {
                Err(CompileError::InvalidEscape)
            } else {
                spec_cons(TokModel::Symbol(p[1]), spec_compile(p.skip(2)))
            }
        } else if c == '*' {
            spec_cons(TokModel::MultipleAny, spec_compile(p.skip(1)))
        } else if c == '?' {
            spec_cons(TokModel::SingleAny, spec_compile(p.skip(1)))
        } else if c == '#' {
            spec_cons(TokModel::Digit, spec_compile(p.skip(1)))
        } else if c == '[' {
            match find_char(p.skip(1), ']') {
                None => Err(CompileError::MissingClosingBracket),
                Some(k) => match spec_bracket(p.subrange(1, 1 + k)) {
                    None => Err(CompileError::UnrecognizedKeyword),
                    Some(t) => spec_cons(t, spec_compile(p.skip(2 + k))),
                },
            }
        } else if c == '<' {
            match find_char(p.skip(1), '>') {
                None => Err(CompileError::MissingClosingBracket),
                Some(k) => if k == 0 {
                    Err(CompileError::EmptySet)
                } else {
                    spec_cons(
                        TokModel::SymbolSet(p.subrange(1, 1 + k).to_set()),
                        spec_compile(p.skip(2 + k)),
                    )
                },
            }
        } else {
            spec_cons(TokModel::Symbol(c), spec_compile(p.skip(1)))
        }
    }
}

#[via_fn]
proof fn spec_compile_decreases(p: Seq<char>) {
    if p.len() > 0 {
        if p[0] == '[' {
            lemma_find_char(p.skip(1), ']');
        } else if p[0] == '<' {
            lemma_find_char(p.skip(1), '>');
        }
    }
}

/// Position of the first occurrence of `c` in `s` at or after `from`.
fn find_char_str(s: &str, from: usize, c: char) -> (r: Option<usize>)
    requires
        from <= s@.len(),
    ensures
        match r {
            Some(j) => from <= j < s@.len() && s@[j as int] == c && (forall|t: int|
                from <= t < j ==> s@[t] != c),
            None => forall|t: int| from <= t < s@.len() ==> s@[t] != c,
        },
{
    let len = s.unicode_len();
    let mut i: usize = from;
    while i < len
        invariant
            from <= i <= len,
            len == s@.len(),
            forall|t: int| from <= t < i ==> s@[t] != c,
        decreases len - i,
    {
        if s.get_char(i) == c {
            return Some(i);
        }
        i = i + 1;
    }
    None
}

/// The first occurrence found by a forward scan is the one `find_char`
/// speaks of.
proof fn lemma_find_char_at(s: Seq<char>, c: char, j: int)
    requires
        0 <= j < s.len(),
        s[j] == c,
        forall|t: int| 0 <= t < j ==> s[t] != c,
    ensures
        find_char(s, c) == Some(j),
{
    lemma_find_char(s, c);
    match find_char(s, c) {
        Some(i) => {
            if i < j {
                assert(s[i] != c);
            } else if i > j {
                assert(s[j] != c);
            }
        },
        None => {
            assert(s[j] != c);
        },
    }
}

/// The case-run token named by a bracket keyword: `upcase` or `lowcase`,
/// with `num == 0` standing for an unspecified run length.
pub fn match_wild(pattern: &str, num: u32) -> (r: Option<WildcardTok>)
    ensures
        match r {
            Some(t) => spec_keyword(pattern@, num) == Some(t@),
            None => spec_keyword(pattern@, num) is None,
        },
{
    if str_eq(pattern, "upcase") {
        Some(WildcardTok::HigherSymbol(if num == 0 { None } else { Some(num) }))
    } else if str_eq(pattern, "lowcase") {
        Some(WildcardTok::LowerSymbol(if num == 0 { None } else { Some(num) }))
    } else {
        None
    }
}

/// The character-set token a full `< ... >` construct stands for.
pub fn handle_set(set: &str) -> (r: Option<WildcardTok>)
    ensures
        match r {
            Some(t) => spec_handle_set(set@) == Some(t@),
            None => spec_handle_set(set@) is None,
        },
{
    let len = set.unicode_len();
    if len < 3 {
        return None;
    }
    if set.get_char(0) != '<' || set.get_char(len - 1) != '>' {
        return None;
    }
    let symbols = set.substring_char(1, len - 1);
    let members = crate::chars::str_to_chars(symbols);
    Some(WildcardTok::SymbolSet(members))
}

/// The run count written by the digits `content[0..bar]`, with the empty
/// string and values out of `u32` range both read as zero, or `None` if a
/// non-digit occurs there.
fn parse_count(content: &str, bar: usize) -> (r: Option<u32>)
    requires
        bar <= content@.len(),
    ensures
        match r {
            Some(n) => all_digits(content@.take(bar as int)) && n == spec_num(
                content@.take(bar as int),
            ),
            None => !all_digits(content@.take(bar as int)),
        },
{
    let mut i: usize = 0;
    let mut val: u64 = 0;
    let mut over: bool = false;
    while i < bar
        invariant
            i <= bar <= content@.len(),
            forall|t: int| 0 <= t < i ==> is_digit_char(content@[t]),
            !over ==> val == digits_value(content@.take(i as int)) && val <= u32::MAX,
            over ==> digits_value(content@.take(i as int)) > u32::MAX,
        decreases bar - i,
    {
        let ch = content.get_char(i);
        if !check_digit(ch) {
            proof {
                assert(content@.take(bar as int)[i as int] == content@[i as int]);
            }
            return None;
        }
        proof {
            assert(content@.take(i + 1).drop_last() =~= content@.take(i as int));
            assert(content@.take(i + 1).last() == content@[i as int]);
            assert(all_digits(content@.take(i as int)));
            lemma_digits_value_nonneg(content@.take(i as int));
        }
        if !over {
            let d = (ch as u32 - 48) as u64;
            let next = val * 10 + d;
            if next > u32::MAX as u64 {
                over = true;
            } else {
                val = next;
            }
        }
        i = i + 1;
    }
    proof {
        assert(content@.take(bar as int).len() == bar as int);
    }
    if over {
        Some(0)
    } else {
        Some(val as u32)
    }
}

/// The token a full `[ ... ]` construct stands for: a case-run keyword,
/// optionally preceded by a digit count and `|`.
pub fn extract_from_brackets(pattern: &str) -> (r: Option<WildcardTok>)
    ensures
        match r {
            Some(t) => spec_extract(pattern@) == Some(t@),
            None => spec_extract(pattern@) is None,
        },
{
    let len = pattern.unicode_len();
    if len < 2 {
        return None;
    }
    if pattern.get_char(0) != '[' || pattern.get_char(len - 1) != ']' {
        return None;
    }
    let content = pattern.substring_char(1, len - 1);
    let clen = len - 2;
    proof {
        assert(content@ == pattern@.subrange(1, len - 1));
    }
    match find_char_str(content, 0, '|') {
        None => {
            proof {
                lemma_find_char(content@, '|');
            }
            match_wild(content, 0)
        },
        Some(bar) => {
            proof {
                lemma_find_char_at(content@, '|', bar as int);
            }
            let ghost kw_seq = content@.skip(bar + 1);
            match find_char_str(content, bar + 1, '|') {
                Some(j2) => {
                    proof {
                        assert(kw_seq[j2 - bar - 1] == content@[j2 as int]);
                        assert forall|t: int| 0 <= t < j2 - bar - 1 implies kw_seq[t] != '|' by {
                            assert(kw_seq[t] == content@[t + bar + 1]);
                        }
                        lemma_find_char_at(kw_seq, '|', j2 - bar - 1);
                    }
                    None
                },
                None => {
                    proof {
                        lemma_find_char(kw_seq, '|');
                        match find_char(kw_seq, '|') {
                            Some(i) => {
                                assert(content@[i + bar + 1] == kw_seq[i]);
                            },
                            None => {},
                        }
                    }
                    match parse_count(content, bar) {
                        None => None,
                        Some(num) => {
                            let kw = content.substring_char(bar + 1, clen);
                            proof {
                                assert(kw@ =~= kw_seq);
                            }
                            match_wild(kw, num)
                        },
                    }
                },
            }
        },
    }
}

/// The tokens already produced, followed by the rest of a compilation.
pub open spec fn spec_cat(
    done: Seq<WildcardTok>,
    rest: Result<Seq<TokModel>, CompileError>,
) -> Result<Seq<TokModel>, CompileError> {
    match rest {
        Ok(ts) => Ok(toks_view(done) + ts),
        Err(e) => Err(e),
    }
}

/// Moving a token out of the pending part of a compilation and onto the
/// produced vector leaves the whole unchanged.
proof fn lemma_cat_step(
    done: Seq<WildcardTok>,
    t: WildcardTok,
    rest: Result<Seq<TokModel>, CompileError>,
)
    ensures
        spec_cat(done.push(t), rest) == spec_cat(done, spec_cons(t@, rest)),
{
    match rest {
        Ok(ts) => {
            assert(toks_view(done.push(t)) + ts =~= toks_view(done) + (seq![t@] + ts));
        },
        Err(e) => {},
    }
}

/// Compile the pattern `pattern` into its token sequence, or report the
/// first error the left-to-right scan runs into.
pub fn compile_wildcard(pattern: &str) -> (r: Result<Vec<WildcardTok>, CompileError>)
    ensures
        match r {
            Ok(v) => spec_compile(pattern@) == Ok::<Seq<TokModel>, CompileError>(toks_view(v@)),
            Err(e) => spec_compile(pattern@) == Err::<Seq<TokModel>, CompileError>(e),
        },
{
    let plen = pattern.unicode_len();
    let mut res: Vec<WildcardTok> = Vec::new();
    let mut idx: usize = 0;
    proof {
        assert(pattern@.skip(0) =~= pattern@);
        match spec_compile(pattern@) {
            Ok(ts) => {
                assert(toks_view(res@) + ts =~= ts);
            },
            Err(e) => {},
        }
    }
    while idx < plen
        invariant
            idx <= plen,
            plen == pattern@.len(),
            spec_compile(pattern@) == spec_cat(res@, spec_compile(pattern@.skip(idx as int))),
        decreases plen - idx,
    {
        let ghost suf = pattern@.skip(idx as int);
        let ghost res_old = res@;
        let c = pattern.get_char(idx);
        proof {
            assert(suf[0] == pattern@[idx as int]);
        }
        if c == '\\' {
            if idx + 1 == plen {
                proof {
                    assert(suf.len() == 1);
                }
                return Err(CompileError::InvalidEscape);
            }
            let c2 = pattern.get_char(idx + 1);
            proof {
                assert(suf[1] == pattern@[idx + 1]);
            }
            if check_special(c2) {
                res.push(WildcardTok::Symbol(c2));
                proof {
                    assert(suf.skip(2) =~= pattern@.skip(idx + 2));
                    lemma_cat_step(res_old, WildcardTok::Symbol(c2), spec_compile(suf.skip(2)));
                }
                idx = idx + 2;
            } else {
                return Err(CompileError::InvalidEscape);
            }
        } else if c == '*' {
            res.push(WildcardTok::MultipleAny);
            proof {
                assert(suf.skip(1) =~= pattern@.skip(idx + 1));
                lemma_cat_step(res_old, WildcardTok::MultipleAny, spec_compile(suf.skip(1)));
            }
            idx = idx + 1;
        } else if c == '?' {
            res.push(WildcardTok::SingleAny);
            proof {
                assert(suf.skip(1) =~= pattern@.skip(idx + 1));
                lemma_cat_step(res_old, WildcardTok::SingleAny, spec_compile(suf.skip(1)));
            }
            idx = idx + 1;
        } else if c == '#' {
            res.push(WildcardTok::Digit);
            proof {
                assert(suf.skip(1) =~= pattern@.skip(idx + 1));
                lemma_cat_step(res_old, WildcardTok::Digit, spec_compile(suf.skip(1)));
            }
            idx = idx + 1;
        } else if c == '[' {
            match find_char_str(pattern, idx + 1, ']') {
                None => {
                    proof {
                        lemma_find_char(suf.skip(1), ']');
                        match find_char(suf.skip(1), ']') {
                            Some(i) => {
                                assert(pattern@[idx + 1 + i] == suf.skip(1)[i]);
                            },
                            None => {},
                        }
                    }
                    return Err(CompileError::MissingClosingBracket);
                },
                Some(j) => {
                    let ghost k = j - idx - 1;
                    proof {
                        assert(suf.skip(1)[k] == pattern@[j as int]);
                        assert forall|t: int| 0 <= t < k implies suf.skip(1)[t] != ']' by {
                            assert(suf.skip(1)[t] == pattern@[idx + 1 + t]);
                        }
                        lemma_find_char_at(suf.skip(1), ']', k);
                    }
                    let sub = pattern.substring_char(idx, j + 1);
                    proof {
                        assert(sub@[0] == pattern@[idx as int]);
                        assert(sub@[sub@.len() - 1] == pattern@[j as int]);
                        assert(sub@.subrange(1, sub@.len() - 1) =~= suf.subrange(1, 1 + k));
                    }
                    match extract_from_brackets(sub) {
                        Some(t) => {
                            res.push(t);
                            proof {
                                assert(suf.skip(2 + k) =~= pattern@.skip(j + 1));
                                lemma_cat_step(res_old, t, spec_compile(suf.skip(2 + k)));
                            }
                            idx = j + 1;
                        },
                        None => {
                            return Err(CompileError::UnrecognizedKeyword);
                        },
                    }
                },
            }
        } else if c == '<' {
            match find_char_str(pattern, idx + 1, '>') {
                None => {
                    proof {
                        lemma_find_char(suf.skip(1), '>');
                        match find_char(suf.skip(1), '>') {
                            Some(i) => {
                                assert(pattern@[idx + 1 + i] == suf.skip(1)[i]);
                            },
                            None => {},
                        }
                    }
                    return Err(CompileError::MissingClosingBracket);
                },
                Some(j) => {
                    let ghost k = j - idx - 1;
                    proof {
                        assert(suf.skip(1)[k] == pattern@[j as int]);
                        assert forall|t: int| 0 <= t < k implies suf.skip(1)[t] != '>' by {
                            assert(suf.skip(1)[t] == pattern@[idx + 1 + t]);
                        }
                        lemma_find_char_at(suf.skip(1), '>', k);
                    }
                    let sub = pattern.substring_char(idx, j + 1);
                    proof {
                        assert(sub@[0] == pattern@[idx as int]);
                        assert(sub@[sub@.len() - 1] == pattern@[j as int]);
                    }
                    match handle_set(sub) {
                        Some(t) => {
                            res.push(t);
                            proof {
                                assert(sub@.subrange(1, sub@.len() - 1) =~= suf.subrange(1, 1 + k));
                                assert(suf.skip(2 + k) =~= pattern@.skip(j + 1));
                                lemma_cat_step(res_old, t, spec_compile(suf.skip(2 + k)));
                            }
                            idx = j + 1;
                        },
                        None => {
                            proof {
                                assert(sub@.len() < 3);
                                assert(k == 0);
                            }
                            return Err(CompileError::EmptySet);
                        },
                    }
                },
            }
        } else {
            res.push(WildcardTok::Symbol(c));
            proof {
                assert(suf.skip(1) =~= pattern@.skip(idx + 1));
                lemma_cat_step(res_old, WildcardTok::Symbol(c), spec_compile(suf.skip(1)));
            }
            idx = idx + 1;
        }
    }
    proof {
        assert(pattern@.skip(plen as int) =~= Seq::<char>::empty());
        assert(toks_view(res@) + Seq::<TokModel>::empty() =~= toks_view(res@));
    }
    Ok(res)
}

} // verus!
