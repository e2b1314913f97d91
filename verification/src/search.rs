//! Per-file search: apply a compiled pattern to the lines of a text and
//! record, for each line, the first word that matches.

use vstd::prelude::*;

use crate::engine::{match_compiled, spec_match};
use crate::tokens::{toks_view, TokModel, WildcardTok};
use crate::words::{parse, spec_words};

verus! {

/// One matching line: the line's full word list, the zero-based line
/// index, and the zero-based index of the matching word within the line.
pub struct MatchedLine {
    pub line: Vec<String>,
    pub line_number: usize,
    pub word_number: usize,
}

/// The mathematical value of a [`MatchedLine`].
pub struct LineModel {
    pub line: Seq<Seq<char>>,
    pub line_number: int,
    pub word_number: int,
}

impl View for MatchedLine {
    type V = LineModel;

    open spec fn view(&self) -> LineModel {
        LineModel {
            line: self.line.deep_view(),
            line_number: self.line_number as int,
            word_number: self.word_number as int,
        }
    }
}

impl MatchedLine {
    /// The record points at a word its line really holds.
    pub open spec fn wf(&self) -> bool {
        (self.word_number as int) < self.line@.len()
    }

    /// A record for word `word_number` of line `line_number`, whose words
    /// are `line`.
    pub fn new(line: Vec<String>, line_number: usize, word_number: usize) -> (r: MatchedLine)
        ensures
            r.line == line,
            r.line_number == line_number,
            r.word_number == word_number,
    {
        MatchedLine { line, line_number, word_number }
    }
}

/// The models of a sequence of records, in order.
pub open spec fn recs_view(rs: Seq<MatchedLine>) -> Seq<LineModel> {
    Seq::new(rs.len(), |i: int| rs[i]@)
}

/// Index of the first word of `ws` that the pattern consumes whole, if
/// any.
pub open spec fn first_match(ws: Seq<Seq<char>>, ts: Seq<TokModel>) -> Option<int>
    decreases ws.len(),
{
    if ws.len() == 0 {
        None
    } else if spec_match(ws[0], ts) {
        Some(0int)
    } else {
        match first_match(ws.skip(1), ts) {
            Some(i) => Some(i + 1),
            None => None,
        }
    }
}

/// `first_match` points at the first matching word, and is `None` exactly
/// when no word matches.
pub proof fn lemma_first_match(ws: Seq<Seq<char>>, ts: Seq<TokModel>)
    ensures
        match first_match(ws, ts) {
            Some(i) => 0 <= i < ws.len() && spec_match(ws[i], ts) && (forall|t: int|
                0 <= t < i ==> !spec_match(ws[t], ts)),
            None => forall|t: int| 0 <= t < ws.len() ==> !spec_match(ws[t], ts),
        },
    decreases ws.len(),
{
    if ws.len() == 0 {
    } else if spec_match(ws[0], ts) {
    } else {
        lemma_first_match(ws.skip(1), ts);
        match first_match(ws.skip(1), ts) {
            Some(i) => {
                assert(ws[i + 1] == ws.skip(1)[i]);
                assert forall|t: int| 0 <= t < i + 1 implies !spec_match(ws[t], ts) by {
                    if t > 0 {
                        assert(ws[t] == ws.skip(1)[t - 1]);
                    }
                }
            },
            None => {
                assert forall|t: int| 0 <= t < ws.len() implies !spec_match(ws[t], ts) by {
                    if t > 0 {
                        assert(ws[t] == ws.skip(1)[t - 1]);
                    }
                }
            },
        }
    }
}

/// The first matching word found by a forward scan is the one
/// `first_match` speaks of.
proof fn lemma_first_match_at(ws: Seq<Seq<char>>, ts: Seq<TokModel>, j: int)
    requires
        0 <= j < ws.len(),
        spec_match(ws[j], ts),
        forall|t: int| 0 <= t < j ==> !spec_match(ws[t], ts),
    ensures
        first_match(ws, ts) == Some(j),
{
    lemma_first_match(ws, ts);
    match first_match(ws, ts) {
        Some(i) => {
            if i < j {
                assert(!spec_match(ws[i], ts));
            } else if i > j {
                assert(!spec_match(ws[j], ts));
            }
        },
        None => {
            assert(!spec_match(ws[j], ts));
        },
    }
}

/// The record model for the line at index `line_number` whose words are
/// `ws`, matching at word `word_number`.
pub open spec fn line_rec(ws: Seq<Seq<char>>, line_number: int, word_number: int) -> LineModel {
    LineModel { line: ws, line_number: line_number, word_number: word_number }
}

/// The records produced by searching lines `i..` of `lines`: one per line
/// holding a matching word, pointing at its first such word.
pub open spec fn spec_search_from(lines: Seq<Seq<char>>, ts: Seq<TokModel>, i: int) -> Seq<
    LineModel,
>
    decreases lines.len() - i,
{
    if i < 0 || i >= lines.len() {
        Seq::empty()
    } else {
        let ws = spec_words(lines[i]);
        let rest = spec_search_from(lines, ts, i + 1);
        match first_match(ws, ts) {
            Some(w) => seq![line_rec(ws, i, w)] + rest,
            None => rest,
        }
    }
}

/// The records produced by searching every line of `lines`.
pub open spec fn spec_search(lines: Seq<Seq<char>>, ts: Seq<TokModel>) -> Seq<LineModel> {
    spec_search_from(lines, ts, 0)
}

proof fn lemma_search_from_order(lines: Seq<Seq<char>>, ts: Seq<TokModel>, i: int)
    ensures
        forall|a: int|
            0 <= a < spec_search_from(lines, ts, i).len() ==> (#[trigger] spec_search_from(
                lines,
                ts,
                i,
            )[a]).line_number >= i,
        forall|a: int, b: int|
            0 <= a < b < spec_search_from(lines, ts, i).len() ==> (#[trigger] spec_search_from(
                lines,
                ts,
                i,
            )[a]).line_number < (#[trigger] spec_search_from(lines, ts, i)[b]).line_number,
    decreases lines.len() - i,
{
    if i < 0 || i >= lines.len() {
    } else {
        lemma_search_from_order(lines, ts, i + 1);
        let cur = spec_search_from(lines, ts, i);
        let rest = spec_search_from(lines, ts, i + 1);
        match first_match(spec_words(lines[i]), ts) {
            Some(w) => {
                assert forall|a: int| 0 <= a < cur.len() implies (#[trigger] cur[a]).line_number
                    >= i by {
                    if a > 0 {
                        assert(cur[a] == rest[a - 1]);
                    }
                }
                assert forall|a: int, b: int| 0 <= a < b < cur.len() implies (
                #[trigger] cur[a]).line_number < (#[trigger] cur[b]).line_number by {
                    assert(cur[b] == rest[b - 1]);
                    if a > 0 {
                        assert(cur[a] == rest[a - 1]);
                    }
                }
            },
            None => {},
        }
    }
}

/// Within one file the records keep line order: searching a file's lines
/// yields records with strictly increasing line numbers.
pub proof fn lemma_search_preserves_line_order(lines: Seq<Seq<char>>, ts: Seq<TokModel>)
    ensures
        forall|a: int, b: int|
            0 <= a < b < spec_search(lines, ts).len() ==> (#[trigger] spec_search(
                lines,
                ts,
            )[a]).line_number < (#[trigger] spec_search(lines, ts)[b]).line_number,
{
    lemma_search_from_order(lines, ts, 0);
}

/// Index of the first word of `words` that the compiled pattern matches.
#[verifier::loop_isolation(false)]
fn find_first_match(words: &Vec<String>, tokens: &Vec<WildcardTok>) -> (r: Option<usize>)
    ensures
        match r {
            Some(w) => (w as int) < words@.len() && first_match(
                words.deep_view(),
                toks_view(tokens@),
            ) == Some(w as int),
            None => first_match(words.deep_view(), toks_view(tokens@)) is None,
        },
{
    let ghost ws = words.deep_view();
    let ghost tv = toks_view(tokens@);
    let n = words.len();
    let mut wi: usize = 0;
    while wi < n
        invariant
            wi <= n,
            n == ws.len(),
            forall|t: int| 0 <= t < wi ==> !spec_match(ws[t], tv),
        decreases n - wi,
    {
        let word = &words[wi];
        proof {
            assert(ws[wi as int] == words@[wi as int]@);
        }
        if match_compiled(word.as_str(), tokens) {
            proof {
                lemma_first_match_at(ws, tv, wi as int);
            }
            return Some(wi);
        }
        wi = wi + 1;
    }
    proof {
        lemma_first_match(ws, tv);
        match first_match(ws, tv) {
            Some(i) => {
                assert(!spec_match(ws[i], tv));
            },
            None => {},
        }
    }
    None
}

/// Search every line for the pattern: for each line holding at least one
/// matching word, record the line's words, its index, and the index of
/// its first matching word.
#[verifier::loop_isolation(false)]
pub fn search_lines(lines: &Vec<String>, tokens: &Vec<WildcardTok>) -> (r: Vec<MatchedLine>)
    ensures
        recs_view(r@) == spec_search(lines.deep_view(), toks_view(tokens@)),
        forall|k: int| 0 <= k < r@.len() ==> (#[trigger] r@[k]).wf(),
{
    let ghost lv = lines.deep_view();
    let ghost tv = toks_view(tokens@);
    let mut out: Vec<MatchedLine> = Vec::new();
    proof {
        assert(recs_view(out@) + spec_search_from(lv, tv, 0) =~= spec_search_from(lv, tv, 0));
    }
    let n = lines.len();
    let mut li: usize = 0;
    while li < n
        invariant
            li <= n,
            n == lv.len(),
            spec_search(lv, tv) == recs_view(out@) + spec_search_from(lv, tv, li as int),
            forall|k: int| 0 <= k < out@.len() ==> (#[trigger] out@[k]).wf(),
        decreases n - li,
    {
        let line = &lines[li];
        proof {
            assert(lv[li as int] == lines@[li as int]@);
        }
        match parse(line.as_str()) {
            None => {
                proof {
                    assert(spec_words(lv[li as int]).len() == 0);
                    assert(first_match(spec_words(lv[li as int]), tv) is None);
                }
            },
            Some(words) => {
                let ghost ws = spec_words(lv[li as int]);
                proof {
                    assert(words.deep_view() == ws);
                }
                match find_first_match(&words, tokens) {
                    Some(w) => {
                        let ghost out_old = recs_view(out@);
                        let rec = MatchedLine::new(words, li, w);
                        proof {
                            assert(rec@ == line_rec(ws, li as int, w as int));
                        }
                        out.push(rec);
                        proof {
                            assert(recs_view(out@) =~= out_old.push(rec@));
                            assert(out_old.push(rec@) + spec_search_from(lv, tv, li + 1)
                                =~= out_old + (seq![line_rec(ws, li as int, w as int)]
                                + spec_search_from(lv, tv, li + 1)));
                        }
                    },
                    None => {
                    },
                }
            },
        }
        li = li + 1;
    }
    proof {
        assert(spec_search_from(lv, tv, n as int) =~= Seq::<LineModel>::empty());
        assert(recs_view(out@) + Seq::<LineModel>::empty() =~= recs_view(out@));
    }
    out
}

} // verus!
