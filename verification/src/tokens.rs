//! The token alphabet of the pattern language, its ghost-level model, and
//! the errors a compilation can end in.

use vstd::prelude::*;

verus! {

/// One atomic unit of a compiled pattern.
///
/// `LowerSymbol`/`HigherSymbol` carry an optional run length: `None` asks for
/// exactly one character of that case, `Some(n)` for exactly `n` consecutive
/// ones.  Letter cases are the ASCII ranges `'a'..='z'` and `'A'..='Z'`.
/// `SymbolSet` matches one character drawn from the listed set.
#[derive(Debug, PartialEq)]
pub enum WildcardTok {
    MultipleAny,
    SingleAny,
    Digit,
    Symbol(char),
    LowerSymbol(Option<u32>),
    HigherSymbol(Option<u32>),
    SymbolSet(Vec<char>),
}

/// The mathematical value of a token: like [`WildcardTok`], with the member
/// set of a `SymbolSet` abstracted to a `Set<char>`.
pub enum TokModel {
    MultipleAny,
    SingleAny,
    Digit,
    Symbol(char),
    LowerSymbol(Option<u32>),
    HigherSymbol(Option<u32>),
    SymbolSet(Set<char>),
}

impl View for WildcardTok {
    type V = TokModel;

    open spec fn view(&self) -> TokModel {
        match self {
            WildcardTok::MultipleAny => TokModel::MultipleAny,
            WildcardTok::SingleAny => TokModel::SingleAny,
            WildcardTok::Digit => TokModel::Digit,
            WildcardTok::Symbol(c) => TokModel::Symbol(*c),
            WildcardTok::LowerSymbol(n) => TokModel::LowerSymbol(*n),
            WildcardTok::HigherSymbol(n) => TokModel::HigherSymbol(*n),
            WildcardTok::SymbolSet(v) => TokModel::SymbolSet(v@.to_set()),
        }
    }
}

/// The models of a sequence of tokens, in order.
pub open spec fn toks_view(ts: Seq<WildcardTok>) -> Seq<TokModel> {
    Seq::new(ts.len(), |i: int| ts[i]@)
}

/// Why a pattern failed to compile.  Compile errors are terminal: a
/// malformed pattern yields no tokens at all.
#[derive(Debug, Clone, Copy, PartialEq, Eq)]
pub enum CompileError {
    /// A backslash stood last in the pattern or before an unrecognized
    /// character.
    InvalidEscape,
    /// A `[` or `<` was never closed.
    MissingClosingBracket,
    /// The keyword between `[` and `]` was neither `lowcase` nor `upcase`,
    /// or its count was malformed.
    UnrecognizedKeyword,
    /// `<` and `>` with nothing in between.
    EmptySet,
}

impl CompileError {
    /// A short description of the error.
    pub fn message(&self) -> (m: &'static str)
        ensures
            *self == CompileError::InvalidEscape ==> m@ == "invalid escape"@,
            *self == CompileError::MissingClosingBracket ==> m@ == "missing closing bracket"@,
            *self == CompileError::UnrecognizedKeyword ==> m@ == "unrecognized keyword"@,
            *self == CompileError::EmptySet ==> m@ == "empty character set"@,
    {
        match self {
            CompileError::InvalidEscape => "invalid escape",
            CompileError::MissingClosingBracket => "missing closing bracket",
            CompileError::UnrecognizedKeyword => "unrecognized keyword",
            CompileError::EmptySet => "empty character set",
        }
    }
}

} // verus!
