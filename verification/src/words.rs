//! Splitting a line of text into words: maximal runs of characters
//! separated by ASCII whitespace.

use vstd::prelude::*;
use vstd::string::StrSliceExecFns;

use crate::chars::{check_space, is_space_char};

verus! {

/// Length of the leading run of non-whitespace characters of `s`.
pub open spec fn word_len(s: Seq<char>) -> int
    decreases s.len(),
{
    if s.len() == 0 || is_space_char(s[0]) {
        0
    } else {
        1 + word_len(s.skip(1))
    }
}

pub proof fn lemma_word_len_bounds(s: Seq<char>)
    ensures
        0 <= word_len(s) <= s.len(),
    decreases s.len(),
{
    if s.len() == 0 || is_space_char(s[0]) {
    } else {
        lemma_word_len_bounds(s.skip(1));
    }
}

/// The leading word ends exactly where the first whitespace character (or
/// the end of the line) stands.
pub proof fn lemma_word_len_eq(s: Seq<char>, n: int)
    requires
        0 <= n <= s.len(),
        forall|k: int| 0 <= k < n ==> !is_space_char(s[k]),
        n == s.len() || is_space_char(s[n]),
    ensures
        word_len(s) == n,
    decreases n,
{
    if n == 0 {
    } else {
        assert(!is_space_char(s[0]));
        assert forall|k: int| 0 <= k < n - 1 implies !is_space_char(s.skip(1)[k]) by {
            assert(s.skip(1)[k] == s[k + 1]);
        }
        if n < s.len() {
            assert(s.skip(1)[n - 1] == s[n]);
        }
        lemma_word_len_eq(s.skip(1), n - 1);
    }
}

/// The words of a line, in order: its maximal runs of non-whitespace
/// characters.
pub open spec fn spec_words(s: Seq<char>) -> Seq<Seq<char>>
    decreases s.len(),
    via spec_words_decreases
{
    if s.len() == 0 {
        Seq::empty()
    } else if is_space_char(s[0]) {
        spec_words(s.skip(1))
    } else {
        seq![s.take(word_len(s))] + spec_words(s.skip(word_len(s)))
    }
}

#[via_fn]
proof fn spec_words_decreases(s: Seq<char>) {
    if s.len() > 0 && !is_space_char(s[0]) {
        lemma_word_len_bounds(s.skip(1));
    }
}

/// Position of the first whitespace character of `s` at or after `from`,
/// or the line's end.
fn scan_word_end(s: &str, from: usize) -> (j: usize)
    requires
        from <= s@.len(),
    ensures
        from <= j <= s@.len(),
        forall|k: int| from <= k < j ==> !is_space_char(s@[k]),
        j == s@.len() || is_space_char(s@[j as int]),
{
    let len = s.unicode_len();
    let mut j: usize = from;
    while j < len
        invariant
            from <= j <= len,
            len == s@.len(),
            forall|k: int| from <= k < j ==> !is_space_char(s@[k]),
        decreases len - j,
    {
        if check_space(s.get_char(j)) {
            return j;
        }
        j = j + 1;
    }
    j
}

/// Split a line into its whitespace-separated words.  An empty line is
/// `None`; any other line yields its (possibly empty) list of words.
#[verifier::loop_isolation(false)]
pub fn parse(input: &str) -> (r: Option<Vec<String>>)
    ensures
        match r {
            None => input@.len() == 0,
            Some(words) => input@.len() > 0 && words.deep_view() == spec_words(input@),
        },
{
    let len = input.unicode_len();
    if len == 0 {
        return None;
    }
    let mut words: Vec<String> = Vec::new();
    proof {
        assert(input@.skip(0) =~= input@);
        assert(words.deep_view() + spec_words(input@) =~= spec_words(input@));
    }
    let mut i: usize = 0;
    while i < len
        invariant
            i <= len,
            spec_words(input@) == words.deep_view() + spec_words(input@.skip(i as int)),
        decreases len - i,
    {
        let ghost suf = input@.skip(i as int);
        proof {
            assert(suf[0] == input@[i as int]);
        }
        let c = input.get_char(i);
        if check_space(c) {
            proof {
                assert(suf.skip(1) =~= input@.skip(i + 1));
            }
            i = i + 1;
        } else {
            let j = scan_word_end(input, i);
            let w = input.substring_char(i, j).to_owned();
            let ghost words_old = words.deep_view();
            words.push(w);
            proof {
                assert forall|k: int| 0 <= k < j - i implies !is_space_char(suf[k]) by {
                    assert(suf[k] == input@[i + k]);
                }
                if j < len {
                    assert(suf[j - i] == input@[j as int]);
                }
                lemma_word_len_eq(suf, j - i);
                assert(suf.take(j - i) =~= input@.subrange(i as int, j as int));
                assert(suf.skip(j - i) =~= input@.skip(j as int));
                assert(words.deep_view() =~= words_old.push(w@));
                assert(words_old.push(w@) + spec_words(input@.skip(j as int)) =~= words_old + (
                seq![w@] + spec_words(input@.skip(j as int))));
            }
            i = j;
        }
    }
    proof {
        assert(input@.skip(len as int) =~= Seq::<char>::empty());
        assert(words.deep_view() + Seq::<Seq<char>>::empty() =~= words.deep_view());
    }
    Some(words)
}

} // verus!
