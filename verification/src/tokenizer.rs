//! The tokenizer: a format string is cut into literal runs and directives.
//!
//! A literal is a run of characters without a sentinel. A directive is the
//! sentinel and the name behind it, a run of characters that are neither
//! whitespace nor punctuation; where a punctuation mark other than the
//! sentinel ends the name, the mark stays on the directive, which ends
//! with it. The tokens of a string are what is read off by taking, from
//! left to right, the longest token each time.

use vstd::prelude::*;
use crate::charclass::{is_delimiter, is_punctuation, is_whitespace, SENTINEL};

verus! {

/// Whether `c` can be attached to the end of a directive: a punctuation
/// mark other than the sentinel.
pub open spec fn attachable(c: char) -> bool {
    is_punctuation(c) && c != SENTINEL
}

/// Whether `c` may come next in a token that begins with `first` and has
/// come as far as `prev`. A literal takes everything but a sentinel. A
/// directive that has taken a punctuation mark is complete; before that it
/// takes what is no delimiter, and one mark.
pub open spec fn follows(first: char, prev: char, c: char) -> bool {
    if first != SENTINEL {
        c != SENTINEL
    } else if attachable(prev) {
        false
    } else {
        !is_delimiter(c) || attachable(c)
    }
}

/// The shape of a token: it is not empty, and each of its characters
/// behind the first may follow the one before it.
pub open spec fn is_token(t: Seq<char>) -> bool {
    &&& t.len() > 0
    &&& forall|k: int| 1 <= k < t.len() ==> follows(t[0], t[k - 1], #[trigger] t[k])
}

/// The first index at or after `from` whose character may not follow in
/// the token that begins at `start`, or the length of `s` if there is none.
pub open spec fn run_end(s: Seq<char>, start: int, from: int) -> int
    decreases s.len() - from,
{
    if 0 <= start < from < s.len() && follows(s[start], s[from - 1], s[from]) {
        run_end(s, start, from + 1)
    } else {
        from
    }
}

/// One past the last index of the token that begins at `start`.
pub open spec fn token_end(s: Seq<char>, start: int) -> int {
    run_end(s, start, start + 1)
}

/// The tokens of `s` from the token boundary `start` on.
pub open spec fn tokens_from(s: Seq<char>, start: int) -> Seq<Seq<char>>
    decreases s.len() - start,
{
    if 0 <= start < s.len() {
        proof {
            lemma_run_end_bounds(s, start, start + 1);
        }
        seq![s.subrange(start, token_end(s, start))] + tokens_from(
            s,
            token_end(s, start),
        )
    } else {
        Seq::empty()
    }
}

/// The tokens of a format string.
pub open spec fn tokens_of(s: Seq<char>) -> Seq<Seq<char>> {
    tokens_from(s, 0)
}

/// Whether `tokens` cuts `s` the way the tokenizer does: the pieces, one
/// after the other, are `s`; each has the shape of a token; and none
/// could have taken the first character of the piece behind it.
pub open spec fn is_tokenization(tokens: Seq<Seq<char>>, s: Seq<char>) -> bool {
    &&& tokens.flatten() == s
    &&& forall|i: int| 0 <= i < tokens.len() ==> is_token(#[trigger] tokens[i])
    &&& forall|i: int|
        #![trigger tokens[i]]
        0 <= i && i + 1 < tokens.len() ==> !follows(
            tokens[i][0],
            tokens[i].last(),
            tokens[i + 1][0],
        )
}

/// A run ends at or after the index it is asked from, and inside the string.
pub proof fn lemma_run_end_bounds(s: Seq<char>, start: int, from: int)
    requires
        0 <= from <= s.len(),
    ensures
        from <= run_end(s, start, from) <= s.len(),
    decreases s.len() - from,
{
    if 0 <= start < from < s.len() && follows(s[start], s[from - 1], s[from]) {
        lemma_run_end_bounds(s, start, from + 1);
    }
}

/// Every character from `from` up to the end of a run follows the one
/// before it, and the character at the end of the run, if there is one,
/// does not.
pub proof fn lemma_run_follows(s: Seq<char>, start: int, from: int)
    requires
        0 <= start < from <= s.len(),
    ensures
        forall|k: int|
            from <= k < run_end(s, start, from) ==> follows(
                s[start],
                s[k - 1],
                #[trigger] s[k],
            ),
        run_end(s, start, from) < s.len() ==> !follows(
            s[start],
            s[run_end(s, start, from) - 1],
            s[run_end(s, start, from)],
        ),
    decreases s.len() - from,
{
    if from < s.len() && follows(s[start], s[from - 1], s[from]) {
        lemma_run_follows(s, start, from + 1);
    }
}

/// A run ends at `end` if every character before `end` follows the one
/// before it and the character at `end`, if there is one, does not.
pub proof fn lemma_run_end_is(s: Seq<char>, start: int, from: int, end: int)
    requires
        0 <= start < from <= end <= s.len(),
        forall|k: int| from <= k < end ==> follows(s[start], s[k - 1], #[trigger] s[k]),
        end < s.len() ==> !follows(s[start], s[end - 1], s[end]),
    ensures
        run_end(s, start, from) == end,
    decreases end - from,
{
    if from < end {
        lemma_run_end_is(s, start, from + 1, end);
    }
}

/// The token that begins at `start` ends at `end` if every character in
/// between follows the one before it and the character at `end`, if there
/// is one, does not; the tokens from `start` on are then this token and
/// those from `end` on.
pub proof fn lemma_token_ends_at(s: Seq<char>, start: int, end: int)
    requires
        0 <= start < end <= s.len(),
        forall|k: int| start < k < end ==> follows(s[start], s[k - 1], #[trigger] s[k]),
        end < s.len() ==> !follows(s[start], s[end - 1], s[end]),
    ensures
        token_end(s, start) == end,
        tokens_from(s, start) == seq![s.subrange(start, end)] + tokens_from(
            s,
            end,
        ),
{
    lemma_run_end_is(s, start, start + 1, end);
}

/// Every token of a string has the shape of a token.
pub proof fn lemma_tokens_are_tokens(s: Seq<char>, start: int)
    requires
        0 <= start <= s.len(),
    ensures
        forall|i: int|
            0 <= i < tokens_from(s, start).len() ==> is_token(
                #[trigger] tokens_from(s, start)[i],
            ),
    decreases s.len() - start,
{
    if start < s.len() {
        let end = token_end(s, start);
        let tokens = tokens_from(s, start);
        lemma_run_end_bounds(s, start, start + 1);
        lemma_run_follows(s, start, start + 1);
        lemma_tokens_are_tokens(s, end);
        let first = s.subrange(start, end);
        assert(is_token(first)) by {
            assert forall|k: int| 1 <= k < first.len() implies follows(
                first[0],
                first[k - 1],
                #[trigger] first[k],
            ) by {
                assert(first[k] == s[start + k]);
            }
        }
        assert forall|i: int| 0 <= i < tokens.len() implies is_token(
            #[trigger] tokens[i],
        ) by {
            if i > 0 {
                assert(tokens[i] == tokens_from(s, end)[i - 1]);
            }
        }
    }
}

/// Tokens are as long as they can be: the character that begins a token
/// could not have followed in the token before it.
pub proof fn lemma_tokens_are_longest(s: Seq<char>, start: int)
    requires
        0 <= start <= s.len(),
    ensures
        forall|i: int|
            #![trigger tokens_from(s, start)[i]]
            0 <= i && i + 1 < tokens_from(s, start).len() ==> !follows(
                tokens_from(s, start)[i][0],
                tokens_from(s, start)[i].last(),
                tokens_from(s, start)[i + 1][0],
            ),
    decreases s.len() - start,
{
    if start < s.len() {
        let end = token_end(s, start);
        let tokens = tokens_from(s, start);
        let rest = tokens_from(s, end);
        lemma_run_end_bounds(s, start, start + 1);
        lemma_tokens_are_longest(s, end);
        assert forall|i: int|
            #![trigger tokens[i]]
            0 <= i && i + 1 < tokens.len() implies !follows(
            tokens[i][0],
            tokens[i].last(),
            tokens[i + 1][0],
        ) by {
            if i == 0 {
                assert(rest.len() > 0);
                lemma_run_follows(s, start, start + 1);
                lemma_run_end_bounds(s, end, end + 1);
                assert(tokens[1] == rest[0]);
                assert(tokens[1][0] == s[end]);
                assert(tokens[0][0] == s[start]);
                assert(tokens[0].last() == s[end - 1]);
            } else {
                assert(tokens[i] == rest[i - 1]);
                assert(tokens[i + 1] == rest[i]);
            }
        }
    }
}

/// The tokens from a boundary on, one after the other, are the string from
/// that boundary on: no character is lost, added or moved.
pub proof fn lemma_tokens_from_concatenate(s: Seq<char>, start: int)
    requires
        0 <= start <= s.len(),
    ensures
        tokens_from(s, start).flatten() == s.subrange(start, s.len() as int),
    decreases s.len() - start,
{
    let tokens = tokens_from(s, start);
    if start < s.len() {
        let end = token_end(s, start);
        lemma_run_end_bounds(s, start, start + 1);
        lemma_tokens_from_concatenate(s, end);
        assert(tokens.first() == s.subrange(start, end));
        assert(tokens.drop_first() =~= tokens_from(s, end));
        assert(tokens.flatten() =~= s.subrange(start, s.len() as int));
    } else {
        assert(tokens.flatten() =~= s.subrange(start, s.len() as int));
    }
}

/// Tokenizing loses nothing: the tokens of a string, one after the other,
/// are the string.
pub proof fn lemma_tokens_concatenate(s: Seq<char>)
    ensures
        tokens_of(s).flatten() == s,
{
    lemma_tokens_from_concatenate(s, 0);
    assert(s.subrange(0, s.len() as int) =~= s);
}

/// The tokens of a string cut it the way the tokenizer does.
pub proof fn lemma_tokens_of_is_tokenization(s: Seq<char>)
    ensures
        is_tokenization(tokens_of(s), s),
{
    lemma_tokens_concatenate(s);
    lemma_tokens_are_tokens(s, 0);
    lemma_tokens_are_longest(s, 0);
}

/// What cuts the rest of a string from `start` on the way the tokenizer
/// does is the sequence of the tokens from `start` on.
proof fn lemma_tokenization_from(tokens: Seq<Seq<char>>, s: Seq<char>, start: int)
    requires
        0 <= start <= s.len(),
        is_tokenization(tokens, s.subrange(start, s.len() as int)),
    ensures
        tokens == tokens_from(s, start),
    decreases tokens.len(),
{
    let tail = s.subrange(start, s.len() as int);
    if tokens.len() == 0 {
        assert(tail.len() == 0);
        assert(tokens =~= tokens_from(s, start));
    } else {
        let first = tokens.first();
        let rest = tokens.drop_first();
        let end = start + first.len();
        assert(is_token(first));
        assert(tail == first + rest.flatten());
        assert(tail.len() == first.len() + rest.flatten().len());
        assert(first =~= tail.subrange(0, first.len() as int));
        assert(rest.flatten() =~= tail.subrange(first.len() as int, tail.len() as int));
        assert(first =~= s.subrange(start, end));
        assert(rest.flatten() =~= s.subrange(end, s.len() as int));
        assert forall|k: int| start < k < end implies follows(
            s[start],
            s[k - 1],
            #[trigger] s[k],
        ) by {
            assert(s[k] == first[k - start]);
        }
        if end < s.len() {
            assert(rest.len() > 0);
            assert(is_token(tokens[1]));
            assert(rest.first() == tokens[1]);
            assert(rest.flatten() == tokens[1] + rest.drop_first().flatten());
            assert(rest.flatten()[0] == tokens[1][0]);
            assert(s[end] == s.subrange(end, s.len() as int)[0]);
            assert(s[end - 1] == tokens[0].last());
            assert(!follows(tokens[0][0], tokens[0].last(), tokens[1][0]));
        }
        lemma_token_ends_at(s, start, end);
        assert(is_tokenization(rest, s.subrange(end, s.len() as int))) by {
            assert forall|i: int| 0 <= i < rest.len() implies is_token(
                #[trigger] rest[i],
            ) by {
                assert(rest[i] == tokens[i + 1]);
            }
            assert forall|i: int|
                #![trigger rest[i]]
                0 <= i && i + 1 < rest.len() implies !follows(
                rest[i][0],
                rest[i].last(),
                rest[i + 1][0],
            ) by {
                assert(rest[i] == tokens[i + 1]);
                assert(rest[i + 1] == tokens[i + 2]);
            }
        }
        lemma_tokenization_from(rest, s, end);
        assert(tokens =~= seq![first] + rest);
    }
}

/// There is one way only to cut a string as the tokenizer does: whatever
/// cuts it so is the sequence of its tokens.
pub proof fn lemma_tokenization_is_unique(tokens: Seq<Seq<char>>, s: Seq<char>)
    requires
        is_tokenization(tokens, s),
    ensures
        tokens == tokens_of(s),
{
    assert(s.subrange(0, s.len() as int) =~= s);
    lemma_tokenization_from(tokens, s, 0);
}

/// A string without a sentinel is one literal token, or no token if it is
/// empty.
pub proof fn lemma_tokens_without_sentinel(s: Seq<char>)
    requires
        !s.contains(SENTINEL),
    ensures
        tokens_of(s) == if s.len() == 0 {
            Seq::<Seq<char>>::empty()
        } else {
            seq![s]
        },
{
    if s.len() > 0 {
        assert forall|k: int| 0 < k < s.len() implies follows(
            s[0],
            s[k - 1],
            #[trigger] s[k],
        ) by {
            assert(s.contains(s[0]));
            assert(s.contains(s[k]));
        }
        lemma_token_ends_at(s, 0, s.len() as int);
        assert(s.subrange(0, s.len() as int) =~= s);
        assert(tokens_of(s) =~= seq![s]);
    }
}

/// Splits a format string into its tokens: literal runs and directives, in
/// the order in which they stand in the string. A punctuation mark that
/// ends the name of a directive stays on the directive; whitespace that
/// ends it begins the next literal.
pub fn lexer(format: &str) -> (tokens: Vec<String>)
    ensures
        tokens.deep_view() == tokens_of(format@),
        is_tokenization(tokens.deep_view(), format@),
{
    let mut tokens: Vec<String> = Vec::new();
    let mut current_token = String::new();
    let mut in_token = false;
    let ghost s = format@;
    let ghost mut start: int = 0;

    for c in it: format.chars()
        invariant
            it.seq() == s,
            0 <= start <= it.index() <= s.len(),
            current_token@ == s.subrange(start, it.index()),
            start == it.index() ==> !in_token,
            start < it.index() ==> in_token == (s[start] == SENTINEL),
            in_token ==> !attachable(s[it.index() - 1]),
            forall|k: int|
                start < k < it.index() ==> follows(s[start], s[k - 1], #[trigger] s[k]),
            tokens.deep_view() + tokens_from(s, start) == tokens_of(s),
    {
        let ghost i = it.index();
        let ghost done = tokens.deep_view();
        if c == SENTINEL {
            if !current_token.as_str().is_empty() {
                tokens.push(current_token);
                current_token = String::new();
                proof {
                    lemma_token_ends_at(s, start, i);
                    assert(tokens.deep_view() =~= done.push(s.subrange(start, i)));
                    assert(tokens.deep_view() + tokens_from(s, i) =~= done + tokens_from(
                        s,
                        start,
                    ));
                }
            }
            in_token = true;
            current_token.push(c);
            proof {
                start = i;
                assert(current_token@ =~= s.subrange(start, i + 1));
            }
        } else if in_token && is_punctuation(c) {
            current_token.push(c);
            proof {
                assert(current_token@ =~= s.subrange(start, i + 1));
            }
            tokens.push(current_token);
            current_token = String::new();
            in_token = false;
            proof {
                lemma_token_ends_at(s, start, i + 1);
                assert(tokens.deep_view() =~= done.push(s.subrange(start, i + 1)));
                assert(tokens.deep_view() + tokens_from(s, i + 1) =~= done + tokens_from(
                    s,
                    start,
                ));
                start = i + 1;
                assert(current_token@ =~= s.subrange(start, i + 1));
            }
        } else if in_token {
            if is_whitespace(c) {
                tokens.push(current_token);
                current_token = String::new();
                in_token = false;
                proof {
                    lemma_token_ends_at(s, start, i);
                    assert(tokens.deep_view() =~= done.push(s.subrange(start, i)));
                    assert(tokens.deep_view() + tokens_from(s, i) =~= done + tokens_from(
                        s,
                        start,
                    ));
                    start = i;
                }
            }
            current_token.push(c);
            proof {
                assert(current_token@ =~= s.subrange(start, i + 1));
            }
        } else {
            current_token.push(c);
            proof {
                assert(current_token@ =~= s.subrange(start, i + 1));
            }
        }
    }

    if !current_token.as_str().is_empty() {
        let ghost done = tokens.deep_view();
        tokens.push(current_token);
        proof {
            lemma_token_ends_at(s, start, s.len() as int);
            assert(tokens.deep_view() =~= done.push(s.subrange(start, s.len() as int)));
            assert(tokens.deep_view() =~= done + tokens_from(s, start));
        }
    }
    proof {
        lemma_tokens_of_is_tokenization(s);
    }
    tokens
}

} // verus!
