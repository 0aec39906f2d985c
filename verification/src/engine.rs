//! The substitution engine: tokens in, expanded text out.
//!
//! A token is either replaced as a whole or copied as it stands. It is
//! replaced if it is a directive with a name that is not empty and that
//! the provider recognizes; the provider's value then takes the place of
//! sentinel and name, and the trailing punctuation follows it.

use vstd::prelude::*;
use crate::charclass::{is_delimiter, SENTINEL};
use crate::decimal::is_digit;
use crate::directive::{
    directive_name, directive_trailing, is_directive, lemma_name_end_bounds, name_end,
    name_end_before, parse_directive,
};
use crate::provider::{lemma_fake_u32_is_decimal, ContentProvider, FakeData};
use crate::tokenizer::{
    attachable, follows, is_token, lemma_token_ends_at, lemma_tokens_concatenate,
    lemma_tokens_without_sentinel, lexer, tokens_of,
};

verus! {

/// Whether the engine replaces `token` by a value of `provider`.
pub open spec fn substitutes<P: ContentProvider>(provider: &P, token: Seq<char>) -> bool {
    &&& is_directive(token)
    &&& directive_name(token).len() > 0
    &&& provider.recognized(directive_name(token))
}

/// What the engine writes for `token` when the provider's value for it,
/// if one is asked for, is `value`.
pub open spec fn render<P: ContentProvider>(
    provider: &P,
    token: Seq<char>,
    value: Seq<char>,
) -> Seq<char> {
    if substitutes(provider, token) {
        value + directive_trailing(token)
    } else {
        token
    }
}

/// What the engine writes for each of `tokens`, where `values[i]` is the
/// provider's value for the token at index `i`.
pub open spec fn renderings<P: ContentProvider>(
    provider: &P,
    tokens: Seq<Seq<char>>,
    values: Seq<Seq<char>>,
) -> Seq<Seq<char>> {
    Seq::new(tokens.len(), |i: int| render(provider, tokens[i], values[i]))
}

/// The expanded text: the renderings of the tokens, one after the other.
pub open spec fn expansion<P: ContentProvider>(
    provider: &P,
    tokens: Seq<Seq<char>>,
    values: Seq<Seq<char>>,
) -> Seq<char> {
    renderings(provider, tokens, values).flatten()
}

/// Whether `value` can be what `provider` gave for `token`: where the token
/// is replaced, a value that the provider may give for its name; where it
/// is not, the provider is not asked and any value will do.
pub open spec fn admissible_value<P: ContentProvider>(
    provider: &P,
    token: Seq<char>,
    value: Seq<char>,
) -> bool {
    substitutes(provider, token) ==> provider.may_generate(directive_name(token), value)
}

/// Whether `values` can be what `provider` gave for `tokens`: one entry for
/// each token, each of them admissible for its token.
pub open spec fn admissible<P: ContentProvider>(
    provider: &P,
    tokens: Seq<Seq<char>>,
    values: Seq<Seq<char>>,
) -> bool {
    &&& values.len() == tokens.len()
    &&& forall|i: int|
        0 <= i < tokens.len() ==> admissible_value(provider, #[trigger] tokens[i], values[i])
}

/// Whether none of `tokens` is replaced.
pub open spec fn all_verbatim<P: ContentProvider>(provider: &P, tokens: Seq<Seq<char>>) -> bool {
    forall|i: int| 0 <= i < tokens.len() ==> !substitutes(provider, #[trigger] tokens[i])
}

/// Where no token is replaced, the expansion is the tokens' text, whatever
/// the values are.
pub proof fn lemma_verbatim_expansion<P: ContentProvider>(
    provider: &P,
    tokens: Seq<Seq<char>>,
    values: Seq<Seq<char>>,
)
    requires
        all_verbatim(provider, tokens),
    ensures
        expansion(provider, tokens, values) == tokens.flatten(),
{
    assert(renderings(provider, tokens, values) =~= tokens);
}

/// Writes what stands for `token` to the end of `out`: the provider's value
/// and the trailing punctuation where the token is replaced, else the
/// token itself. The provider is asked for a value only in the first case.
pub fn write_token<P: ContentProvider>(out: &mut String, token: &str, provider: &P)
    ensures
        exists|value: Seq<char>|
            #![trigger render(provider, token@, value)]
            admissible_value(provider, token@, value) && final(out)@ == old(out)@ + render(
                provider,
                token@,
                value,
            ),
        !substitutes(provider, token@) ==> final(out)@ == old(out)@ + token@,
{
    if let Some(d) = parse_directive(token) {
        if !d.name.as_str().is_empty() && provider.recognizes(d.name.as_str()) {
            let value = provider.generate(d.name.as_str());
            out.append(value.as_str());
            out.append(d.trailing.as_str());
            proof {
                assert(out@ =~= old(out)@ + render(provider, token@, value@));
            }
            return ;
        }
    }
    out.append(token);
    proof {
        assert(out@ == old(out)@ + render(provider, token@, Seq::empty()));
    }
}

/// Expands `tokens`: asks `provider` for a value for each directive that
/// it recognizes, in the order of the tokens, and copies the rest.
pub fn substitute<P: ContentProvider>(tokens: &Vec<String>, provider: &P) -> (out: String)
    ensures
        exists|values: Seq<Seq<char>>|
            admissible(provider, tokens.deep_view(), values) && out@ == expansion(
                provider,
                tokens.deep_view(),
                values,
            ),
        all_verbatim(provider, tokens.deep_view()) ==> out@ == tokens.deep_view().flatten(),
{
    let mut out = String::new();
    let ghost texts = tokens.deep_view();
    let ghost mut values: Seq<Seq<char>> = Seq::empty();
    proof {
        assert(renderings(provider, texts.take(0), values) =~= Seq::empty());
    }
    let mut i: usize = 0;
    while i < tokens.len()
        invariant
            i <= tokens.len(),
            texts == tokens.deep_view(),
            admissible(provider, texts.take(i as int), values),
            out@ == expansion(provider, texts.take(i as int), values),
        decreases tokens.len() - i,
    {
        let ghost before = out@;
        let token = tokens[i].as_str();
        assert(token@ == texts[i as int]);
        write_token(&mut out, token, provider);
        proof {
            let value = choose|value: Seq<char>|
                #![trigger render(provider, token@, value)]
                admissible_value(provider, token@, value) && out@ == before + render(
                    provider,
                    token@,
                    value,
                );
            let rendered = renderings(provider, texts.take(i as int), values);
            assert(renderings(provider, texts.take(i + 1), values.push(value)) =~= rendered.push(
                render(provider, token@, value),
            ));
            rendered.lemma_flatten_push(render(provider, token@, value));
            values = values.push(value);
        }
        i += 1;
    }
    proof {
        assert(texts.take(i as int) =~= texts);
        if all_verbatim(provider, texts) {
            lemma_verbatim_expansion(provider, texts, values);
        }
    }
    out
}

/// A directive as the tokenizer cuts it is the sentinel, a name without a
/// delimiter in it, and at most one punctuation mark, which is not the
/// sentinel.
pub proof fn lemma_token_directive(token: Seq<char>)
    requires
        is_token(token),
        is_directive(token),
    ensures
        forall|k: int|
            0 <= k < directive_name(token).len() ==> !is_delimiter(
                #[trigger] directive_name(token)[k],
            ),
        directive_trailing(token).len() <= 1,
        directive_trailing(token).len() == 1 ==> attachable(directive_trailing(token)[0]),
{
    let n = token.len() as int;
    assert forall|k: int| 1 <= k < n - 1 implies !is_delimiter(#[trigger] token[k]) by {
        assert(follows(token[0], token[k - 1], token[k]));
        assert(follows(token[0], token[k], token[k + 1]));
    }
    if n > 1 {
        if is_delimiter(token[n - 1]) {
            assert(name_end(token) == n - 1) by {
                if n > 2 {
                    assert(!is_delimiter(token[n - 2]));
                }
                assert(name_end_before(token, n - 1) == n - 1);
            }
        }
    }
    lemma_name_end_bounds(token, n);
}

/// Where the provider recognizes no directive of a format string,
/// tokenizing and substituting gives the string back, whatever the
/// provider would have answered.
pub proof fn lemma_lossless<P: ContentProvider>(
    provider: &P,
    format: Seq<char>,
    values: Seq<Seq<char>>,
)
    requires
        all_verbatim(provider, tokens_of(format)),
    ensures
        expansion(provider, tokens_of(format), values) == format,
{
    lemma_verbatim_expansion(provider, tokens_of(format), values);
    lemma_tokens_concatenate(format);
}

/// A format string without a sentinel comes back unchanged, with every
/// provider.
pub proof fn lemma_literal_only<P: ContentProvider>(
    provider: &P,
    format: Seq<char>,
    values: Seq<Seq<char>>,
)
    requires
        !format.contains(SENTINEL),
    ensures
        all_verbatim(provider, tokens_of(format)),
        expansion(provider, tokens_of(format), values) == format,
{
    lemma_tokens_without_sentinel(format);
    if format.len() > 0 {
        assert(format.contains(format[0]));
    }
    lemma_lossless(provider, format, values);
}

/// With made-up data the format `%u32` expands to a number in decimal and
/// nothing else, whichever number is drawn.
pub proof fn lemma_u32_alone(values: Seq<Seq<char>>)
    requires
        admissible(&FakeData, tokens_of("%u32"@), values),
    ensures
        expansion(&FakeData, tokens_of("%u32"@), values).len() > 0,
        forall|k: int|
            0 <= k < expansion(&FakeData, tokens_of("%u32"@), values).len() ==> is_digit(
                #[trigger] expansion(&FakeData, tokens_of("%u32"@), values)[k],
            ),
{
    reveal_strlit("%u32");
    reveal_strlit("u32");
    let format = "%u32"@;
    let tokens = tokens_of(format);
    lemma_token_ends_at(format, 0, 4);
    assert(format.subrange(0, 4) =~= format);
    assert(tokens =~= seq![format]);
    assert(directive_name(format) =~= "u32"@);
    assert(substitutes(&FakeData, tokens[0]));
    lemma_fake_u32_is_decimal(values[0]);
    let rendered = renderings(&FakeData, tokens, values);
    assert(rendered =~= seq![values[0]]);
    rendered.lemma_flatten_one_element();
    assert(rendered.first() =~= values[0]);
}

/// Expands a format string: tokenizes it and substitutes with `provider`.
pub fn expand<P: ContentProvider>(format: &str, provider: &P) -> (out: String)
    ensures
        exists|values: Seq<Seq<char>>|
            admissible(provider, tokens_of(format@), values) && out@ == expansion(
                provider,
                tokens_of(format@),
                values,
            ),
        all_verbatim(provider, tokens_of(format@)) ==> out@ == format@,
        !format@.contains(SENTINEL) ==> out@ == format@,
{
    let tokens = lexer(format);
    let out = substitute(&tokens, provider);
    proof {
        if !format@.contains(SENTINEL) {
            lemma_literal_only(provider, format@, Seq::empty());
        }
    }
    out
}

/// Expands a format string with made-up data: `%name` becomes a person's
/// name and `%u32` a number; everything else stays as it is.
pub fn parse(format: &str) -> (out: String)
    ensures
        exists|values: Seq<Seq<char>>|
            admissible(&FakeData, tokens_of(format@), values) && out@ == expansion(
                &FakeData,
                tokens_of(format@),
                values,
            ),
        all_verbatim(&FakeData, tokens_of(format@)) ==> out@ == format@,
        !format@.contains(SENTINEL) ==> out@ == format@,
{
    expand(format, &FakeData)
}

} // verus!
