//! The parts of a directive token: the sentinel, a name, and the
//! punctuation that trails the name.

use vstd::prelude::*;
use crate::charclass::{is_punctuation, SENTINEL};

verus! {

/// A token is a directive if it begins with the sentinel.
pub open spec fn is_directive(token: Seq<char>) -> bool {
    token.len() > 0 && token[0] == SENTINEL
}

/// Where the run of punctuation that ends `token[..end]` begins. The
/// character at index 0, the sentinel of a directive, is never counted
/// into that run.
pub open spec fn name_end_before(token: Seq<char>, end: int) -> int
    decreases end,
{
    if 1 < end <= token.len() && is_punctuation(token[end - 1]) {
        name_end_before(token, end - 1)
    } else {
        end
    }
}

/// The index at which the name of a directive token ends and its trailing
/// punctuation begins.
pub open spec fn name_end(token: Seq<char>) -> int {
    name_end_before(token, token.len() as int)
}

/// The name of a directive token: what stands between the sentinel and the
/// trailing punctuation.
pub open spec fn directive_name(token: Seq<char>) -> Seq<char> {
    token.subrange(1, name_end(token))
}

/// The trailing punctuation of a directive token: its longest suffix of
/// punctuation characters that leaves the sentinel in place.
pub open spec fn directive_trailing(token: Seq<char>) -> Seq<char> {
    token.subrange(name_end(token), token.len() as int)
}

/// The name of a directive ends after the sentinel and inside the token.
pub proof fn lemma_name_end_bounds(token: Seq<char>, end: int)
    requires
        1 <= end <= token.len(),
    ensures
        1 <= name_end_before(token, end) <= end,
    decreases end,
{
    if 1 < end && is_punctuation(token[end - 1]) {
        lemma_name_end_bounds(token, end - 1);
    }
}

/// A directive token is its sentinel, its name and its trailing
/// punctuation, in this order. The trailing part is punctuation throughout,
/// and a name that is not empty ends in a character that is not.
pub proof fn lemma_directive_parts(token: Seq<char>)
    requires
        is_directive(token),
    ensures
        token == seq![SENTINEL] + directive_name(token) + directive_trailing(token),
        forall|k: int|
            0 <= k < directive_trailing(token).len() ==> is_punctuation(
                #[trigger] directive_trailing(token)[k],
            ),
        directive_name(token).len() > 0 ==> !is_punctuation(directive_name(token).last()),
{
    lemma_name_end_bounds(token, token.len() as int);
    lemma_trailing_is_punctuation(token, token.len() as int);
    assert(token =~= seq![SENTINEL] + directive_name(token) + directive_trailing(token));
}

/// From the end of the name up to `end` all is punctuation, and the last
/// character of a name that is not empty is not.
proof fn lemma_trailing_is_punctuation(token: Seq<char>, end: int)
    requires
        1 <= end <= token.len(),
    ensures
        forall|k: int| name_end_before(token, end) <= k < end ==> is_punctuation(#[trigger] token[k]),
        name_end_before(token, end) > 1 ==> !is_punctuation(
            token[name_end_before(token, end) - 1],
        ),
    decreases end,
{
    if 1 < end && is_punctuation(token[end - 1]) {
        lemma_trailing_is_punctuation(token, end - 1);
    }
}

/// The two parts of a directive token that follow its sentinel.
pub struct Directive {
    /// What the directive asks for.
    pub name: String,
    /// The punctuation that stood behind the name.
    pub trailing: String,
}

/// Reads a token as a directive: `None` if it does not begin with the
/// sentinel, else its name and its trailing punctuation.
pub fn parse_directive(token: &str) -> (parts: Option<Directive>)
    ensures
        parts is Some <==> is_directive(token@),
        parts matches Some(d) ==> d.name@ == directive_name(token@) && d.trailing@
            == directive_trailing(token@),
{
    let mut name = String::new();
    let mut pending = String::new();
    let mut at_sentinel = true;
    let ghost t = token@;
    for c in it: token.chars()
        invariant
            it.seq() == t,
            t == token@,
            at_sentinel == (it.index() == 0),
            it.index() > 0 ==> t[0] == SENTINEL,
            it.index() > 0 ==> name@ + pending@ == t.subrange(1, it.index()),
            it.index() > 0 ==> 1 + name@.len() == name_end_before(t, it.index()),
            it.index() == 0 ==> name@.len() == 0 && pending@.len() == 0,
    {
        let ghost i = it.index();
        if at_sentinel {
            if c != SENTINEL {
                return None;
            }
            at_sentinel = false;
        } else if is_punctuation(c) {
            pending.push(c);
            proof {
                assert(name@ + pending@ =~= t.subrange(1, i + 1));
            }
        } else {
            name.append(pending.as_str());
            name.push(c);
            pending = String::new();
            proof {
                assert(name@ + pending@ =~= t.subrange(1, i + 1));
            }
        }
    }
    if at_sentinel {
        return None;
    }
    proof {
        let rest = name@ + pending@;
        assert(rest.len() == t.len() - 1);
        assert(name@ =~= rest.subrange(0, name@.len() as int));
        assert(pending@ =~= rest.subrange(name@.len() as int, rest.len() as int));
        assert(name@ =~= directive_name(t));
        assert(pending@ =~= directive_trailing(t));
    }
    Some(Directive { name, trailing: pending })
}

} // verus!
