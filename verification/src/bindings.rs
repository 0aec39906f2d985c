//! A provider with fixed answers, for output that can be reproduced.

use vstd::prelude::*;
use crate::provider::ContentProvider;
use crate::strings::same_text;

verus! {

/// The value bound to `name` in `entries`: that of the first entry with
/// this name, if there is one.
pub open spec fn bound_value(entries: Seq<(Seq<char>, Seq<char>)>, name: Seq<char>) -> Option<
    Seq<char>,
>
    decreases entries.len(),
{
    if entries.len() == 0 {
        None
    } else if entries[0].0 == name {
        Some(entries[0].1)
    } else {
        bound_value(entries.drop_first(), name)
    }
}

/// A provider that understands the names in a list and gives for each the
/// value that stands beside it, the same each time.
pub struct Bindings {
    /// Pairs of a name and its value. Where a name stands twice, the
    /// first pair counts.
    pub entries: Vec<(String, String)>,
}

impl View for Bindings {
    type V = Seq<(Seq<char>, Seq<char>)>;

    open spec fn view(&self) -> Seq<(Seq<char>, Seq<char>)> {
        Seq::new(self.entries@.len(), |i: int| (self.entries@[i].0@, self.entries@[i].1@))
    }
}

impl Bindings {
    /// The index of the first entry for `name`, or the number of entries
    /// if there is none.
    fn position(&self, name: &str) -> (at: usize)
        ensures
            at <= self.entries@.len(),
            at < self.entries@.len() ==> bound_value(self@, name@) == Some(
                self.entries@[at as int].1@,
            ),
            at == self.entries@.len() ==> bound_value(self@, name@) is None,
    {
        let mut at: usize = 0;
        proof {
            assert(self@.skip(0) =~= self@);
        }
        while at < self.entries.len()
            invariant
                at <= self.entries@.len(),
                bound_value(self@, name@) == bound_value(self@.skip(at as int), name@),
            decreases self.entries@.len() - at,
        {
            let ghost rest = self@.skip(at as int);
            assert(rest[0] == self@[at as int]);
            if same_text(self.entries[at].0.as_str(), name) {
                return at;
            }
            proof {
                assert(rest.drop_first() =~= self@.skip(at + 1));
            }
            at += 1;
        }
        at
    }
}

impl ContentProvider for Bindings {
    open spec fn recognized(&self, name: Seq<char>) -> bool {
        bound_value(self@, name) is Some
    }

    open spec fn may_generate(&self, name: Seq<char>, value: Seq<char>) -> bool {
        bound_value(self@, name) == Some(value)
    }

    fn recognizes(&self, name: &str) -> (known: bool) {
        self.position(name) < self.entries.len()
    }

    fn generate(&self, name: &str) -> (value: String) {
        let at: usize = self.position(name);
        self.entries[at].1.clone()
    }
}

} // verus!
