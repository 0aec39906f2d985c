//! Content providers: where the values for directives come from.

use vstd::prelude::*;
use fake::faker::name::raw::Name;
use fake::locales::EN;
use fake::{Fake, Faker};
use crate::decimal::{decimal, is_digit, lemma_decimal_is_digits, to_decimal};
use crate::strings::same_text;

verus! {

/// A source of values for directives. The substitution engine asks it
/// which names it understands, and for a value each time such a name
/// occurs. A provider need not give the same value twice.
pub trait ContentProvider {
    /// The names that this provider understands.
    spec fn recognized(&self, name: Seq<char>) -> bool;

    /// The values that this provider may give for a name.
    spec fn may_generate(&self, name: Seq<char>, value: Seq<char>) -> bool;

    /// Whether this provider understands `name`.
    fn recognizes(&self, name: &str) -> (known: bool)
        ensures
            known == self.recognized(name@),
    ;

    /// A value for `name`, which the provider understands.
    fn generate(&self, name: &str) -> (value: String)
        requires
            self.recognized(name@),
        ensures
            self.may_generate(name@, value@),
    ;
}

/// The provider of made-up data: `name` is a person's name, two words or
/// more with a space between them, and `u32` is a number below 2^32 in
/// decimal.
pub struct FakeData;

/// `Name(EN).fake::<String>()` of the crate `fake`: a first and a last name
/// drawn at random from its English lists and set into a template that
/// puts a space between them. Claimed of the text is that space only, and
/// so that the text is not empty.
#[verifier::external_body]
fn fake_name() -> (name: String)
    ensures
        name@.len() > 0,
        name@.contains(' '),
{
    Name(EN).fake::<String>()
}

/// `Faker.fake::<u32>()` of the crate `fake`: a number drawn at random.
/// Nothing is claimed of it beyond its type.
#[verifier::external_body]
fn fake_u32() -> (n: u32) {
    Faker.fake::<u32>()
}

/// Whatever `FakeData` gives for `u32` is a number in decimal: at least
/// one digit, and digits only.
pub proof fn lemma_fake_u32_is_decimal(value: Seq<char>)
    requires
        FakeData.may_generate("u32"@, value),
    ensures
        value.len() > 0,
        forall|k: int| 0 <= k < value.len() ==> is_digit(#[trigger] value[k]),
{
    let n = choose|n: u32| value == decimal(n as nat);
    lemma_decimal_is_digits(n as nat);
}

impl ContentProvider for FakeData {
    open spec fn recognized(&self, name: Seq<char>) -> bool {
        name == "name"@ || name == "u32"@
    }

    open spec fn may_generate(&self, name: Seq<char>, value: Seq<char>) -> bool {
        &&& name == "u32"@ ==> exists|n: u32| value == decimal(n as nat)
        &&& name == "name"@ ==> value.len() > 0 && value.contains(' ')
    }

    fn recognizes(&self, name: &str) -> (known: bool) {
        same_text(name, "name") || same_text(name, "u32")
    }

    fn generate(&self, name: &str) -> (value: String) {
        proof {
            reveal_strlit("name");
            reveal_strlit("u32");
            assert("name"@.len() != "u32"@.len());
        }
        if same_text(name, "u32") {
            let n: u32 = fake_u32();
            to_decimal(n)
        } else {
            fake_name()
        }
    }
}

} // verus!
