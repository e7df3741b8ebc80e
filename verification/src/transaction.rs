//! What the ledger records: a transaction with its value, its kind, a short
//! description and the time at which it was made.

use time::OffsetDateTime;
use vstd::prelude::*;
use vstd::std_specs::convert::TryFromSpecImpl;
use vstd::utf8::encode_utf8;

verus! {

/// The greatest number of bytes that a description may have.
pub const DESCRIPTION_MAX: usize = 10;

/// What is said of a text that cannot be a description.
pub const DESCRIPTION_ERROR: &'static str = "Descricao inválida";

/// A text can be a description: its UTF-8 form has at least one byte and at
/// most ten.
pub open spec fn description_ok(text: Seq<char>) -> bool {
    1 <= encode_utf8(text).len() <= DESCRIPTION_MAX
}

/// The description of a transaction: a text of one to ten bytes.
#[derive(Debug, Clone)]
pub struct Description(String);

impl View for Description {
    type V = Seq<char>;

    /// The text of the description.
    closed spec fn view(&self) -> Seq<char> {
        self.0@
    }
}

impl TryFrom<String> for Description {
    type Error = &'static str;

    /// Takes `value` as a description if it has one to ten bytes, and says
    /// that the description is not valid otherwise.
    fn try_from(value: String) -> (result: Result<Self, Self::Error>)
        ensures
            description_ok(value@) ==> result is Ok && result->Ok_0@ == value@,
            !description_ok(value@) ==> result is Err && result->Err_0@ == DESCRIPTION_ERROR@,
    {
        let len = value.as_str().as_bytes().len();
        if len == 0 || len > DESCRIPTION_MAX {
            Err(DESCRIPTION_ERROR)
        } else {
            Ok(Self(value))
        }
    }
}

impl TryFromSpecImpl<String> for Description {
    open spec fn obeys_try_from_spec() -> bool {
        true
    }

    closed spec fn try_from_spec(value: String) -> Result<Self, &'static str> {
        if description_ok(value@) {
            Ok(Description(value))
        } else {
            Err(DESCRIPTION_ERROR)
        }
    }
}

impl Description {
    /// The text of the description.
    pub fn as_str(&self) -> (text: &str)
        ensures
            text@ == self@,
    {
        self.0.as_str()
    }
}

/// Whether a transaction adds to the balance or takes from it.
#[derive(Debug, Clone, Copy, PartialEq, Eq, Structural)]
pub enum TransactionType {
    Credit,
    Debit,
}

/// `time::OffsetDateTime`, a date and time with an offset from UTC. The
/// library carries such a value through and looks at nothing inside it.
#[verifier::external_type_specification]
#[verifier::external_body]
pub struct ExOffsetDateTime(OffsetDateTime);

/// The time at which a transaction was made.
#[derive(Debug)]
pub struct DateTime(pub OffsetDateTime);

impl Clone for DateTime {
    /// The same point in time.
    fn clone(&self) -> (copy: Self)
        ensures
            copy == *self,
    {
        DateTime(self.0)
    }
}

impl DateTime {
    /// The current time, as `time::OffsetDateTime::now_utc` reads it from the
    /// system clock and gives it in UTC. The call is trusted, and nothing is
    /// claimed of the value that it hands back.
    #[verifier::external_body]
    pub fn now() -> DateTime {
        DateTime(OffsetDateTime::now_utc())
    }
}

impl Default for DateTime {
    /// The current time.
    fn default() -> Self {
        DateTime::now()
    }
}

/// One movement on an account.
#[derive(Debug, Clone)]
pub struct Transaction {
    pub value: i64,
    pub kind: TransactionType,
    pub description: Description,
    pub created_at: DateTime,
}

} // verus!
