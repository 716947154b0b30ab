use vstd::prelude::*;
use vstd::string::StringExecFns;

verus! {

/// Everything an operation of the engine can report instead of a result.
#[derive(Debug)]
pub enum RelationErrors {
    /// No relation is registered under the given name.
    RelationNotFound,
    /// A relation is already registered under the given name.
    RelationAlreadyExists,
    /// The named column is not stored in the relation.
    ColumnNotFound(String),
    /// The persisted form of a relation could not be produced.
    WriteError(String),
    /// Delimited text could not be read.
    ReadError(String),
    /// A condition without a kind of its own.
    Error(String),
    /// An argument does not fit the relation, such as a tuple of the wrong arity.
    InvalidInput(String),
    /// A merge join was given a join column that is not in ascending order.
    UnsortedInputError,
    /// A numeric aggregate was asked of a column without numeric entries.
    AggregationError(String),
    /// A byte buffer is not the encoding of a sequence of values.
    DecodeError,
}

/// `std::io::Error`, of which nothing is looked at.
#[verifier::external_type_specification]
#[verifier::external_body]
pub struct ExIoError(std::io::Error);

/// `csv::Error`, of which nothing is looked at.
#[verifier::external_type_specification]
#[verifier::external_body]
pub struct ExCsvError(csv::Error);

impl From<csv::Error> for RelationErrors {
    /// Whatever went wrong while delimited text was read becomes a
    /// `ReadError`.
    fn from(e: csv::Error) -> (r: Self)
        ensures
            r matches RelationErrors::ReadError(s) && s@ == "Error reading csv"@,
    {
        RelationErrors::ReadError("Error reading csv".to_string())
    }
}

impl vstd::std_specs::convert::FromSpecImpl<csv::Error> for RelationErrors {
    open spec fn obeys_from_spec() -> bool {
        false
    }

    open spec fn from_spec(e: csv::Error) -> Self {
        RelationErrors::RelationNotFound
    }
}

impl From<std::io::Error> for RelationErrors {
    /// Whatever went wrong while a file was read becomes a `ReadError`.
    fn from(e: std::io::Error) -> (r: Self)
        ensures
            r matches RelationErrors::ReadError(s) && s@ == "Error reading file"@,
    {
        RelationErrors::ReadError("Error reading file".to_string())
    }
}

impl vstd::std_specs::convert::FromSpecImpl<std::io::Error> for RelationErrors {
    open spec fn obeys_from_spec() -> bool {
        false
    }

    open spec fn from_spec(e: std::io::Error) -> Self {
        RelationErrors::RelationNotFound
    }
}

/// What `Debug` makes of a text: the text between quotes, with the
/// characters escaped that Rust escapes in a string.
pub uninterp spec fn quoted(s: Seq<char>) -> Seq<char>;

/// The `Debug` form of a `str`: the text as Rust writes it between quotes,
/// which depends on nothing but the text.
#[verifier::external_body]
fn quote(s: &str) -> (r: String)
    ensures
        r@ == quoted(s@),
{
    format!("{:?}", s)
}

/// The text of an error: the name of its kind, and behind it, for a kind
/// that carries a text, that text quoted and in brackets.
pub open spec fn description(e: RelationErrors) -> Seq<char> {
    match e {
        RelationErrors::RelationNotFound => "RelationNotFound"@,
        RelationErrors::RelationAlreadyExists => "RelationAlreadyExists"@,
        RelationErrors::ColumnNotFound(s) => "ColumnNotFound"@ + "("@ + quoted(s@) + ")"@,
        RelationErrors::WriteError(s) => "WriteError"@ + "("@ + quoted(s@) + ")"@,
        RelationErrors::ReadError(s) => "ReadError"@ + "("@ + quoted(s@) + ")"@,
        RelationErrors::Error(s) => "Error"@ + "("@ + quoted(s@) + ")"@,
        RelationErrors::InvalidInput(s) => "InvalidInput"@ + "("@ + quoted(s@) + ")"@,
        RelationErrors::UnsortedInputError => "UnsortedInputError"@,
        RelationErrors::AggregationError(s) => "AggregationError"@ + "("@ + quoted(s@) + ")"@,
        RelationErrors::DecodeError => "DecodeError"@,
    }
}

/// The name of a kind with the text that it carries, quoted and in brackets.
fn labelled(label: &str, text: &str) -> (r: String)
    ensures
        r@ == label@ + "("@ + quoted(text@) + ")"@,
{
    let mut out = label.to_string();
    out.append("(");
    out.append(quote(text).as_str());
    out.append(")");
    out
}

impl RelationErrors {
    /// The text of this error, as a front end shows it.
    pub fn describe(&self) -> (r: String)
        ensures
            r@ == description(*self),
    {
        match self {
            RelationErrors::RelationNotFound => "RelationNotFound".to_string(),
            RelationErrors::RelationAlreadyExists => "RelationAlreadyExists".to_string(),
            RelationErrors::ColumnNotFound(s) => labelled("ColumnNotFound", s.as_str()),
            RelationErrors::WriteError(s) => labelled("WriteError", s.as_str()),
            RelationErrors::ReadError(s) => labelled("ReadError", s.as_str()),
            RelationErrors::Error(s) => labelled("Error", s.as_str()),
            RelationErrors::InvalidInput(s) => labelled("InvalidInput", s.as_str()),
            RelationErrors::UnsortedInputError => "UnsortedInputError".to_string(),
            RelationErrors::AggregationError(s) => labelled("AggregationError", s.as_str()),
            RelationErrors::DecodeError => "DecodeError".to_string(),
        }
    }
}

} // verus!
