//! Query engine error types.
use vstd::prelude::*;
use vstd::string::*;

#[allow(unused_imports)]
use crate::text::{decimal, signed_decimal};
use crate::text::{joined_text, push_decimal, push_signed};

verus! {

broadcast use vstd::string::group_string_axioms;

/// Query engine errors.
#[derive(Debug, Clone, PartialEq, Eq)]
pub enum QueryError {
    /// Measurement not found in the schema registry.
    MeasurementNotFound(String),
    /// Field not found in the measurement schema.
    FieldNotFound {
        /// Measurement name.
        measurement: String,
        /// Field name that was not found.
        field: String,
    },
    /// Invalid time range (start > end).
    InvalidTimeRange {
        /// Start timestamp.
        start: i64,
        /// End timestamp.
        end: i64,
    },
    /// Query validation error.
    Validation(String),
    /// Segment read error.
    Segment(String),
    /// Arrow computation error.
    Arrow(String),
    /// Index error.
    Index(String),
    /// I/O error.
    Io(String),
    /// Per-query memory budget exceeded.
    ///
    /// Returned when a query operator attempts to allocate more memory than
    /// the configured per-query budget allows.
    QueryMemoryExceeded {
        /// Bytes requested in this allocation.
        requested: usize,
        /// Bytes already allocated by this query.
        allocated: usize,
        /// Total budget for this query.
        budget: usize,
    },
}

impl QueryError {
    /// The message under which the error is shown.
    pub open spec fn message(self) -> Seq<char> {
        match self {
            QueryError::MeasurementNotFound(name) => "Measurement not found: '"@ + name@ + "'"@,
            QueryError::FieldNotFound { measurement, field } => "Field '"@ + field@
                + "' not found in measurement '"@ + measurement@ + "'"@,
            QueryError::InvalidTimeRange { start, end } => "Invalid time range: start ("@
                + signed_decimal(start as int) + ") > end ("@ + signed_decimal(end as int) + ")"@,
            QueryError::Validation(text) => "Query validation error: "@ + text@ + ""@,
            QueryError::Segment(text) => "Segment error: "@ + text@ + ""@,
            QueryError::Arrow(text) => "Arrow error: "@ + text@ + ""@,
            QueryError::Index(text) => "Index error: "@ + text@ + ""@,
            QueryError::Io(text) => "I/O error: "@ + text@ + ""@,
            QueryError::QueryMemoryExceeded { requested, allocated, budget } => {
                "Query memory budget exceeded: requested "@ + decimal(requested as nat)
                    + " bytes, already allocated "@ + decimal(allocated as nat) + " of "@ + decimal(
                    budget as nat,
                ) + " bytes"@
            },
        }
    }

    /// The error is a validation error with this text.
    pub open spec fn is_validation(self, text: Seq<char>) -> bool {
        self matches QueryError::Validation(said) && said@ == text
    }

    /// The error in words.
    pub fn to_text(&self) -> (r: String)
        ensures
            r@ == self.message(),
    {
        match self {
            QueryError::MeasurementNotFound(name) => joined_text(
                "Measurement not found: '",
                name.as_str(),
                "'",
            ),
            QueryError::FieldNotFound { measurement, field } => {
                let mut out = joined_text(
                    "Field '",
                    field.as_str(),
                    "' not found in measurement '",
                );
                out.append(measurement.as_str());
                out.append("'");
                out
            },
            QueryError::InvalidTimeRange { start, end } => {
                let mut out = "Invalid time range: start (".to_owned();
                push_signed(&mut out, *start as i128);
                out.append(") > end (");
                push_signed(&mut out, *end as i128);
                out.append(")");
                out
            },
            QueryError::Validation(text) => joined_text(
                "Query validation error: ",
                text.as_str(),
                "",
            ),
            QueryError::Segment(text) => joined_text("Segment error: ", text.as_str(), ""),
            QueryError::Arrow(text) => joined_text("Arrow error: ", text.as_str(), ""),
            QueryError::Index(text) => joined_text("Index error: ", text.as_str(), ""),
            QueryError::Io(text) => joined_text("I/O error: ", text.as_str(), ""),
            QueryError::QueryMemoryExceeded { requested, allocated, budget } => {
                let mut out = "Query memory budget exceeded: requested ".to_owned();
                push_decimal(&mut out, *requested as u128);
                out.append(" bytes, already allocated ");
                push_decimal(&mut out, *allocated as u128);
                out.append(" of ");
                push_decimal(&mut out, *budget as u128);
                out.append(" bytes");
                out
            },
        }
    }
}

/// A validation error with this text.
pub fn invalid(text: &str) -> (r: QueryError)
    ensures
        r.is_validation(text@),
{
    QueryError::Validation(text.to_owned())
}

} // verus!
