//! The problem store's pure side: what an insert stores, how the form
//! fields become a record, and the exact SQL text the store runs. The
//! connection itself and the query execution are I/O and live with the
//! caller; every failure there is reported as one of [`StoreError`]'s
//! variants.

use crate::digits::{
    lemma_dec_value_nonneg, numeral_digits, numeral_value, parse_dec_u32, parses_dec,
};
use crate::problem::{is_default_problem, ProblemData};
use vstd::prelude::*;

verus! {

/// The ways a store operation can fail.
#[derive(Clone, Copy, Debug, PartialEq, Eq, Structural)]
pub enum StoreError {
    /// A connection to the backend could not be opened.
    StoreUnavailable,
    /// Creating the table failed.
    SchemaInitFailed,
    /// A read or write statement failed.
    QueryFailed,
    /// A row's columns did not map to a route record's types.
    RowDecodeFailed,
    /// A form field could not be read as a number.
    ParseError,
}

/// The statement that idempotently creates the table of route records.
/// Safe to run on every startup: it never drops or alters existing data.
pub open spec fn create_table_chars() -> Seq<char> {
    "CREATE TABLE IF NOT EXISTS problems (image bool, grade int, setter text, likes int, date text);"@
}

/// The exact text of the create-table statement, for the caller to run.
pub fn create_table_query() -> (q: String)
    ensures
        q@ == create_table_chars(),
{
    String::from_str(
        "CREATE TABLE IF NOT EXISTS problems (image bool, grade int, setter text, likes int, date text);",
    )
}

/// The parameterized statement that inserts one route record: the caller
/// binds image, grade, setter, likes and date, in that order. Binding
/// keeps arbitrary text values (a date string, a setter's name) from
/// breaking the statement.
pub open spec fn insert_statement_chars() -> Seq<char> {
    "INSERT INTO problems (image, grade, setter, likes, date) VALUES (?, ?, ?, ?, ?)"@
}

/// The exact text of the insert statement, for the caller to run with the
/// row's fields bound in declared column order.
pub fn insert_statement() -> (q: String)
    ensures
        q@ == insert_statement_chars(),
{
    String::from_str("INSERT INTO problems (image, grade, setter, likes, date) VALUES (?, ?, ?, ?, ?)")
}

/// What an insert actually stores, and the statement that stores it.
///
/// The store discards the submitted record and inserts a fresh default row
/// instead — in particular, `likes` always goes in as `0`, whatever the
/// caller provided. This mirrors the backend's observed behaviour and is
/// kept deliberately rather than corrected.
pub fn add_problem(_problem: ProblemData) -> (r: (ProblemData, String))
    ensures
        is_default_problem(r.0),
        r.1@ == insert_statement_chars(),
{
    let row = ProblemData::default();
    let q = insert_statement();
    (row, q)
}

/// Builds a route record from raw form fields. The grade field must be an
/// unsigned decimal numeral (an optional leading `+`, then digits) no
/// larger than `255`; exactly otherwise the submission fails with
/// [`StoreError::ParseError`]. A new record always starts with zero likes.
pub fn add_problem_from_string(image: String, grade: String, setter: String, date: String) -> (r:
    Result<ProblemData, StoreError>)
    ensures
        match r {
            Ok(p) => parses_dec(grade@) && numeral_value(grade@) <= 255 && p.image@ == image@
                && p.grade == numeral_value(grade@) && p.setter@ == setter@ && p.likes == 0
                && p.date@ == date@,
            Err(e) => !(parses_dec(grade@) && numeral_value(grade@) <= 255) && e
                == StoreError::ParseError,
        },
{
    match parse_dec_u32(grade.as_str()) {
        Some(v) => {
            proof {
                lemma_dec_value_nonneg(numeral_digits(grade@));
            }
            if v <= 255 {
                Ok(ProblemData { image, grade: v as u8, setter, likes: 0, date })
            } else {
                Err(StoreError::ParseError)
            }
        },
        None => Err(StoreError::ParseError),
    }
}

} // verus!
