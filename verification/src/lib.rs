//! Renaming exported email files by the earliest send date found in their text.
//!
//! The library locates date-bearing header fragments (English `Sent: ` headers
//! and Japanese date headers) in free-form text, parses each into a normalized
//! `YYYYMMDD` string, selects the earliest, and builds the renamed file path.

use vstd::prelude::*;

pub mod extract;
pub mod locale;
pub mod rename;
pub mod text;

verus! {

/// The ways parsing a recognized header fragment can fail.
#[derive(Clone, Copy, Debug, PartialEq, Eq, Structural)]
pub enum DateError {
    /// The English month token is outside the fixed twelve-name table.
    UnrecognizedMonthName,
    /// An English fragment has fewer than four whitespace-delimited tokens.
    MalformedEnglishDate,
    /// A Japanese fragment lacks the year/month/day numeric triple.
    MalformedJapaneseDate,
}

/// The character sequence carried by a parse result over `Vec<char>`.
pub open spec fn chars_result_view(r: Result<Vec<char>, DateError>) -> Result<
    Seq<char>,
    DateError,
> {
    match r {
        Ok(v) => Ok(v@),
        Err(e) => Err(e),
    }
}

/// The character sequence carried by a parse result over `String`.
pub open spec fn string_result_view(r: Result<String, DateError>) -> Result<
    Seq<char>,
    DateError,
> {
    match r {
        Ok(s) => Ok(s@),
        Err(e) => Err(e),
    }
}

} // verus!
