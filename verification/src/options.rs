//! Command-line option values shared by the subcommands.

use vstd::prelude::*;

use crate::img_resize::ParseError;
use crate::text::{all_ascii, ascii_lower, lowercased, parse_unsigned, parse_unsigned_decimal, str_eq, to_lowercase};

verus! {

/// PNG compression level.
#[derive(Clone, Copy, Debug, PartialEq, Eq, Structural)]
pub enum Compression {
    Best,
    Default,
    Fast,
    /// A numeric level, 0 to 9.
    Level(u8),
}

/// The compression that a value names: a level name compared ignoring case
/// (`lower` is the value lowercased), otherwise the value itself read as a
/// number from 0 to 9.
pub open spec fn compression_of(lower: Seq<char>, input: Seq<char>) -> Option<Compression> {
    if lower == "best"@ {
        Some(Compression::Best)
    } else if lower == "default"@ {
        Some(Compression::Default)
    } else if lower == "fast"@ {
        Some(Compression::Fast)
    } else {
        match parse_unsigned(input, 9) {
            Some(v) => Some(Compression::Level(v as u8)),
            None => None,
        }
    }
}

pub open spec fn compression_outcome(r: Result<Compression, ParseError>, lower: Seq<char>, input: Seq<char>) -> bool {
    match compression_of(lower, input) {
        Some(c) => r == Ok::<Compression, ParseError>(c),
        None => r matches Err(ParseError::UnknownCompression(q)) && q@ == input,
    }
}

/// Reads a compression value from its lowercased text and its text as given.
pub fn compression_from_lower(lower: &str, input: &str) -> (r: Result<Compression, ParseError>)
    ensures
        compression_outcome(r, lower@, input@),
{
    if str_eq(lower, "best") {
        Ok(Compression::Best)
    } else if str_eq(lower, "default") {
        Ok(Compression::Default)
    } else if str_eq(lower, "fast") {
        Ok(Compression::Fast)
    } else {
        match parse_unsigned_decimal(input, 9) {
            Some(v) => Ok(Compression::Level(v as u8)),
            None => Err(ParseError::UnknownCompression(String::from_str(input))),
        }
    }
}

/// Parses a PNG compression value: "best", "default", "fast" (any case), or
/// a level from 0 to 9; anything else is refused.
pub fn parse_compression(s: &str) -> (r: Result<Compression, ParseError>)
    ensures
        compression_outcome(r, lowercased(s@), s@),
        all_ascii(s@) ==> compression_outcome(r, ascii_lower(s@), s@),
{
    let lower = to_lowercase(s);
    compression_from_lower(lower.as_str(), s)
}

/// Names of the resize-only atlas options that were changed from their
/// defaults while `--resize` is off (they are ignored, with a warning).
pub open spec fn ignored_options_spec(resize: bool, size: Seq<char>, aspect: Seq<char>, spacing: Seq<char>) -> Seq<Seq<char>> {
    if resize {
        seq![]
    } else {
        (if size != "256x256"@ { seq!["--size"@] } else { seq![] }) + (if aspect != "keep"@ {
            seq!["--aspect"@]
        } else {
            seq![]
        }) + (if spacing != "0x0"@ { seq!["--spacing"@] } else { seq![] })
    }
}

/// The resize-only atlas options set away from their defaults while
/// `--resize` is off.
pub fn ignored_resize_options(resize: bool, size: &str, aspect: &str, spacing: &str) -> (r: Vec<&'static str>)
    ensures
        r@.map_values(|s: &'static str| s@) == ignored_options_spec(resize, size@, aspect@, spacing@),
{
    let mut r: Vec<&'static str> = Vec::new();
    if !resize {
        if !str_eq(size, "256x256") {
            r.push("--size");
        }
        if !str_eq(aspect, "keep") {
            r.push("--aspect");
        }
        if !str_eq(spacing, "0x0") {
            r.push("--spacing");
        }
    }
    assert(r@.map_values(|s: &'static str| s@) =~= ignored_options_spec(resize, size@, aspect@, spacing@));
    r
}

} // verus!
