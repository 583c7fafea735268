use crate::error::{RunError, Failure};
use crate::number::{parse_number, parse_value};
use vstd::prelude::*;
use vstd::string::*;

verus! {

/// A single-byte field separator.
#[derive(Debug, Clone, Copy, PartialEq, Eq, Structural)]
pub struct Delimiter(pub u8);

/// What a run needs to know besides its input.
#[derive(Debug, Clone, Copy, PartialEq, Eq, Structural)]
pub struct Config {
    /// The 1-based column whose values are summed.
    pub column: usize,
    /// The field separator.
    pub delimiter: Delimiter,
    /// List the groups by descending sum.
    pub sorted: bool,
    /// Write the sum as the first field of each row.
    pub sum_first: bool,
    /// Pass the first record through as a header.
    pub has_headers: bool,
}

/// The byte that a separator token stands for: the tab for a backslash
/// followed by `t`, else the token's one ASCII character.
pub open spec fn resolve(token: Seq<char>) -> Option<u8> {
    if token == seq!['\\', 't'] {
        Some(9u8)
    } else if token.len() == 1 && (token[0] as u32) < 128 {
        Some(token[0] as u8)
    } else {
        None
    }
}

/// `char::to_string` of std: a string that holds the one character.
#[verifier::external_body]
fn char_to_string(c: char) -> (s: String)
    ensures
        s@ == seq![c],
{
    c.to_string()
}

impl Delimiter {
    /// The separator is an ASCII byte.
    pub open spec fn wf(&self) -> bool {
        self.0 < 128
    }

    /// The separator as a byte.
    pub fn as_byte(&self) -> (b: u8)
        ensures
            b == self.0,
    {
        self.0
    }

    /// The separator as a string of one character.
    pub fn as_string(&self) -> (s: String)
        ensures
            s@ == seq![self.0 as char],
    {
        char_to_string(self.0 as char)
    }

    /// Resolves a separator token.
    pub fn from_str(token: &str) -> (r: Result<Delimiter, RunError>)
        ensures
            match r {
                Ok(d) => resolve(token@) == Some(d.0) && d.wf(),
                Err(e) => resolve(token@).is_none() && e@ == (Failure::InvalidDelimiter {
                    token: token@,
                }),
            },
    {
        let n = token.unicode_len();
        if n == 2 {
            if token.get_char(0) == '\\' && token.get_char(1) == 't' {
                assert(token@ =~= seq!['\\', 't']);
                return Ok(Delimiter(9));
            }
        }
        if n == 1 {
            let c = token.get_char(0);
            if (c as u32) < 128 {
                return Ok(Delimiter(c as u8));
            }
        }
        Err(RunError::InvalidDelimiter { token: token.to_owned() })
    }
}

/// Reads the column argument: a number that fits in `usize`.
pub fn parse_column(token: &str) -> (r: Result<usize, RunError>)
    ensures
        match r {
            Ok(column) => parse_value(token.spec_bytes()) == Some(column as u64),
            Err(e) => e@ == (Failure::InvalidColumnIndex { token: token@ }) && (
            match parse_value(token.spec_bytes()) {
                Some(v) => v > usize::MAX,
                None => true,
            }),
        },
{
    match parse_number(token.as_bytes()) {
        Some(v) => {
            if v <= usize::MAX as u64 {
                Ok(v as usize)
            } else {
                Err(RunError::InvalidColumnIndex { token: token.to_owned() })
            }
        },
        None => Err(RunError::InvalidColumnIndex { token: token.to_owned() }),
    }
}

} // verus!
