//! Command-line option values that the library understands.

use vstd::prelude::*;

verus! {

/// What the cells are sorted by.
#[derive(Clone, Copy, PartialEq, Eq, Debug, Structural)]
pub enum KeyMode {
    /// The cell's original position (restores the image).
    Index,
    /// The cell's average luminance.
    Luma,
}

impl KeyMode {
    pub open spec fn spec_name(self) -> Seq<char> {
        match self {
            KeyMode::Index => "original position"@,
            KeyMode::Luma => "luminance"@,
        }
    }

    /// Human-readable name of the sort key.
    pub fn name(self) -> (s: &'static str)
        ensures
            s@ == self.spec_name(),
    {
        match self {
            KeyMode::Index => "original position",
            KeyMode::Luma => "luminance",
        }
    }

    /// Stable numeric id, as stored in cache headers.
    pub fn code(self) -> (c: u8)
        ensures
            c == (match self {
                KeyMode::Index => 0u8,
                KeyMode::Luma => 1u8,
            }),
    {
        match self {
            KeyMode::Index => 0,
            KeyMode::Luma => 1,
        }
    }
}

/// A count option that was given as zero.
#[derive(Clone, Copy, PartialEq, Eq, Debug, Structural)]
pub enum OptionError {
    ZeroCols,
    ZeroRows,
    ZeroCell,
    ZeroSpeed,
}

impl OptionError {
    pub open spec fn spec_message(self) -> Seq<char> {
        match self {
            OptionError::ZeroCols => "--cols must be >= 1"@,
            OptionError::ZeroRows => "--rows must be >= 1"@,
            OptionError::ZeroCell => "--cell must be >= 1"@,
            OptionError::ZeroSpeed => "--speed must be >= 1"@,
        }
    }

    /// The message shown to the user.
    pub fn message(self) -> (s: &'static str)
        ensures
            s@ == self.spec_message(),
    {
        match self {
            OptionError::ZeroCols => "--cols must be >= 1",
            OptionError::ZeroRows => "--rows must be >= 1",
            OptionError::ZeroCell => "--cell must be >= 1",
            OptionError::ZeroSpeed => "--speed must be >= 1",
        }
    }
}

/// Check the count options, in the order `--cols`, `--rows`, `--cell`,
/// `--speed`; the first one given as zero is the error.
pub fn validate_counts(cols: Option<usize>, rows: Option<usize>, cell: Option<usize>, speed: Option<usize>) -> (r: Result<(), OptionError>)
    ensures
        r == (if cols == Some(0usize) {
            Err(OptionError::ZeroCols)
        } else if rows == Some(0usize) {
            Err(OptionError::ZeroRows)
        } else if cell == Some(0usize) {
            Err(OptionError::ZeroCell)
        } else if speed == Some(0usize) {
            Err(OptionError::ZeroSpeed)
        } else {
            Ok(())
        }),
{
    if cols == Some(0usize) {
        return Err(OptionError::ZeroCols);
    }
    if rows == Some(0usize) {
        return Err(OptionError::ZeroRows);
    }
    if cell == Some(0usize) {
        return Err(OptionError::ZeroCell);
    }
    if speed == Some(0usize) {
        return Err(OptionError::ZeroSpeed);
    }
    Ok(())
}

} // verus!
