//! The ways in which a FEN record can be wrong.

use vstd::prelude::*;
use vstd::string::StringExecFns;

verus! {

/// Why a FEN record, or one of its fields, was rejected.
#[derive(Copy, Clone, PartialEq, Eq, Debug, Structural)]
pub enum FenError {
    /// The record does not consist of exactly six whitespace-separated fields.
    WrongFieldCount,
    /// The piece placement does not describe eight ranks of eight files each.
    MalformedRank,
    /// A square of the piece placement holds a character that names no piece.
    /// `row` and `column` locate the square in the grid, `symbol` is the
    /// offending character.
    UnknownPiece { symbol: char, row: usize, column: usize },
    /// The side to move is neither `w` nor `b`.
    BadColor,
    /// The castling field holds a character other than `K`, `Q`, `k`, `q`, `-`.
    BadCastleChar,
    /// The en-passant field is not `-` and is not two bytes long.
    BadLength,
    /// The en-passant field does not start with a file letter `a` to `h`.
    BadColumn,
    /// The en-passant field does not end with a rank digit `1` to `8`.
    BadRank,
    /// The halfmove clock is not a decimal integer.
    BadHalfmove,
    /// The fullmove number is not a decimal integer.
    BadFullmove,
}

impl FenError {
    /// The text of the one-line description of this error.
    pub open spec fn description(self) -> Seq<char> {
        match self {
            FenError::WrongFieldCount => "bad fen number field"@,
            FenError::MalformedRank => "bad piece placement"@,
            FenError::UnknownPiece { .. } => "unknown piece"@,
            FenError::BadColor => "bad color"@,
            FenError::BadCastleChar => "bad castle"@,
            FenError::BadLength => "bad coordinate length"@,
            FenError::BadColumn => "bad coordinate column"@,
            FenError::BadRank => "bad coordinate rank"@,
            FenError::BadHalfmove => "bad half move"@,
            FenError::BadFullmove => "bad full move"@,
        }
    }

    /// A one-line description of this error, fit to show to a user.
    pub fn message(&self) -> (text: String)
        ensures
            text@ == self.description(),
    {
        match self {
            FenError::WrongFieldCount => String::from_str("bad fen number field"),
            FenError::MalformedRank => String::from_str("bad piece placement"),
            FenError::UnknownPiece { .. } => String::from_str("unknown piece"),
            FenError::BadColor => String::from_str("bad color"),
            FenError::BadCastleChar => String::from_str("bad castle"),
            FenError::BadLength => String::from_str("bad coordinate length"),
            FenError::BadColumn => String::from_str("bad coordinate column"),
            FenError::BadRank => String::from_str("bad coordinate rank"),
            FenError::BadHalfmove => String::from_str("bad half move"),
            FenError::BadFullmove => String::from_str("bad full move"),
        }
    }
}

} // verus!
