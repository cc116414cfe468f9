//! Reading a FEN record: the piece placement and the record as a whole.

use crate::board::{
    decode_grid, grid_view, is_board, Castling, Color, Coordinate, Piece, PieceArray, Position,
    PositionView,
};
use crate::error::FenError;
use crate::text::{
    digit_value, fields, integer_i32, is_digit, parse_i32, split_fields, to_chars, to_digit,
};
use vstd::prelude::*;

verus! {

/// The squares that one character of a rank stands for: a digit stands
/// for that many empty squares, written `.`; any other character for one
/// square that holds it.
pub open spec fn run(c: char) -> Seq<char> {
    if is_digit(c) {
        Seq::new(digit_value(c) as nat, |i: int| '.')
    } else {
        seq![c]
    }
}

/// The squares of a rank, file `a` first: the runs of its characters, one
/// after the other.
pub open spec fn expand_rank(rank: Seq<char>) -> Seq<char>
    decreases rank.len(),
{
    if rank.len() == 0 {
        Seq::empty()
    } else {
        expand_rank(rank.drop_last()) + run(rank.last())
    }
}

/// The number of files that one character of a rank takes up: a digit
/// as many as it says, any other character one.
pub open spec fn files_of(c: char) -> nat {
    if is_digit(c) {
        digit_value(c) as nat
    } else {
        1
    }
}

/// The number of files that a rank takes up: the sum over its characters.
pub open spec fn width(rank: Seq<char>) -> nat
    decreases rank.len(),
{
    if rank.len() == 0 {
        0
    } else {
        width(rank.drop_last()) + files_of(rank.last())
    }
}

/// A rank expands to as many squares as its digits and letters add up to.
pub proof fn lemma_expanded_width(rank: Seq<char>)
    ensures
        expand_rank(rank).len() == width(rank),
    decreases rank.len(),
{
    if rank.len() > 0 {
        lemma_expanded_width(rank.drop_last());
    }
}

/// The ranks of a piece placement: the stretches of text that its `/`
/// characters separate. There is always at least one.
pub open spec fn ranks(field: Seq<char>) -> Seq<Seq<char>>
    decreases field.len(),
{
    if field.len() == 0 {
        seq![Seq::empty()]
    } else {
        let before = ranks(field.drop_last());
        if field.last() == '/' {
            before.push(Seq::empty())
        } else {
            before.drop_last().push(before.last().push(field.last()))
        }
    }
}

/// The text that ranks make when a `/` is put between each two of them.
pub open spec fn join(parts: Seq<Seq<char>>) -> Seq<char>
    decreases parts.len(),
{
    if parts.len() == 0 {
        Seq::empty()
    } else if parts.len() == 1 {
        parts[0]
    } else {
        join(parts.drop_last()) + seq!['/'] + parts.last()
    }
}

/// The ranks of a placement are what its `/` characters separate: no
/// rank holds a `/`, and the ranks with a `/` between each two of them
/// are the placement again.
pub proof fn lemma_ranks_split_at_slashes(field: Seq<char>)
    ensures
        ranks(field).len() >= 1,
        forall|r: int, i: int|
            0 <= r < ranks(field).len() && 0 <= i < ranks(field)[r].len() ==> (
            #[trigger] ranks(field)[r][i]) != '/',
        join(ranks(field)) == field,
    decreases field.len(),
{
    if field.len() > 0 {
        let shorter = field.drop_last();
        let before = ranks(shorter);
        let after = ranks(field);
        lemma_ranks_split_at_slashes(shorter);
        if field.last() == '/' {
            assert(after.drop_last() =~= before);
        } else {
            assert(after.drop_last() =~= before.drop_last());
            assert(join(after) =~= join(before).push(field.last()));
        }
    }
}

/// Whether `field` describes a whole board: eight ranks, each of which
/// expands to exactly eight squares.
pub open spec fn is_placement(field: Seq<char>) -> bool {
    &&& ranks(field).len() == 8
    &&& forall|r: int| 0 <= r < 8 ==> (#[trigger] expand_rank(ranks(field)[r])).len() == 8
}

/// The grid of characters that a piece placement describes, first rank
/// of the text first.
pub open spec fn expand(field: Seq<char>) -> Result<Seq<Seq<char>>, FenError> {
    if is_placement(field) {
        Ok(ranks(field).map_values(|rank: Seq<char>| expand_rank(rank)))
    } else {
        Err(FenError::MalformedRank)
    }
}

/// Whether `a` is the start of `b`.
spec fn is_prefix(a: Seq<char>, b: Seq<char>) -> bool {
    a.len() <= b.len() && a == b.take(a.len() as int)
}

/// Reading on never changes a rank that a `/` has closed, and only
/// lengthens the one that is open.
proof fn lemma_ranks_extend(s: Seq<char>, i: int)
    requires
        0 <= i <= s.len(),
    ensures
        1 <= ranks(s.take(i)).len() <= ranks(s).len(),
        forall|r: int| 0 <= r < ranks(s.take(i)).len() - 1 ==> ranks(s)[r] == ranks(s.take(i))[r],
        is_prefix(ranks(s.take(i)).last(), ranks(s)[ranks(s.take(i)).len() - 1]),
    decreases s.len(),
{
    if i == s.len() {
        assert(s.take(i) =~= s);
        lemma_ranks_split_at_slashes(s);
        let last = ranks(s).last();
        assert(last.take(last.len() as int) =~= last);
    } else {
        let shorter = s.drop_last();
        assert(shorter.take(i) =~= s.take(i));
        lemma_ranks_extend(shorter, i);
        let p = ranks(s.take(i));
        let q = ranks(shorter);
        let open = p.len() - 1;
        if s.last() != '/' && open == q.len() - 1 {
            let longer = q.last().push(s.last());
            assert(longer.take(p.last().len() as int) =~= q.last().take(p.last().len() as int));
        }
    }
}

/// A rank expands to no fewer squares than any of its prefixes does.
proof fn lemma_expand_prefix(a: Seq<char>, b: Seq<char>)
    requires
        is_prefix(a, b),
    ensures
        expand_rank(a).len() <= expand_rank(b).len(),
    decreases b.len(),
{
    if a.len() == b.len() {
        assert(a =~= b);
    } else {
        let shorter = b.drop_last();
        assert(shorter.take(a.len() as int) =~= b.take(a.len() as int));
        lemma_expand_prefix(a, shorter);
    }
}

/// Whether square `f` of the expanded `rank` comes from the character
/// at index `k`: the characters before it fill the files before `f`, its
/// own run reaches `f`, and the square holds `.` if the character is a
/// digit and the character itself if not.
pub open spec fn is_source(rank: Seq<char>, k: int, f: int) -> bool {
    &&& 0 <= k < rank.len()
    &&& expand_rank(rank.take(k)).len() <= f < expand_rank(rank.take(k + 1)).len()
    &&& 0 <= f < expand_rank(rank).len()
    &&& expand_rank(rank)[f] == if is_digit(rank[k]) {
        '.'
    } else {
        rank[k]
    }
}

/// Every square of an expanded rank comes from a character of the rank.
pub proof fn lemma_square_has_source(rank: Seq<char>, f: int)
    requires
        0 <= f < expand_rank(rank).len(),
    ensures
        exists|k: int| is_source(rank, k, f),
    decreases rank.len(),
{
    let shorter = rank.drop_last();
    let last = rank.len() - 1;
    if f < expand_rank(shorter).len() {
        lemma_square_has_source(shorter, f);
        let k = choose|k: int| is_source(shorter, k, f);
        assert(shorter.take(k) =~= rank.take(k));
        assert(shorter.take(k + 1) =~= rank.take(k + 1));
        assert(is_source(rank, k, f));
    } else {
        assert(rank.take(last + 1) =~= rank);
        assert(is_source(rank, last, f));
    }
}

/// A piece placement of eight ranks, in each of which the digits and
/// letters add up to eight files, expands to a grid with no square left
/// over: each square comes from a character of its rank, which either
/// wrote it or, being a digit, left it empty.
pub proof fn lemma_no_square_left_over(field: Seq<char>, r: int, f: int)
    requires
        ranks(field).len() == 8,
        forall|i: int| 0 <= i < 8 ==> width(#[trigger] ranks(field)[i]) == 8,
        0 <= r < 8,
        0 <= f < 8,
    ensures
        expand(field) matches Ok(grid) && is_board(grid) && grid[r][f] == expand_rank(
            ranks(field)[r],
        )[f],
        exists|k: int| is_source(ranks(field)[r], k, f),
{
    assert forall|i: int| 0 <= i < 8 implies (#[trigger] expand_rank(ranks(field)[i])).len()
        == 8 by {
        lemma_expanded_width(ranks(field)[i]);
    }
    lemma_square_has_source(ranks(field)[r], f);
}

/// The board that a piece placement describes: its grid of characters,
/// each read as a piece.
pub open spec fn placement(field: Seq<char>) -> Result<Seq<Seq<Piece>>, FenError> {
    match expand(field) {
        Ok(squares) => decode_grid(squares),
        Err(e) => Err(e),
    }
}

/// The number that a counter field holds, or `otherwise` where the field
/// is no decimal integer that fits in an `i32`.
pub open spec fn counter(field: Seq<char>, otherwise: FenError) -> Result<i32, FenError> {
    match integer_i32(field) {
        Some(n) => Ok(n),
        None => Err(otherwise),
    }
}

/// The position that a FEN record describes. The record must have six
/// fields; they are read in order, and the first that is wrong decides
/// the error.
pub open spec fn parse(fen: Seq<char>) -> Result<PositionView, FenError> {
    let field = fields(fen);
    if field.len() != 6 {
        Err(FenError::WrongFieldCount)
    } else if let Err(e) = placement(field[0]) {
        Err(e)
    } else if let Err(e) = Color::decode(field[1]) {
        Err(e)
    } else if let Err(e) = Castling::decode(field[2]) {
        Err(e)
    } else if let Err(e) = Coordinate::decode(field[3]) {
        Err(e)
    } else if let Err(e) = counter(field[4], FenError::BadHalfmove) {
        Err(e)
    } else if let Err(e) = counter(field[5], FenError::BadFullmove) {
        Err(e)
    } else {
        Ok(
            PositionView {
                board: placement(field[0])->Ok_0,
                active_color: Color::decode(field[1])->Ok_0,
                castling: Castling::decode(field[2])->Ok_0,
                enpassant: Coordinate::decode(field[3])->Ok_0,
                halfmove: counter(field[4], FenError::BadHalfmove)->Ok_0,
                fullmove: counter(field[5], FenError::BadFullmove)->Ok_0,
            },
        )
    }
}

/// A FEN record, as text.
pub struct Fen(pub String);

impl Fen {
    /// Expands a piece placement into its grid of characters: row 0 is
    /// the first rank of the text, column 0 is file `a`. A digit leaves
    /// that many squares at `.`, the value that the grid starts from.
    /// Fails with `MalformedRank` unless the text has exactly eight ranks
    /// of exactly eight squares.
    pub fn to_char_array(fen: &str) -> (grid: Result<[[char; 8]; 8], FenError>)
        ensures
            match expand(fen@) {
                Ok(squares) => grid matches Ok(g) && grid_view(g) == squares,
                Err(e) => grid == Err::<[[char; 8]; 8], FenError>(e),
            },
    {
        let chars = to_chars(fen);
        let mut state: [[char; 8]; 8] = [['.'; 8]; 8];
        let mut row: [char; 8] = ['.'; 8];
        let mut file: usize = 0;
        let mut rank: usize = 0;
        let mut i: usize = 0;
        while i < chars.len()
            invariant
                i <= chars.len(),
                chars@ == fen@,
                rank <= 7,
                file <= 8,
                ranks(chars@.take(i as int)).len() == rank + 1,
                forall|r: int|
                    0 <= r < rank ==> expand_rank(ranks(chars@.take(i as int))[r]) == (
                    #[trigger] state[r])@,
                expand_rank(ranks(chars@.take(i as int)).last()) == row@.take(file as int),
                forall|f: int| file <= f < 8 ==> row[f] == '.',
            decreases chars.len() - i,
        {
            let c = chars[i];
            let ghost text = chars@;
            let ghost before = ranks(text.take(i as int));
            let ghost after = ranks(text.take(i + 1));
            proof {
                assert(text.take(i + 1).drop_last() =~= text.take(i as int));
                lemma_ranks_extend(text, i + 1);
                if c != '/' {
                    assert(after.last().drop_last() =~= before.last());
                    lemma_expand_prefix(after.last(), ranks(text)[rank as int]);
                }
            }
            if c == '/' {
                if file != 8 || rank == 7 {
                    proof {
                        assert(expand_rank(ranks(text)[rank as int]).len() == file);
                    }
                    return Err(FenError::MalformedRank);
                }
                state[rank] = row;
                row = ['.'; 8];
                rank += 1;
                file = 0;
            } else {
                match to_digit(c) {
                    Some(d) => {
                        if file + (d as usize) > 8 {
                            return Err(FenError::MalformedRank);
                        }
                        file += d as usize;
                    },
                    None => {
                        if file >= 8 {
                            return Err(FenError::MalformedRank);
                        }
                        row[file] = c;
                        file += 1;
                    },
                }
            }
            i += 1;
        }
        proof {
            assert(chars@.take(i as int) =~= chars@);
        }
        if rank != 7 || file != 8 {
            return Err(FenError::MalformedRank);
        }
        state[rank] = row;
        proof {
            assert forall|r: int| 0 <= r < 8 implies #[trigger] expand_rank(ranks(fen@)[r])
                == state[r]@ by {}
        }
        Ok(state)
    }

    /// Reads the record. Succeeds exactly on a record of six fields that
    /// are each well formed, and otherwise reports the first field that
    /// is not; the field count is at fault only where it is not six.
    pub fn to_position(self) -> (position: Result<Position, FenError>)
        ensures
            match parse(self.0@) {
                Ok(v) => position matches Ok(p) && p@ == v && p.board.wf() && p.enpassant.wf(),
                Err(e) => position matches Err(x) && x == e,
            },
            position matches Err(FenError::WrongFieldCount) <==> fields(self.0@).len() != 6,
            position matches Ok(p) ==> is_board(p.board@),
    {
        let text = self.0.as_str();
        let chars = to_chars(text);
        let spans = split_fields(&chars);
        if spans.len() != 6 {
            return Err(FenError::WrongFieldCount);
        }
        let squares = match Fen::to_char_array(text.substring_char(spans[0].0, spans[0].1)) {
            Ok(squares) => squares,
            Err(e) => {
                return Err(e);
            },
        };
        let board = match PieceArray::new(squares) {
            Ok(board) => board,
            Err(e) => {
                return Err(e);
            },
        };
        let active_color = match Color::new(text.substring_char(spans[1].0, spans[1].1)) {
            Ok(color) => color,
            Err(e) => {
                return Err(e);
            },
        };
        let castling = match Castling::new(text.substring_char(spans[2].0, spans[2].1)) {
            Ok(castling) => castling,
            Err(e) => {
                return Err(e);
            },
        };
        let enpassant = match Coordinate::new(text.substring_char(spans[3].0, spans[3].1)) {
            Ok(enpassant) => enpassant,
            Err(e) => {
                return Err(e);
            },
        };
        let halfmove = match parse_i32(text.substring_char(spans[4].0, spans[4].1)) {
            Some(n) => n,
            None => {
                return Err(FenError::BadHalfmove);
            },
        };
        let fullmove = match parse_i32(text.substring_char(spans[5].0, spans[5].1)) {
            Some(n) => n,
            None => {
                return Err(FenError::BadFullmove);
            },
        };
        Ok(Position { board, active_color, castling, enpassant, halfmove, fullmove })
    }
}

} // verus!
