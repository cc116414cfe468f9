//! The chess board and what stands on it.

use crate::error::FenError;
use crate::text::to_chars;
use vstd::prelude::*;
use vstd::utf8::{encode_scalar, encode_utf8};

verus! {

/// What a square holds, colour aside.
#[derive(Copy, Clone, Hash, Eq, PartialEq, Debug, Structural)]
pub enum PieceKind {
    Empty,
    Pawn,
    King,
    Queen,
    Knight,
    Bishop,
    Rook,
    /// A square off the logical board.
    Outside,
}

/// The two sides.
#[derive(Copy, Clone, PartialEq, Eq, Debug, Hash, Structural)]
pub enum Color {
    Black,
    White,
}

/// A piece kind and the side it belongs to. An empty square is a piece of
/// kind `Empty`; its colour carries no meaning.
#[derive(Copy, Clone, PartialEq, Eq, Debug, Hash, Structural)]
pub struct Piece {
    pub kind: PieceKind,
    pub color: Color,
}

/// Whether `c` is one of the letters `a` to `z`.
pub open spec fn is_lower(c: char) -> bool {
    'a' <= c <= 'z'
}

/// Whether `c` is one of the letters `A` to `Z`.
pub open spec fn is_upper(c: char) -> bool {
    'A' <= c <= 'Z'
}

/// The capital of a letter `a` to `z`; any other character unchanged.
pub open spec fn upper(c: char) -> char {
    if is_lower(c) {
        (c as u8 - 32) as char
    } else {
        c
    }
}

/// The small form of a letter `A` to `Z`; any other character unchanged.
pub open spec fn lower(c: char) -> char {
    if is_upper(c) {
        (c as u8 + 32) as char
    } else {
        c
    }
}

impl PieceKind {
    /// The character that stands for this kind: a capital letter for the
    /// six chessmen, `.` for an empty square, `#` for one off the board.
    pub open spec fn symbol(self) -> char {
        match self {
            PieceKind::Empty => '.',
            PieceKind::Pawn => 'P',
            PieceKind::King => 'K',
            PieceKind::Queen => 'Q',
            PieceKind::Bishop => 'B',
            PieceKind::Knight => 'N',
            PieceKind::Rook => 'R',
            PieceKind::Outside => '#',
        }
    }

    /// The kind that `c` stands for, if any. Case matters: only capitals
    /// name chessmen here.
    pub open spec fn from_symbol(c: char) -> Option<PieceKind> {
        if c == '.' {
            Some(PieceKind::Empty)
        } else if c == 'P' {
            Some(PieceKind::Pawn)
        } else if c == 'K' {
            Some(PieceKind::King)
        } else if c == 'Q' {
            Some(PieceKind::Queen)
        } else if c == 'B' {
            Some(PieceKind::Bishop)
        } else if c == 'N' {
            Some(PieceKind::Knight)
        } else if c == 'R' {
            Some(PieceKind::Rook)
        } else if c == '#' {
            Some(PieceKind::Outside)
        } else {
            None
        }
    }

    /// The character that stands for this kind.
    pub fn to_char(self) -> (c: char)
        ensures
            c == self.symbol(),
    {
        match self {
            PieceKind::Empty => '.',
            PieceKind::Pawn => 'P',
            PieceKind::King => 'K',
            PieceKind::Queen => 'Q',
            PieceKind::Bishop => 'B',
            PieceKind::Knight => 'N',
            PieceKind::Rook => 'R',
            PieceKind::Outside => '#',
        }
    }

    /// Reads `c` as a kind: `None` unless `c` is the symbol of one.
    pub fn new(c: char) -> (kind: Option<PieceKind>)
        ensures
            kind == Self::from_symbol(c),
    {
        match c {
            '.' => Some(PieceKind::Empty),
            'P' => Some(PieceKind::Pawn),
            'K' => Some(PieceKind::King),
            'Q' => Some(PieceKind::Queen),
            'B' => Some(PieceKind::Bishop),
            'N' => Some(PieceKind::Knight),
            'R' => Some(PieceKind::Rook),
            '#' => Some(PieceKind::Outside),
            _ => None,
        }
    }

    /// Decoding is the inverse of encoding: a character decodes to a kind
    /// exactly when it is that kind's symbol. So every kind comes back from
    /// its own symbol, and no two kinds share one.
    pub proof fn lemma_from_symbol_inverts_symbol(c: char, k: PieceKind)
        ensures
            Self::from_symbol(c) == Some(k) <==> k.symbol() == c,
            Self::from_symbol(k.symbol()) == Some(k),
    {
    }
}

impl Piece {
    /// The character that stands for this piece: the kind's symbol, in
    /// small letters for Black.
    pub open spec fn symbol(self) -> char {
        if self.color == Color::Black {
            lower(self.kind.symbol())
        } else {
            self.kind.symbol()
        }
    }

    /// The piece that `c` stands for, if any: a small letter names the
    /// Black piece whose kind its capital names, any other character the
    /// White piece whose kind it names itself. Only `a` to `z` count as
    /// small letters here: no small letter beyond them has a capital that
    /// names a kind, so nothing is lost.
    pub open spec fn from_symbol(c: char) -> Option<Piece> {
        if is_lower(c) {
            match PieceKind::from_symbol(upper(c)) {
                Some(kind) => Some(Piece { kind, color: Color::Black }),
                None => None,
            }
        } else {
            match PieceKind::from_symbol(c) {
                Some(kind) => Some(Piece { kind, color: Color::White }),
                None => None,
            }
        }
    }

    /// Whether the square that holds this is occupied: the kind is not
    /// `Empty`. A square off the board counts as occupied.
    pub open spec fn is_occupied(self) -> bool {
        self.kind != PieceKind::Empty
    }

    /// The character that stands for this piece.
    pub fn to_char(self) -> (c: char)
        ensures
            c == self.symbol(),
    {
        let c = self.kind.to_char();
        if self.color == Color::Black {
            if 'A' <= c && c <= 'Z' {
                ((c as u8) + 32) as char
            } else {
                c
            }
        } else {
            c
        }
    }

    /// Reads `c` as a piece: `None` unless `c` is one of the fourteen
    /// piece symbols.
    pub fn new(c: char) -> (piece: Option<Piece>)
        ensures
            piece == Self::from_symbol(c),
    {
        if 'a' <= c && c <= 'z' {
            let capital = ((c as u8) - 32) as char;
            match PieceKind::new(capital) {
                Some(kind) => Some(Piece { kind, color: Color::Black }),
                None => None,
            }
        } else {
            match PieceKind::new(c) {
                Some(kind) => Some(Piece { kind, color: Color::White }),
                None => None,
            }
        }
    }
}

/// Whether `c` is one of the fourteen characters that name a piece:
/// `.`, `#`, and the letters `P K Q B N R` in either case.
pub open spec fn is_piece_symbol(c: char) -> bool {
    c == '.' || c == '#' || c == 'P' || c == 'K' || c == 'Q' || c == 'B' || c == 'N' || c == 'R'
        || c == 'p' || c == 'k' || c == 'q' || c == 'b' || c == 'n' || c == 'r'
}

/// Decoding then encoding gives the character back, case and all: exactly
/// the fourteen piece symbols decode, and each decodes to a piece whose
/// symbol it is.
pub proof fn lemma_piece_symbol_round_trip(c: char)
    ensures
        Piece::from_symbol(c) is Some <==> is_piece_symbol(c),
        Piece::from_symbol(c) matches Some(p) ==> p.symbol() == c,
{
}

/// Encoding then decoding gives the piece back, for every piece that is
/// White or of one of the six kinds that a letter names. A Black piece of
/// kind `Empty` or `Outside` has the symbol of the White one.
pub proof fn lemma_piece_round_trip(p: Piece)
    requires
        p.color == Color::White || (p.kind != PieceKind::Empty && p.kind != PieceKind::Outside),
    ensures
        Piece::from_symbol(p.symbol()) == Some(p),
{
}

impl Color {
    /// The side that a side-to-move field names: `w` is White, `b` is Black.
    pub open spec fn decode(s: Seq<char>) -> Result<Color, FenError> {
        if s.len() == 1 && s[0] == 'w' {
            Ok(Color::White)
        } else if s.len() == 1 && s[0] == 'b' {
            Ok(Color::Black)
        } else {
            Err(FenError::BadColor)
        }
    }

    /// Reads a side-to-move field. Fails with `BadColor` on anything but
    /// `w` and `b`.
    pub fn new(color: &str) -> (side: Result<Color, FenError>)
        ensures
            side == Self::decode(color@),
    {
        let chars = to_chars(color);
        if chars.len() == 1 && chars[0] == 'w' {
            Ok(Color::White)
        } else if chars.len() == 1 && chars[0] == 'b' {
            Ok(Color::Black)
        } else {
            Err(FenError::BadColor)
        }
    }
}

/// Which of the four castling moves are still allowed.
#[derive(Copy, Clone, PartialEq, Eq, Debug, Structural)]
pub struct Castling {
    pub black_queen: bool,
    pub black_king: bool,
    pub white_queen: bool,
    pub white_king: bool,
}

/// Whether `c` may stand in a castling field.
pub open spec fn is_castle_char(c: char) -> bool {
    c == 'K' || c == 'Q' || c == 'k' || c == 'q' || c == '-'
}

impl Castling {
    /// The rights that a castling field grants: each right whose letter
    /// occurs in it, provided that nothing but `K`, `Q`, `k`, `q` and `-`
    /// occurs.
    pub open spec fn decode(s: Seq<char>) -> Result<Castling, FenError> {
        if forall|i: int| 0 <= i < s.len() ==> is_castle_char(#[trigger] s[i]) {
            Ok(
                Castling {
                    black_queen: s.contains('q'),
                    black_king: s.contains('k'),
                    white_queen: s.contains('Q'),
                    white_king: s.contains('K'),
                },
            )
        } else {
            Err(FenError::BadCastleChar)
        }
    }

    /// Reads a castling field. Fails with `BadCastleChar` if any of its
    /// characters is none of `K`, `Q`, `k`, `q`, `-`; a letter that
    /// occurs twice counts once.
    pub fn new(castling: &str) -> (rights: Result<Castling, FenError>)
        ensures
            rights == Self::decode(castling@),
    {
        let chars = to_chars(castling);
        let mut cast = Castling {
            black_queen: false,
            black_king: false,
            white_queen: false,
            white_king: false,
        };
        let mut i: usize = 0;
        while i < chars.len()
            invariant
                i <= chars.len(),
                chars@ == castling@,
                forall|j: int| 0 <= j < i ==> is_castle_char(#[trigger] chars@[j]),
                cast.black_queen <==> chars@.take(i as int).contains('q'),
                cast.black_king <==> chars@.take(i as int).contains('k'),
                cast.white_queen <==> chars@.take(i as int).contains('Q'),
                cast.white_king <==> chars@.take(i as int).contains('K'),
            decreases chars.len() - i,
        {
            let c = chars[i];
            proof {
                lemma_contains_step(chars@, i as int, 'q');
                lemma_contains_step(chars@, i as int, 'k');
                lemma_contains_step(chars@, i as int, 'Q');
                lemma_contains_step(chars@, i as int, 'K');
            }
            match c {
                'q' => cast.black_queen = true,
                'k' => cast.black_king = true,
                'Q' => cast.white_queen = true,
                'K' => cast.white_king = true,
                '-' => (),
                _ => {
                    return Err(FenError::BadCastleChar);
                },
            }
            i += 1;
        }
        proof {
            assert(chars@.take(i as int) =~= chars@);
        }
        Ok(cast)
    }
}

/// A sequence one longer holds `c` exactly when the shorter one does or
/// the added item is `c`.
proof fn lemma_contains_step(s: Seq<char>, i: int, c: char)
    requires
        0 <= i < s.len(),
    ensures
        s.take(i + 1).contains(c) <==> s.take(i).contains(c) || s[i] == c,
{
    let shorter = s.take(i);
    let longer = s.take(i + 1);
    if shorter.contains(c) {
        let j = shorter.index_of(c);
        assert(longer[j] == c);
    }
    if s[i] == c {
        assert(longer[i] == c);
    }
    if longer.contains(c) {
        let j = longer.index_of(c);
        assert(j < i ==> shorter[j] == c);
    }
}

/// The number of bytes that `s` takes in UTF-8, which is the length that
/// `str::len` reports.
pub open spec fn utf8_len(s: Seq<char>) -> nat {
    encode_utf8(s).len()
}

/// A square of the board by file and rank, both counted from 0 (`x` is the
/// file, `a` first; `y` is the rank, rank 1 first), or the value
/// `(-1, -1)` that stands for no square.
#[derive(Copy, Clone, PartialEq, Eq, Debug, Structural)]
pub struct Coordinate {
    pub x: i8,
    pub y: i8,
}

impl Coordinate {
    /// The value that stands for no square.
    pub open spec fn none() -> Coordinate {
        Coordinate { x: -1i8, y: -1i8 }
    }

    /// Whether this names a square of the board.
    pub open spec fn is_square(self) -> bool {
        0 <= self.x <= 7 && 0 <= self.y <= 7
    }

    /// Every coordinate that the library hands out is a square or `none`.
    pub open spec fn wf(self) -> bool {
        self == Self::none() || self.is_square()
    }

    /// The square that an en-passant field names. `-` names none. Any
    /// other field must be two bytes long, a file letter `a` to `h`
    /// followed by a rank digit `1` to `8`.
    pub open spec fn decode(s: Seq<char>) -> Result<Coordinate, FenError> {
        if s.len() == 1 && s[0] == '-' {
            Ok(Self::none())
        } else if utf8_len(s) != 2 {
            Err(FenError::BadLength)
        } else if !('a' <= s[0] <= 'h') {
            Err(FenError::BadColumn)
        } else if !('1' <= s[1] <= '8') {
            Err(FenError::BadRank)
        } else {
            Ok(Coordinate { x: (s[0] as int - 'a' as int) as i8, y: (s[1] as int - '1' as int) as i8 })
        }
    }

    /// Reads an en-passant field. Fails with `BadLength` if it is not
    /// `-` and not two bytes long, with `BadColumn` if it then does not
    /// start with a file letter, with `BadRank` if it then does not end
    /// with a rank digit.
    pub fn new(input: &str) -> (square: Result<Coordinate, FenError>)
        ensures
            square == Self::decode(input@),
            square matches Ok(c) ==> c.wf(),
    {
        let chars = to_chars(input);
        if chars.len() == 1 && chars[0] == '-' {
            return Ok(Coordinate { x: -1, y: -1 });
        }
        let bytes = input.as_bytes();
        if bytes.len() != 2 {
            return Err(FenError::BadLength);
        }
        proof {
            lemma_two_bytes(chars@);
        }
        let file = chars[0];
        if !('a' <= file && file <= 'h') {
            return Err(FenError::BadColumn);
        }
        let rank = chars[1];
        if !('1' <= rank && rank <= '8') {
            return Err(FenError::BadRank);
        }
        let x: u8 = (file as u8) - ('a' as u8);
        let y: u8 = (rank as u8) - ('1' as u8);
        Ok(Coordinate { x: x as i8, y: y as i8 })
    }
}

/// Every character takes at least one byte in UTF-8, and exactly one if
/// it is no greater than U+007F.
proof fn lemma_scalar_width(c: char)
    ensures
        encode_scalar(c as u32).len() >= 1,
        c <= '\u{7f}' ==> encode_scalar(c as u32).len() == 1,
{
}

/// Text of two bytes is not empty, and if it starts with a one-byte
/// character it is two characters long.
proof fn lemma_two_bytes(s: Seq<char>)
    requires
        utf8_len(s) == 2,
    ensures
        s.len() >= 1,
        s[0] <= '\u{7f}' ==> s.len() == 2,
{
    reveal_with_fuel(encode_utf8, 3);
    if s.len() >= 1 && s[0] <= '\u{7f}' {
        let rest = s.drop_first();
        lemma_scalar_width(s[0]);
        let tail = rest.drop_first();
        lemma_scalar_width(rest[0]);
        if tail.len() > 0 {
            lemma_scalar_width(tail[0]);
            assert(encode_utf8(tail) == encode_scalar(tail[0] as u32) + encode_utf8(
                tail.drop_first(),
            ));
        }
    }
}

/// An eight by eight grid as a sequence of rows.
pub open spec fn grid_view<T>(grid: [[T; 8]; 8]) -> Seq<Seq<T>> {
    Seq::new(8, |r: int| grid[r]@)
}

/// Whether `grid` has eight rows of eight squares.
pub open spec fn is_board<T>(grid: Seq<Seq<T>>) -> bool {
    grid.len() == 8 && forall|r: int| 0 <= r < 8 ==> (#[trigger] grid[r]).len() == 8
}

/// Whether the square in row `r`, column `f` is read before the one in
/// row `row`, column `column`, when a grid is read row by row.
pub open spec fn comes_before(r: int, f: int, row: int, column: int) -> bool {
    r < row || (r == row && f < column)
}

/// Whether every square of `grid` holds a piece symbol.
pub open spec fn all_known(grid: Seq<Seq<char>>) -> bool {
    forall|r: int, f: int|
        0 <= r < 8 && 0 <= f < 8 ==> Piece::from_symbol(#[trigger] grid[r][f]) is Some
}

/// Whether the square in row `row`, column `column` is the first of
/// `grid`, read row by row, that holds no piece symbol.
pub open spec fn is_first_unknown(grid: Seq<Seq<char>>, row: int, column: int) -> bool {
    &&& 0 <= row < 8
    &&& 0 <= column < 8
    &&& Piece::from_symbol(grid[row][column]) is None
    &&& forall|r: int, f: int|
        0 <= r < 8 && 0 <= f < 8 && comes_before(r, f, row, column) ==> Piece::from_symbol(
            #[trigger] grid[r][f],
        ) is Some
}

/// The pieces that the symbols of `grid` name, square by square.
pub open spec fn pieces_of(grid: Seq<Seq<char>>) -> Seq<Seq<Piece>> {
    Seq::new(8, |r: int| Seq::new(8, |f: int| Piece::from_symbol(grid[r][f]).unwrap()))
}

/// The board that a grid of symbols describes, or the first square, read
/// row by row, whose symbol names no piece.
pub open spec fn decode_grid(grid: Seq<Seq<char>>) -> Result<Seq<Seq<Piece>>, FenError> {
    if all_known(grid) {
        Ok(pieces_of(grid))
    } else {
        let (row, column) = choose|row: int, column: int| is_first_unknown(grid, row, column);
        Err(
            FenError::UnknownPiece {
                symbol: grid[row][column],
                row: row as usize,
                column: column as usize,
            },
        )
    }
}

/// The square that row `row`, column `column` of the grid shows: rows
/// run from rank 8 down to rank 1, columns from file `a` to file `h`.
pub open spec fn square_of(row: int, column: int) -> Coordinate {
    Coordinate { x: column as i8, y: (7 - row) as i8 }
}

/// The place of a square in the order in which a grid is read.
pub open spec fn cell_number(c: Coordinate) -> int {
    (7 - c.y) * 8 + c.x
}

/// Whether `list` has an entry for the square `c`.
pub open spec fn lists(list: Seq<(PieceKind, Coordinate)>, c: Coordinate) -> bool {
    exists|k: int| 0 <= k < list.len() && (#[trigger] list[k]).1 == c
}

/// Whether `list` is the index of the occupied squares of `color` among
/// the squares of `grid` that come before row `row`, column `column`:
/// every entry names such a square and the kind on it, every such square
/// has an entry, and the entries stand in the order in which the grid is
/// read, so none twice.
pub open spec fn indexes_up_to(
    grid: Seq<Seq<Piece>>,
    color: Color,
    list: Seq<(PieceKind, Coordinate)>,
    row: int,
    column: int,
) -> bool {
    &&& forall|k: int|
        0 <= k < list.len() ==> {
            let (kind, c) = #[trigger] list[k];
            &&& c.is_square()
            &&& comes_before(7 - c.y, c.x as int, row, column)
            &&& grid[7 - c.y][c.x as int] == (Piece { kind, color })
            &&& grid[7 - c.y][c.x as int].is_occupied()
        }
    &&& forall|r: int, f: int|
        0 <= r < 8 && 0 <= f < 8 && comes_before(r, f, row, column) && (
        #[trigger] grid[r][f]).is_occupied() && grid[r][f].color == color ==> lists(
            list,
            square_of(r, f),
        )
    &&& forall|j: int, k: int|
        0 <= j < k < list.len() ==> cell_number((#[trigger] list[j]).1) < cell_number(
            (#[trigger] list[k]).1,
        )
}

/// Whether `list` is the index of all the occupied squares of `color` on
/// `grid`.
pub open spec fn is_index_of(
    grid: Seq<Seq<Piece>>,
    color: Color,
    list: Seq<(PieceKind, Coordinate)>,
) -> bool {
    indexes_up_to(grid, color, list, 8, 0)
}

/// Only one square can be the first that holds no piece symbol.
proof fn lemma_first_unknown_unique(grid: Seq<Seq<char>>, a: int, b: int, c: int, d: int)
    requires
        is_first_unknown(grid, a, b),
        is_first_unknown(grid, c, d),
    ensures
        a == c && b == d,
{
}

/// An index stays one when the next square is read, is occupied by its
/// colour, and gets an entry at the end.
proof fn lemma_index_push(
    grid: Seq<Seq<Piece>>,
    color: Color,
    list: Seq<(PieceKind, Coordinate)>,
    row: int,
    column: int,
    kind: PieceKind,
)
    requires
        indexes_up_to(grid, color, list, row, column),
        0 <= row < 8,
        0 <= column < 8,
        grid[row][column] == (Piece { kind, color }),
        grid[row][column].is_occupied(),
    ensures
        indexes_up_to(grid, color, list.push((kind, square_of(row, column))), row, column + 1),
{
    let longer = list.push((kind, square_of(row, column)));
    let last = list.len() as int;
    assert forall|r: int, f: int|
        0 <= r < 8 && 0 <= f < 8 && comes_before(r, f, row, column + 1) && (
        #[trigger] grid[r][f]).is_occupied() && grid[r][f].color == color implies lists(
        longer,
        square_of(r, f),
    ) by {
        if comes_before(r, f, row, column) {
            let k = choose|k: int| 0 <= k < list.len() && (#[trigger] list[k]).1 == square_of(r, f);
            assert(longer[k] == list[k]);
        } else {
            assert(longer[last].1 == square_of(r, f));
        }
    }
}

/// No square has two entries in an index.
pub proof fn lemma_index_lists_once(
    grid: Seq<Seq<Piece>>,
    color: Color,
    list: Seq<(PieceKind, Coordinate)>,
    j: int,
    k: int,
)
    requires
        is_index_of(grid, color, list),
        0 <= j < list.len(),
        0 <= k < list.len(),
        list[j].1 == list[k].1,
    ensures
        j == k,
{
}

/// No square is in both indexes of a grid: what stands on it has one
/// colour.
pub proof fn lemma_index_lists_apart(
    grid: Seq<Seq<Piece>>,
    white: Seq<(PieceKind, Coordinate)>,
    black: Seq<(PieceKind, Coordinate)>,
    j: int,
    k: int,
)
    requires
        is_index_of(grid, Color::White, white),
        is_index_of(grid, Color::Black, black),
        0 <= j < white.len(),
        0 <= k < black.len(),
    ensures
        white[j].1 != black[k].1,
{
}

/// A square that is occupied has an entry with its kind in the index of
/// its colour: so a square off the board, which is White, has the entry
/// `(Outside, its square)` in the White index.
pub proof fn lemma_index_lists_occupied(
    grid: Seq<Seq<Piece>>,
    list: Seq<(PieceKind, Coordinate)>,
    row: int,
    column: int,
)
    requires
        is_index_of(grid, grid[row][column].color, list),
        0 <= row < 8,
        0 <= column < 8,
        grid[row][column].kind != PieceKind::Empty,
    ensures
        list.contains((grid[row][column].kind, square_of(row, column))),
{
    let c = square_of(row, column);
    let k = choose|k: int| 0 <= k < list.len() && (#[trigger] list[k]).1 == c;
    assert(list[k] == (grid[row][column].kind, c));
}

/// Where an entry of one index of a grid stands in another: no earlier
/// than in its own.
proof fn lemma_index_place(
    grid: Seq<Seq<Piece>>,
    color: Color,
    a: Seq<(PieceKind, Coordinate)>,
    b: Seq<(PieceKind, Coordinate)>,
    k: int,
) -> (m: int)
    requires
        is_index_of(grid, color, a),
        is_index_of(grid, color, b),
        0 <= k < a.len(),
    ensures
        k <= m < b.len(),
        b[m] == a[k],
    decreases k,
{
    let c = a[k].1;
    let here = square_of(7 - c.y, c.x as int);
    let m = choose|m: int| 0 <= m < b.len() && (#[trigger] b[m]).1 == here;
    if k > 0 {
        lemma_index_place(grid, color, a, b, k - 1);
    }
    m
}

/// A grid has one index for each colour, and no other.
pub proof fn lemma_index_is_unique(
    grid: Seq<Seq<Piece>>,
    color: Color,
    a: Seq<(PieceKind, Coordinate)>,
    b: Seq<(PieceKind, Coordinate)>,
)
    requires
        is_index_of(grid, color, a),
        is_index_of(grid, color, b),
    ensures
        a == b,
{
    if a.len() > 0 {
        lemma_index_place(grid, color, a, b, a.len() - 1);
    }
    if b.len() > 0 {
        lemma_index_place(grid, color, b, a, b.len() - 1);
    }
    assert forall|k: int| 0 <= k < a.len() implies a[k] == b[k] by {
        let m = lemma_index_place(grid, color, a, b, k);
        let back = lemma_index_place(grid, color, b, a, m);
        lemma_index_lists_once(grid, color, a, k, back);
    }
}

/// A grid of piece symbols is what its board shows: decoding every
/// square and encoding it again gives the grid back.
pub proof fn lemma_decoded_grid_shows_its_symbols(grid: Seq<Seq<char>>, r: int, f: int)
    requires
        all_known(grid),
        0 <= r < 8,
        0 <= f < 8,
    ensures
        decode_grid(grid) matches Ok(board) && is_board(board) && board[r][f].symbol()
            == grid[r][f],
{
    lemma_piece_symbol_round_trip(grid[r][f]);
}

/// The board: an eight by eight grid of pieces, and for each colour the
/// list of the squares that it occupies, each with the kind on it. Every
/// square whose kind is not `Empty` is occupied, by the colour of its
/// piece; a square off the board, written `#`, is White.
#[derive(Clone, Debug)]
pub struct PieceArray {
    flat: [[Piece; 8]; 8],
    white: Vec<(PieceKind, Coordinate)>,
    black: Vec<(PieceKind, Coordinate)>,
}

impl View for PieceArray {
    type V = Seq<Seq<Piece>>;

    /// The grid, row by row: row 0 is rank 8, column 0 is file `a`.
    closed spec fn view(&self) -> Seq<Seq<Piece>> {
        grid_view(self.flat)
    }
}

impl PieceArray {
    /// The squares that White occupies, each with the kind on it.
    pub closed spec fn white(&self) -> Seq<(PieceKind, Coordinate)> {
        self.white@
    }

    /// The squares that Black occupies, each with the kind on it.
    pub closed spec fn black(&self) -> Seq<(PieceKind, Coordinate)> {
        self.black@
    }

    /// The grid is eight by eight, and the two lists index it: every
    /// square whose kind is not `Empty` stands exactly once, with its
    /// kind, in the list of its colour, and every entry of a list names
    /// such a square.
    pub open spec fn wf(&self) -> bool {
        &&& is_board(self@)
        &&& is_index_of(self@, Color::White, self.white())
        &&& is_index_of(self@, Color::Black, self.black())
    }

    /// Builds the board that a grid of piece symbols describes. Fails at
    /// the first square, read row by row, whose symbol names no piece.
    pub fn new(array: [[char; 8]; 8]) -> (board: Result<PieceArray, FenError>)
        ensures
            match decode_grid(grid_view(array)) {
                Ok(squares) => board matches Ok(b) && b@ == squares && b.wf(),
                Err(e) => board matches Err(x) && x == e,
            },
    {
        let ghost source = grid_view(array);
        let ghost target = pieces_of(source);
        let mut state = [[Piece { kind: PieceKind::Empty, color: Color::White }; 8]; 8];
        let mut black: Vec<(PieceKind, Coordinate)> = Vec::new();
        let mut white: Vec<(PieceKind, Coordinate)> = Vec::new();
        let mut i: usize = 0;
        while i < 8
            invariant
                i <= 8,
                source == grid_view(array),
                target == pieces_of(source),
                forall|r: int, f: int|
                    0 <= r < i && 0 <= f < 8 ==> Piece::from_symbol(#[trigger] source[r][f])
                        is Some,
                forall|r: int| 0 <= r < i ==> (#[trigger] state[r])@ == target[r],
                indexes_up_to(target, Color::White, white@, i as int, 0),
                indexes_up_to(target, Color::Black, black@, i as int, 0),
            decreases 8 - i,
        {
            let mut row = [Piece { kind: PieceKind::Empty, color: Color::White }; 8];
            let mut j: usize = 0;
            while j < 8
                invariant
                    i < 8,
                    j <= 8,
                    source == grid_view(array),
                    target == pieces_of(source),
                    forall|r: int, f: int|
                        0 <= r < 8 && 0 <= f < 8 && comes_before(r, f, i as int, j as int)
                            ==> Piece::from_symbol(#[trigger] source[r][f]) is Some,
                    forall|f: int| 0 <= f < j ==> #[trigger] row[f] == target[i as int][f],
                    indexes_up_to(target, Color::White, white@, i as int, j as int),
                    indexes_up_to(target, Color::Black, black@, i as int, j as int),
                decreases 8 - j,
            {
                let c = array[i][j];
                match Piece::new(c) {
                    Some(piece) => {
                        row[j] = piece;
                        let here = Coordinate { x: j as i8, y: (7 - i) as i8 };
                        if piece.kind != PieceKind::Empty {
                            let ghost (row_of, column_of) = (i as int, j as int);
                            match piece.color {
                                Color::Black => {
                                    proof {
                                        lemma_index_push(
                                            target,
                                            Color::Black,
                                            black@,
                                            row_of,
                                            column_of,
                                            piece.kind,
                                        );
                                    }
                                    black.push((piece.kind, here));
                                },
                                Color::White => {
                                    proof {
                                        lemma_index_push(
                                            target,
                                            Color::White,
                                            white@,
                                            row_of,
                                            column_of,
                                            piece.kind,
                                        );
                                    }
                                    white.push((piece.kind, here));
                                },
                            }
                        }
                    },
                    None => {
                        proof {
                            assert(is_first_unknown(source, i as int, j as int));
                            let (a, b) = choose|a: int, b: int| is_first_unknown(source, a, b);
                            lemma_first_unknown_unique(source, a, b, i as int, j as int);
                        }
                        return Err(FenError::UnknownPiece { symbol: c, row: i, column: j });
                    },
                }
                j += 1;
            }
            state[i] = row;
            i += 1;
        }
        Ok(PieceArray { flat: state, white, black })
    }

    /// The piece in row `row`, column `column` of the grid.
    pub fn get(&self, row: usize, column: usize) -> (piece: Piece)
        requires
            row < 8,
            column < 8,
        ensures
            piece == self@[row as int][column as int],
    {
        self.flat[row][column]
    }

    /// The symbols of the pieces on the grid, square by square.
    pub fn symbols(&self) -> (grid: [[char; 8]; 8])
        ensures
            forall|r: int, f: int|
                0 <= r < 8 && 0 <= f < 8 ==> #[trigger] grid[r][f] == self@[r][f].symbol(),
    {
        let mut grid: [[char; 8]; 8] = [['.'; 8]; 8];
        let mut i: usize = 0;
        while i < 8
            invariant
                i <= 8,
                forall|r: int, f: int|
                    0 <= r < i && 0 <= f < 8 ==> #[trigger] grid[r][f] == self@[r][f].symbol(),
            decreases 8 - i,
        {
            let mut row: [char; 8] = ['.'; 8];
            let mut j: usize = 0;
            while j < 8
                invariant
                    i < 8,
                    j <= 8,
                    forall|f: int| 0 <= f < j ==> #[trigger] row[f] == self@[i as int][f].symbol(),
                decreases 8 - j,
            {
                row[j] = self.flat[i][j].to_char();
                j += 1;
            }
            grid[i] = row;
            i += 1;
        }
        grid
    }

    /// The squares that White occupies, each with the kind on it, in the
    /// order of the grid.
    pub fn white_pieces(&self) -> (pieces: &Vec<(PieceKind, Coordinate)>)
        ensures
            pieces@ == self.white(),
    {
        &self.white
    }

    /// The squares that Black occupies, each with the kind on it, in the
    /// order of the grid.
    pub fn black_pieces(&self) -> (pieces: &Vec<(PieceKind, Coordinate)>)
        ensures
            pieces@ == self.black(),
    {
        &self.black
    }
}

/// A chess position: the board and whose move it is, with what the rules
/// need to know of the past.
#[derive(Clone, Debug)]
pub struct Position {
    pub board: PieceArray,
    pub active_color: Color,
    pub castling: Castling,
    pub enpassant: Coordinate,
    pub halfmove: i32,
    pub fullmove: i32,
}

/// What a position holds, the board as its grid.
pub struct PositionView {
    pub board: Seq<Seq<Piece>>,
    pub active_color: Color,
    pub castling: Castling,
    pub enpassant: Coordinate,
    pub halfmove: i32,
    pub fullmove: i32,
}

impl View for Position {
    type V = PositionView;

    open spec fn view(&self) -> PositionView {
        PositionView {
            board: self.board@,
            active_color: self.active_color,
            castling: self.castling,
            enpassant: self.enpassant,
            halfmove: self.halfmove,
            fullmove: self.fullmove,
        }
    }
}

} // verus!
