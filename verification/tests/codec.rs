use fen_parser::board::{Castling, Color, Coordinate, Piece, PieceKind};
use fen_parser::error::FenError;

const KINDS: [PieceKind; 8] = [
    PieceKind::Empty,
    PieceKind::Pawn,
    PieceKind::King,
    PieceKind::Queen,
    PieceKind::Knight,
    PieceKind::Bishop,
    PieceKind::Rook,
    PieceKind::Outside,
];

#[test]
fn kind_symbols() {
    assert_eq!(PieceKind::Empty.to_char(), '.');
    assert_eq!(PieceKind::Pawn.to_char(), 'P');
    assert_eq!(PieceKind::King.to_char(), 'K');
    assert_eq!(PieceKind::Queen.to_char(), 'Q');
    assert_eq!(PieceKind::Bishop.to_char(), 'B');
    assert_eq!(PieceKind::Knight.to_char(), 'N');
    assert_eq!(PieceKind::Rook.to_char(), 'R');
    assert_eq!(PieceKind::Outside.to_char(), '#');
}

#[test]
fn kind_decodes_its_own_symbol() {
    for kind in KINDS {
        assert_eq!(PieceKind::new(kind.to_char()), Some(kind));
    }
}

#[test]
fn kind_decoding_is_case_sensitive() {
    for c in ['p', 'k', 'q', 'b', 'n', 'r', 'x', 'X', ' ', '1', '/', '\u{e9}'] {
        assert_eq!(PieceKind::new(c), None);
    }
}

#[test]
fn kind_decodes_nothing_else() {
    let mut known = 0;
    for c in '\0'..=char::MAX {
        if let Some(kind) = PieceKind::new(c) {
            assert_eq!(kind.to_char(), c);
            known += 1;
        }
    }
    assert_eq!(known, 8);
}

#[test]
fn piece_from_letters() {
    assert_eq!(Piece::new('P'), Some(Piece { kind: PieceKind::Pawn, color: Color::White }));
    assert_eq!(Piece::new('p'), Some(Piece { kind: PieceKind::Pawn, color: Color::Black }));
    assert_eq!(Piece::new('n'), Some(Piece { kind: PieceKind::Knight, color: Color::Black }));
    assert_eq!(Piece::new('Q'), Some(Piece { kind: PieceKind::Queen, color: Color::White }));
    assert_eq!(Piece::new('.'), Some(Piece { kind: PieceKind::Empty, color: Color::White }));
    assert_eq!(Piece::new('#'), Some(Piece { kind: PieceKind::Outside, color: Color::White }));
    assert_eq!(Piece::new('x'), None);
    assert_eq!(Piece::new('X'), None);
    assert_eq!(Piece::new('1'), None);
}

#[test]
fn piece_round_trip_over_the_vocabulary() {
    for c in ".PKQBNRpkqbnr#".chars() {
        let piece = Piece::new(c).unwrap();
        assert_eq!(piece.to_char(), c);
    }
}

#[test]
fn piece_encodes_black_in_small_letters() {
    for kind in KINDS {
        let white = Piece { kind, color: Color::White };
        let black = Piece { kind, color: Color::Black };
        assert_eq!(white.to_char(), kind.to_char());
        assert_eq!(black.to_char(), kind.to_char().to_ascii_lowercase());
    }
    assert_eq!(Piece { kind: PieceKind::Empty, color: Color::Black }.to_char(), '.');
    assert_eq!(Piece { kind: PieceKind::Outside, color: Color::Black }.to_char(), '#');
}

#[test]
fn piece_decoding_agrees_with_unicode_case_rules() {
    // Decoding by the case rules of the whole character set gives the
    // same piece for every character there is.
    for c in '\0'..=char::MAX {
        let expected = if c.is_lowercase() {
            c.to_uppercase()
                .next()
                .and_then(PieceKind::new)
                .map(|kind| Piece { kind, color: Color::Black })
        } else {
            PieceKind::new(c).map(|kind| Piece { kind, color: Color::White })
        };
        assert_eq!(Piece::new(c), expected, "at {:?}", c);
    }
}

#[test]
fn piece_decodes_fourteen_characters() {
    let decoded: String = ('\0'..=char::MAX).filter(|&c| Piece::new(c).is_some()).collect();
    assert_eq!(decoded, "#.BKNPQRbknpqr");
}

#[test]
fn color_of_side_to_move() {
    assert_eq!(Color::new("w"), Ok(Color::White));
    assert_eq!(Color::new("b"), Ok(Color::Black));
    assert_eq!(Color::new("W"), Err(FenError::BadColor));
    assert_eq!(Color::new(""), Err(FenError::BadColor));
    assert_eq!(Color::new("wb"), Err(FenError::BadColor));
    assert_eq!(Color::new("white"), Err(FenError::BadColor));
    assert_eq!(Color::new("-"), Err(FenError::BadColor));
}

#[test]
fn castling_all_rights() {
    assert_eq!(
        Castling::new("KQkq"),
        Ok(Castling { black_queen: true, black_king: true, white_queen: true, white_king: true })
    );
}

#[test]
fn castling_no_rights() {
    let none =
        Castling { black_queen: false, black_king: false, white_queen: false, white_king: false };
    assert_eq!(Castling::new("-"), Ok(none));
    assert_eq!(Castling::new(""), Ok(none));
    assert_eq!(Castling::new("---"), Ok(none));
}

#[test]
fn castling_bad_character() {
    assert_eq!(Castling::new("X"), Err(FenError::BadCastleChar));
    assert_eq!(Castling::new("KQx"), Err(FenError::BadCastleChar));
    assert_eq!(Castling::new("xKQ"), Err(FenError::BadCastleChar));
    assert_eq!(Castling::new("K Q"), Err(FenError::BadCastleChar));
}

#[test]
fn castling_single_rights() {
    let none =
        Castling { black_queen: false, black_king: false, white_queen: false, white_king: false };
    assert_eq!(Castling::new("K"), Ok(Castling { white_king: true, ..none }));
    assert_eq!(Castling::new("Q"), Ok(Castling { white_queen: true, ..none }));
    assert_eq!(Castling::new("k"), Ok(Castling { black_king: true, ..none }));
    assert_eq!(Castling::new("q"), Ok(Castling { black_queen: true, ..none }));
}

#[test]
fn castling_duplicates_and_dashes_anywhere() {
    let none =
        Castling { black_queen: false, black_king: false, white_queen: false, white_king: false };
    assert_eq!(Castling::new("KK"), Ok(Castling { white_king: true, ..none }));
    assert_eq!(Castling::new("-K-q-"), Ok(Castling { white_king: true, black_queen: true, ..none }));
    assert_eq!(Castling::new("qkQK"), Castling::new("KQkq"));
}

#[test]
fn coordinate_none() {
    assert_eq!(Coordinate::new("-"), Ok(Coordinate { x: -1, y: -1 }));
}

#[test]
fn coordinate_e4() {
    assert_eq!(Coordinate::new("e4"), Ok(Coordinate { x: 4, y: 3 }));
}

#[test]
fn coordinate_corners() {
    assert_eq!(Coordinate::new("a1"), Ok(Coordinate { x: 0, y: 0 }));
    assert_eq!(Coordinate::new("h8"), Ok(Coordinate { x: 7, y: 7 }));
    assert_eq!(Coordinate::new("a8"), Ok(Coordinate { x: 0, y: 7 }));
    assert_eq!(Coordinate::new("h1"), Ok(Coordinate { x: 7, y: 0 }));
}

#[test]
fn coordinate_every_square() {
    for (x, file) in "abcdefgh".chars().enumerate() {
        for (y, rank) in "12345678".chars().enumerate() {
            let text = format!("{}{}", file, rank);
            assert_eq!(Coordinate::new(&text), Ok(Coordinate { x: x as i8, y: y as i8 }));
        }
    }
}

#[test]
fn coordinate_bad_column() {
    assert_eq!(Coordinate::new("i9"), Err(FenError::BadColumn));
    assert_eq!(Coordinate::new("i4"), Err(FenError::BadColumn));
    assert_eq!(Coordinate::new("E4"), Err(FenError::BadColumn));
    assert_eq!(Coordinate::new("44"), Err(FenError::BadColumn));
    assert_eq!(Coordinate::new("--"), Err(FenError::BadColumn));
    // One character of two bytes has the right length and no file letter.
    assert_eq!(Coordinate::new("\u{e9}"), Err(FenError::BadColumn));
}

#[test]
fn coordinate_bad_length() {
    assert_eq!(Coordinate::new("e"), Err(FenError::BadLength));
    assert_eq!(Coordinate::new(""), Err(FenError::BadLength));
    assert_eq!(Coordinate::new("e44"), Err(FenError::BadLength));
    assert_eq!(Coordinate::new("i"), Err(FenError::BadLength));
    // Two characters, but three bytes.
    assert_eq!(Coordinate::new("e\u{e9}"), Err(FenError::BadLength));
}

#[test]
fn coordinate_bad_rank() {
    assert_eq!(Coordinate::new("e0"), Err(FenError::BadRank));
    assert_eq!(Coordinate::new("e9"), Err(FenError::BadRank));
    assert_eq!(Coordinate::new("ee"), Err(FenError::BadRank));
    assert_eq!(Coordinate::new("a-"), Err(FenError::BadRank));
}

#[test]
fn error_messages() {
    assert_eq!(FenError::WrongFieldCount.message(), "bad fen number field");
    assert_eq!(FenError::MalformedRank.message(), "bad piece placement");
    assert_eq!(
        FenError::UnknownPiece { symbol: 'x', row: 0, column: 0 }.message(),
        "unknown piece"
    );
    assert_eq!(FenError::BadColor.message(), "bad color");
    assert_eq!(FenError::BadCastleChar.message(), "bad castle");
    assert_eq!(FenError::BadLength.message(), "bad coordinate length");
    assert_eq!(FenError::BadColumn.message(), "bad coordinate column");
    assert_eq!(FenError::BadRank.message(), "bad coordinate rank");
    assert_eq!(FenError::BadHalfmove.message(), "bad half move");
    assert_eq!(FenError::BadFullmove.message(), "bad full move");
}
