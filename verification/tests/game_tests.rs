use chess_analyzer::game::{Board, Color, GameState, Move, Piece, PieceType};

fn piece(color: Color, piece_type: PieceType) -> Option<Piece> {
    Some(Piece { color, piece_type })
}

fn empty_board() -> Board {
    [[None; 14]; 14]
}

fn mv(from: (usize, usize), to: (usize, usize), piece: PieceType, captured: Option<Piece>, promotion: Option<PieceType>) -> Move {
    Move { from, to, piece, captured, promotion }
}

#[test]
fn color_next_cycles_through_all_sides() {
    assert_eq!(Color::Red.next(), Color::Blue);
    assert_eq!(Color::Blue.next(), Color::Yellow);
    assert_eq!(Color::Yellow.next(), Color::Green);
    assert_eq!(Color::Green.next(), Color::Red);
    for c in [Color::Red, Color::Blue, Color::Yellow, Color::Green] {
        assert_ne!(c.next(), c);
        assert_eq!(c.next().next().next().next(), c);
    }
}

#[test]
fn valid_squares_exclude_corners_and_outside() {
    assert!(GameState::is_valid_square(3, 0));
    assert!(GameState::is_valid_square(0, 3));
    assert!(GameState::is_valid_square(7, 7));
    assert!(GameState::is_valid_square(13, 10));
    assert!(!GameState::is_valid_square(0, 0));
    assert!(!GameState::is_valid_square(2, 2));
    assert!(!GameState::is_valid_square(11, 12));
    assert!(!GameState::is_valid_square(13, 13));
    assert!(!GameState::is_valid_square(-1, 5));
    assert!(!GameState::is_valid_square(5, 14));
    assert!(!GameState::is_valid_square(14, 5));
    assert!(!GameState::is_valid_square(5, -1));
}

#[test]
fn initial_layout() {
    let g = GameState::new();
    assert_eq!(g.turn, Color::Red);
    assert_eq!(g.board[13][7], piece(Color::Red, PieceType::King));
    assert_eq!(g.board[13][6], piece(Color::Red, PieceType::Queen));
    assert_eq!(g.board[12][3], piece(Color::Red, PieceType::Pawn));
    assert_eq!(g.board[0][7], piece(Color::Yellow, PieceType::King));
    assert_eq!(g.board[1][10], piece(Color::Yellow, PieceType::Pawn));
    assert_eq!(g.board[6][0], piece(Color::Blue, PieceType::King));
    assert_eq!(g.board[7][0], piece(Color::Blue, PieceType::Queen));
    assert_eq!(g.board[3][1], piece(Color::Blue, PieceType::Pawn));
    assert_eq!(g.board[6][13], piece(Color::Green, PieceType::King));
    assert_eq!(g.board[10][13], piece(Color::Green, PieceType::Rook));
    assert_eq!(g.board[4][12], piece(Color::Green, PieceType::Pawn));
    assert_eq!(g.board[7][7], None);
    assert_eq!(g.board[0][0], None);
    let mut count = 0;
    for y in 0..14 {
        for x in 0..14 {
            if g.board[y][x].is_some() {
                count += 1;
                assert!(GameState::is_valid_square(x as i32, y as i32));
            }
        }
    }
    assert_eq!(count, 64);
}

#[test]
fn initial_moves_for_every_side() {
    let mut g = GameState::new();
    for c in [Color::Red, Color::Blue, Color::Yellow, Color::Green] {
        g.turn = c;
        assert_eq!(g.generate_pseudo_legal_moves().len(), 20);
        assert_eq!(g.generate_legal_moves().len(), 20);
    }
}

#[test]
fn initial_moves_come_in_board_order() {
    let g = GameState::new();
    let moves = g.generate_legal_moves();
    assert_eq!(moves[0], mv((3, 12), (3, 11), PieceType::Pawn, None, None));
    assert_eq!(moves[1], mv((3, 12), (3, 10), PieceType::Pawn, None, None));
    assert_eq!(moves[2], mv((4, 12), (4, 11), PieceType::Pawn, None, None));
    assert_eq!(moves[16], mv((4, 13), (5, 11), PieceType::Knight, None, None));
    assert_eq!(moves[17], mv((4, 13), (3, 11), PieceType::Knight, None, None));
    assert_eq!(moves[18], mv((9, 13), (10, 11), PieceType::Knight, None, None));
    assert_eq!(moves[19], mv((9, 13), (8, 11), PieceType::Knight, None, None));
}

#[test]
fn king_may_not_stay_on_attacked_line() {
    let mut board = empty_board();
    board[13][7] = piece(Color::Red, PieceType::King);
    board[5][7] = piece(Color::Blue, PieceType::Rook);
    let g = GameState { board, turn: Color::Red };
    let pseudo = g.generate_pseudo_legal_moves();
    assert_eq!(pseudo.len(), 5);
    assert_eq!(pseudo[2], mv((7, 13), (7, 12), PieceType::King, None, None));
    let legal = g.generate_legal_moves();
    assert_eq!(
        legal,
        vec![
            mv((7, 13), (6, 12), PieceType::King, None, None),
            mv((7, 13), (6, 13), PieceType::King, None, None),
            mv((7, 13), (8, 12), PieceType::King, None, None),
            mv((7, 13), (8, 13), PieceType::King, None, None),
        ]
    );
}

#[test]
fn pinned_rook_keeps_to_its_line() {
    let mut board = empty_board();
    board[13][7] = piece(Color::Red, PieceType::King);
    board[10][7] = piece(Color::Red, PieceType::Rook);
    board[3][7] = piece(Color::Blue, PieceType::Rook);
    let g = GameState { board, turn: Color::Red };
    assert_eq!(g.generate_pseudo_legal_moves().len(), 27);
    let legal = g.generate_legal_moves();
    assert_eq!(legal.len(), 14);
    for m in legal.iter() {
        if m.piece == PieceType::Rook {
            assert_eq!(m.to.0, 7);
        }
    }
    assert_eq!(legal[8], mv((7, 10), (7, 3), PieceType::Rook, piece(Color::Blue, PieceType::Rook), None));
}

#[test]
fn pawn_promotes_on_far_line() {
    let mut board = empty_board();
    board[4][5] = piece(Color::Red, PieceType::Pawn);
    board[3][6] = piece(Color::Yellow, PieceType::Knight);
    board[13][7] = piece(Color::Red, PieceType::King);
    let g = GameState { board, turn: Color::Red };
    let moves = g.generate_legal_moves();
    assert_eq!(moves.len(), 7);
    assert_eq!(moves[0], mv((5, 4), (5, 3), PieceType::Pawn, None, Some(PieceType::Queen)));
    assert_eq!(
        moves[1],
        mv((5, 4), (6, 3), PieceType::Pawn, piece(Color::Yellow, PieceType::Knight), Some(PieceType::Queen))
    );
}

#[test]
fn rook_slides_until_blocked() {
    let mut board = empty_board();
    board[7][7] = piece(Color::Red, PieceType::Rook);
    board[5][7] = piece(Color::Yellow, PieceType::Pawn);
    board[7][9] = piece(Color::Red, PieceType::Pawn);
    let g = GameState { board, turn: Color::Red };
    let moves = g.generate_pseudo_legal_moves();
    assert_eq!(moves.len(), 17);
    assert_eq!(moves[0], mv((7, 7), (8, 7), PieceType::Rook, None, None));
    assert_eq!(moves[7], mv((7, 7), (0, 7), PieceType::Rook, None, None));
    assert_eq!(moves[13], mv((7, 7), (7, 13), PieceType::Rook, None, None));
    assert_eq!(moves[15], mv((7, 7), (7, 5), PieceType::Rook, piece(Color::Yellow, PieceType::Pawn), None));
    assert_eq!(moves[16], mv((9, 7), (9, 6), PieceType::Pawn, None, None));
    // Without a king, nothing is ever in check.
    assert_eq!(g.generate_legal_moves(), moves);
}

#[test]
fn blue_pawn_pushes_and_captures_sideways() {
    let mut board = empty_board();
    board[6][0] = piece(Color::Blue, PieceType::King);
    board[6][1] = piece(Color::Blue, PieceType::Pawn);
    board[5][2] = piece(Color::Green, PieceType::Bishop);
    let g = GameState { board, turn: Color::Blue };
    let moves = g.generate_legal_moves();
    assert_eq!(moves.len(), 7);
    assert_eq!(moves[4], mv((1, 6), (2, 6), PieceType::Pawn, None, None));
    assert_eq!(moves[5], mv((1, 6), (3, 6), PieceType::Pawn, None, None));
    assert_eq!(moves[6], mv((1, 6), (2, 5), PieceType::Pawn, piece(Color::Green, PieceType::Bishop), None));
}

#[test]
fn knight_jumps_in_order() {
    let mut board = empty_board();
    board[8][8] = piece(Color::Yellow, PieceType::Knight);
    board[10][9] = piece(Color::Red, PieceType::Pawn);
    let g = GameState { board, turn: Color::Yellow };
    let moves = g.generate_pseudo_legal_moves();
    assert_eq!(
        moves,
        vec![
            mv((8, 8), (9, 10), PieceType::Knight, piece(Color::Red, PieceType::Pawn), None),
            mv((8, 8), (9, 6), PieceType::Knight, None, None),
            mv((8, 8), (7, 10), PieceType::Knight, None, None),
            mv((8, 8), (7, 6), PieceType::Knight, None, None),
            mv((8, 8), (10, 9), PieceType::Knight, None, None),
            mv((8, 8), (10, 7), PieceType::Knight, None, None),
            mv((8, 8), (6, 9), PieceType::Knight, None, None),
            mv((8, 8), (6, 7), PieceType::Knight, None, None),
        ]
    );
}

#[test]
fn king_may_not_capture_a_defended_piece() {
    let mut board = empty_board();
    board[13][7] = piece(Color::Red, PieceType::King);
    board[12][7] = piece(Color::Blue, PieceType::Knight);
    board[5][7] = piece(Color::Blue, PieceType::Rook);
    let g = GameState { board, turn: Color::Red };
    let pseudo = g.generate_pseudo_legal_moves();
    assert_eq!(pseudo[2], mv((7, 13), (7, 12), PieceType::King, piece(Color::Blue, PieceType::Knight), None));
    let legal = g.generate_legal_moves();
    assert_eq!(
        legal,
        vec![
            mv((7, 13), (6, 12), PieceType::King, None, None),
            mv((7, 13), (6, 13), PieceType::King, None, None),
            mv((7, 13), (8, 12), PieceType::King, None, None),
            mv((7, 13), (8, 13), PieceType::King, None, None),
        ]
    );
}
