use vstd::prelude::*;

verus! {

broadcast use vstd::array::group_array_axioms;

/// The four sides of a four-player chess game, in turn order.
#[derive(Clone, Copy, PartialEq, Eq, Debug, Hash, Structural)]
pub enum Color {
    Red,
    Blue,
    Yellow,
    Green,
}

/// The kinds of chess pieces.
#[derive(Clone, Copy, PartialEq, Eq, Debug, Structural)]
pub enum PieceType {
    Pawn,
    Knight,
    Bishop,
    Rook,
    Queen,
    King,
}

/// A piece on the board: its owner and its kind.
#[derive(Clone, Copy, PartialEq, Eq, Debug, Structural)]
pub struct Piece {
    pub color: Color,
    pub piece_type: PieceType,
}

/// A 14x14 board indexed as `board[y][x]`; the 3x3 corners are not part of the game.
pub type Board = [[Option<Piece>; 14]; 14];

/// A move: origin and destination as `(x, y)`, the moving piece's kind, what stands on
/// the destination (for a capture), and the kind a pawn turns into on promotion.
#[derive(Clone, Copy, PartialEq, Eq, Debug)]
pub struct Move {
    pub from: (usize, usize),
    pub to: (usize, usize),
    pub piece: PieceType,
    pub captured: Option<Piece>,
    pub promotion: Option<PieceType>,
}

/// A position: the board and the side to move.
pub struct GameState {
    pub board: Board,
    pub turn: Color,
}

/// The mathematical board: row `y`, then column `x`.
pub type Grid = Seq<Seq<Option<Piece>>>;

/// The board as a grid of rows.
pub open spec fn grid(b: Board) -> Grid {
    b@.map_values(|row: [Option<Piece>; 14]| row@)
}

/// What stands on square `(x, y)` of a grid.
pub open spec fn at(g: Grid, x: int, y: int) -> Option<Piece> {
    g[y][x]
}

/// The side that moves after `c`.
pub open spec fn next_color(c: Color) -> Color {
    match c {
        Color::Red => Color::Blue,
        Color::Blue => Color::Yellow,
        Color::Yellow => Color::Green,
        Color::Green => Color::Red,
    }
}

/// A square belongs to the game: inside the 14x14 board and outside its four 3x3 corners.
pub open spec fn valid_square(x: int, y: int) -> bool {
    &&& 0 <= x <= 13
    &&& 0 <= y <= 13
    &&& !((x < 3 || x > 10) && (y < 3 || y > 10))
}

/// The direction in which the pawns of `c` advance, as `(dx, dy)`.
pub open spec fn forward(c: Color) -> (i32, i32) {
    match c {
        Color::Red => (0i32, -1i32),
        Color::Yellow => (0i32, 1i32),
        Color::Blue => (1i32, 0i32),
        Color::Green => (-1i32, 0i32),
    }
}

/// The squares on which a pawn of `c` promotes: the far side of the central cross.
pub open spec fn promotion_square(x: int, y: int, c: Color) -> bool {
    match c {
        Color::Red => y == 3,
        Color::Yellow => y == 10,
        Color::Blue => x == 10,
        Color::Green => x == 3,
    }
}

/// `(dx, dy)` is one of the eight unit steps of a king.
pub open spec fn is_unit_dir(dx: int, dy: int) -> bool {
    &&& -1 <= dx <= 1
    &&& -1 <= dy <= 1
    &&& (dx != 0 || dy != 0)
}

/// How far a coordinate `c` moving with sign `d` still is from leaving the 14-wide board.
pub open spec fn room(c: int, d: int) -> int {
    if d > 0 && c < 14 {
        14 - c
    } else if d < 0 && c >= 0 {
        c + 1
    } else {
        0
    }
}

/// `v` fits in an `i32`.
pub open spec fn fits_i32(v: int) -> bool {
    i32::MIN <= v <= i32::MAX
}

/// A piece sliding in direction `(dx, dy)`, now looking at `(nx, ny)`, reaches `(x, y)`:
/// it walks over valid, empty squares and meets `(x, y)` before any occupied square.
pub open spec fn ray_attacks(g: Grid, nx: int, ny: int, dx: int, dy: int, x: int, y: int) -> bool
    decreases room(nx, dx) + room(ny, dy),
{
    if !is_unit_dir(dx, dy) || !valid_square(nx, ny) {
        false
    } else if nx == x && ny == y {
        true
    } else if at(g, nx, ny) is Some {
        false
    } else {
        ray_attacks(g, nx + dx, ny + dy, dx, dy, x, y)
    }
}

/// The jumps of a knight, in the order in which they are tried.
pub open spec fn knight_offsets() -> Seq<(i32, i32)> {
    seq![(1i32, 2i32), (1i32, -2i32), (-1i32, 2i32), (-1i32, -2i32), (2i32, 1i32), (2i32, -1i32), (-2i32, 1i32), (-2i32, -1i32)]
}

/// The steps of a king, in the order in which they are tried.
pub open spec fn king_offsets() -> Seq<(i32, i32)> {
    seq![(-1i32, -1i32), (-1i32, 0i32), (-1i32, 1i32), (0i32, -1i32), (0i32, 1i32), (1i32, -1i32), (1i32, 0i32), (1i32, 1i32)]
}

/// The diagonal directions, in the order in which they are tried.
pub open spec fn bishop_dirs() -> Seq<(i32, i32)> {
    seq![(1i32, 1i32), (1i32, -1i32), (-1i32, 1i32), (-1i32, -1i32)]
}

/// The orthogonal directions, in the order in which they are tried.
pub open spec fn rook_dirs() -> Seq<(i32, i32)> {
    seq![(1i32, 0i32), (-1i32, 0i32), (0i32, 1i32), (0i32, -1i32)]
}

/// The directions of a queen: the diagonals, then the orthogonals.
pub open spec fn queen_dirs() -> Seq<(i32, i32)> {
    bishop_dirs() + rook_dirs()
}

/// A piece on `(fx, fy)` that jumps by one of `offs` lands on the valid square `(x, y)`.
pub open spec fn jump_attacks(fx: int, fy: int, offs: Seq<(i32, i32)>, x: int, y: int) -> bool {
    exists|i: int|
        0 <= i < offs.len() && fx + (#[trigger] offs[i]).0 == x && fy + offs[i].1 == y
            && valid_square(x, y)
}

/// A piece on `(fx, fy)` that slides along one of `dirs` reaches `(x, y)`.
pub open spec fn slide_attacks(g: Grid, fx: int, fy: int, dirs: Seq<(i32, i32)>, x: int, y: int) -> bool {
    exists|i: int|
        0 <= i < dirs.len() && ray_attacks(
            g,
            fx + (#[trigger] dirs[i]).0,
            fy + dirs[i].1,
            dirs[i].0 as int,
            dirs[i].1 as int,
            x,
            y,
        )
}

/// A pawn of `c` on `(fx, fy)` strikes `(x, y)`: one of the two squares diagonally ahead.
pub open spec fn pawn_attacks(fx: int, fy: int, c: Color, x: int, y: int) -> bool {
    let f = forward(c);
    ||| fx + f.0 + f.1 == x && fy + f.1 - f.0 == y
    ||| fx + f.0 - f.1 == x && fy + f.1 + f.0 == y
}

/// A piece of kind `pt` and side `c` on `(fx, fy)` strikes `(x, y)`.
pub open spec fn piece_attacks(g: Grid, pt: PieceType, c: Color, fx: int, fy: int, x: int, y: int) -> bool {
    match pt {
        PieceType::Pawn => pawn_attacks(fx, fy, c, x, y),
        PieceType::Knight => jump_attacks(fx, fy, knight_offsets(), x, y),
        PieceType::Bishop => slide_attacks(g, fx, fy, bishop_dirs(), x, y),
        PieceType::Rook => slide_attacks(g, fx, fy, rook_dirs(), x, y),
        PieceType::Queen => slide_attacks(g, fx, fy, queen_dirs(), x, y),
        PieceType::King => jump_attacks(fx, fy, king_offsets(), x, y),
    }
}

/// The piece on `(fx, fy)` belongs to `c` and strikes `(x, y)`.
pub open spec fn attacks_from(g: Grid, c: Color, fx: int, fy: int, x: int, y: int) -> bool {
    match at(g, fx, fy) {
        Some(p) => p.color == c && piece_attacks(g, p.piece_type, c, fx, fy, x, y),
        None => false,
    }
}

/// Some piece of `c` anywhere on the 14x14 board strikes `(x, y)`.
pub open spec fn square_attacked(g: Grid, x: int, y: int, c: Color) -> bool {
    exists|fx: int, fy: int| 0 <= fx < 14 && 0 <= fy < 14 && #[trigger] attacks_from(g, c, fx, fy, x, y)
}

/// `p` is the king of `c`.
pub open spec fn is_king_of(p: Option<Piece>, c: Color) -> bool {
    p == Some(Piece { color: c, piece_type: PieceType::King })
}

/// `(kx, ky)` holds the first king of `c` in row-major order (rows from 0, then columns).
pub open spec fn first_king(g: Grid, c: Color, kx: int, ky: int) -> bool {
    &&& 0 <= kx < 14
    &&& 0 <= ky < 14
    &&& is_king_of(at(g, kx, ky), c)
    &&& forall|x: int, y: int|
        0 <= x < 14 && 0 <= y < 14 && (y < ky || (y == ky && x < kx)) ==> !is_king_of(
            #[trigger] at(g, x, y),
            c,
        )
}

/// The first king of `c` stands on a square that another side strikes.
/// A board without a king of `c` is never in check.
pub open spec fn king_in_check(g: Grid, c: Color) -> bool {
    exists|kx: int, ky: int|
        #[trigger] first_king(g, c, kx, ky) && exists|o: Color|
            o != c && #[trigger] square_attacked(g, kx, ky, o)
}

/// The kind a pawn of `c` turns into on reaching `(x, y)`, if that is a promotion square.
pub open spec fn promotion_for(x: int, y: int, c: Color) -> Option<PieceType> {
    if promotion_square(x, y, c) {
        Some(PieceType::Queen)
    } else {
        None
    }
}

/// A pawn of `c` on `(x, y)` stands on its starting line and may advance two squares.
pub open spec fn on_start_line(x: int, y: int, c: Color) -> bool {
    match c {
        Color::Red => y == 12,
        Color::Yellow => y == 1,
        Color::Blue => x == 1,
        Color::Green => x == 12,
    }
}

/// The non-capturing moves of a pawn of `c` on `from`: one step ahead onto an empty square,
/// then, from the starting line, two steps ahead when that square is empty too.
pub open spec fn pawn_pushes(g: Grid, from: (usize, usize), c: Color) -> Seq<Move> {
    let f = forward(c);
    let x = (from.0 as i32) as int;
    let y = (from.1 as i32) as int;
    let ox = x + f.0;
    let oy = y + f.1;
    let tx = x + 2 * f.0;
    let ty = y + 2 * f.1;
    if valid_square(ox, oy) && at(g, ox, oy) is None {
        seq![Move { from, to: (ox as usize, oy as usize), piece: PieceType::Pawn, captured: None, promotion: promotion_for(ox, oy, c) }]
            + if on_start_line(x, y, c) && valid_square(tx, ty) && at(g, tx, ty) is None {
            seq![Move { from, to: (tx as usize, ty as usize), piece: PieceType::Pawn, captured: None, promotion: None }]
        } else {
            Seq::<Move>::empty()
        }
    } else {
        Seq::<Move>::empty()
    }
}

/// A capture by a pawn of `c` on `from` onto `(tx, ty)`, if an enemy piece stands there.
pub open spec fn pawn_capture(g: Grid, from: (usize, usize), c: Color, tx: int, ty: int) -> Seq<Move> {
    if valid_square(tx, ty) {
        match at(g, tx, ty) {
            Some(t) => if t.color != c {
                seq![Move { from, to: (tx as usize, ty as usize), piece: PieceType::Pawn, captured: Some(t), promotion: promotion_for(tx, ty, c) }]
            } else {
                Seq::<Move>::empty()
            },
            None => Seq::<Move>::empty(),
        }
    } else {
        Seq::<Move>::empty()
    }
}

/// The captures of a pawn of `c` on `from` onto each of `targets`, in order.
pub open spec fn pawn_captures(g: Grid, from: (usize, usize), c: Color, targets: Seq<(i32, i32)>) -> Seq<Move>
    decreases targets.len(),
{
    if targets.len() == 0 {
        Seq::<Move>::empty()
    } else {
        pawn_captures(g, from, c, targets.drop_last()) + pawn_capture(
            g,
            from,
            c,
            targets.last().0 as int,
            targets.last().1 as int,
        )
    }
}

/// The two squares diagonally ahead of a pawn of `c` on `(x, y)`.
pub open spec fn pawn_diagonals(x: int, y: int, c: Color) -> Seq<(i32, i32)> {
    let f = forward(c);
    seq![((x + f.0 + f.1) as i32, (y + f.1 - f.0) as i32), ((x + f.0 - f.1) as i32, (y + f.1 + f.0) as i32)]
}

/// The moves of a pawn of `c` on `from`: its pushes, then its diagonal captures.
/// Coordinates are read as `i32`.
pub open spec fn pawn_moves(g: Grid, from: (usize, usize), c: Color) -> Seq<Move> {
    pawn_pushes(g, from, c) + pawn_captures(
        g,
        from,
        c,
        pawn_diagonals((from.0 as i32) as int, (from.1 as i32) as int, c),
    )
}

/// The one-step and diagonal targets of a pawn of `c` on `(x, y)` fit in an `i32`.
pub open spec fn pawn_steps_fit(x: int, y: int, c: Color) -> bool {
    let f = forward(c);
    &&& fits_i32(x + f.0)
    &&& fits_i32(y + f.1)
    &&& fits_i32(x + f.0 + f.1)
    &&& fits_i32(y + f.1 - f.0)
    &&& fits_i32(x + f.0 - f.1)
    &&& fits_i32(y + f.1 + f.0)
}

/// The move of a piece of kind `pt` and side `c` on `from` by the jump `off`: onto a valid
/// square that is empty or holds an enemy piece.
pub open spec fn jump_move(g: Grid, from: (usize, usize), c: Color, pt: PieceType, off: (i32, i32)) -> Seq<Move> {
    let nx = (from.0 as i32) + off.0;
    let ny = (from.1 as i32) + off.1;
    if valid_square(nx, ny) && (at(g, nx, ny) is None || at(g, nx, ny).unwrap().color != c) {
        seq![Move { from, to: (nx as usize, ny as usize), piece: pt, captured: at(g, nx, ny), promotion: None }]
    } else {
        Seq::<Move>::empty()
    }
}

/// The moves by each of the jumps `offs`, in order.
pub open spec fn jump_moves(g: Grid, from: (usize, usize), c: Color, pt: PieceType, offs: Seq<(i32, i32)>) -> Seq<Move>
    decreases offs.len(),
{
    if offs.len() == 0 {
        Seq::<Move>::empty()
    } else {
        jump_moves(g, from, c, pt, offs.drop_last()) + jump_move(g, from, c, pt, offs.last())
    }
}

/// The moves of a piece sliding from `from` by steps of `(dx, dy)`, now at `(nx, ny)`:
/// one move to each empty valid square, and a capture of the first piece met if it is an
/// enemy.
pub open spec fn ray_moves(
    g: Grid,
    from: (usize, usize),
    c: Color,
    pt: PieceType,
    nx: int,
    ny: int,
    dx: int,
    dy: int,
) -> Seq<Move>
    decreases room(nx, dx) + room(ny, dy),
{
    if !valid_square(nx, ny) {
        Seq::<Move>::empty()
    } else {
        match at(g, nx, ny) {
            Some(t) => if t.color != c {
                seq![Move { from, to: (nx as usize, ny as usize), piece: pt, captured: Some(t), promotion: None }]
            } else {
                Seq::<Move>::empty()
            },
            None => if dx == 0 && dy == 0 {
                // A zero step stays on the origin, which holds the moving piece.
                Seq::<Move>::empty()
            } else {
                seq![Move { from, to: (nx as usize, ny as usize), piece: pt, captured: None, promotion: None }]
                    + ray_moves(g, from, c, pt, nx + dx, ny + dy, dx, dy)
            },
        }
    }
}

/// The moves of a piece sliding from `from` along each of `dirs`, in order.
pub open spec fn slide_moves(g: Grid, from: (usize, usize), c: Color, pt: PieceType, dirs: Seq<(i32, i32)>) -> Seq<Move>
    decreases dirs.len(),
{
    if dirs.len() == 0 {
        Seq::<Move>::empty()
    } else {
        let d = dirs.last();
        slide_moves(g, from, c, pt, dirs.drop_last()) + ray_moves(
            g,
            from,
            c,
            pt,
            from.0 + d.0,
            from.1 + d.1,
            d.0 as int,
            d.1 as int,
        )
    }
}

/// The moves of a piece of kind `pt` and side `c` on `from`, ignoring checks.
pub open spec fn piece_moves(g: Grid, from: (usize, usize), c: Color, pt: PieceType) -> Seq<Move> {
    match pt {
        PieceType::Pawn => pawn_moves(g, from, c),
        PieceType::Knight => jump_moves(g, from, c, pt, knight_offsets()),
        PieceType::Bishop => slide_moves(g, from, c, pt, bishop_dirs()),
        PieceType::Rook => slide_moves(g, from, c, pt, rook_dirs()),
        PieceType::Queen => slide_moves(g, from, c, pt, queen_dirs()),
        PieceType::King => jump_moves(g, from, c, pt, king_offsets()),
    }
}

/// The moves of the piece on `(x, y)` if it belongs to `c`, else none.
pub open spec fn square_moves(g: Grid, c: Color, x: int, y: int) -> Seq<Move> {
    match at(g, x, y) {
        Some(p) => if p.color == c {
            piece_moves(g, (x as usize, y as usize), c, p.piece_type)
        } else {
            Seq::<Move>::empty()
        },
        None => Seq::<Move>::empty(),
    }
}

/// The moves of `c` from the first `n` squares of row `y`, left to right.
pub open spec fn row_moves(g: Grid, c: Color, y: int, n: int) -> Seq<Move>
    decreases n,
{
    if n <= 0 {
        Seq::<Move>::empty()
    } else {
        row_moves(g, c, y, n - 1) + square_moves(g, c, n - 1, y)
    }
}

/// The moves of `c` from the first `m` rows, top to bottom.
pub open spec fn rows_moves(g: Grid, c: Color, m: int) -> Seq<Move>
    decreases m,
{
    if m <= 0 {
        Seq::<Move>::empty()
    } else {
        rows_moves(g, c, m - 1) + row_moves(g, c, m - 1, 14)
    }
}

/// All moves of `c`, ignoring checks, square by square in row-major order.
pub open spec fn pseudo_legal_moves(g: Grid, c: Color) -> Seq<Move> {
    rows_moves(g, c, 14)
}

/// The grid with `(x, y)` set to `v`.
pub open spec fn set_square(g: Grid, x: int, y: int, v: Option<Piece>) -> Grid {
    g.update(y, g[y].update(x, v))
}

/// The grid after `mv`: the moving piece (promoted, if the move promotes) on the
/// destination, the origin empty.
pub open spec fn apply_move(g: Grid, mv: Move) -> Grid {
    let piece = at(g, mv.from.0 as int, mv.from.1 as int).unwrap();
    let g1 = set_square(g, mv.to.0 as int, mv.to.1 as int, Some(piece));
    let g2 = set_square(g1, mv.from.0 as int, mv.from.1 as int, None);
    match mv.promotion {
        Some(prom) => set_square(g2, mv.to.0 as int, mv.to.1 as int, Some(Piece { color: piece.color, piece_type: prom })),
        None => g2,
    }
}

/// After `mv` the king of `c` is not in check.
pub open spec fn leaves_king_safe(g: Grid, c: Color, mv: Move) -> bool {
    !king_in_check(apply_move(g, mv), c)
}

/// The test that keeps a move of `c` among the legal ones.
pub open spec fn keeps_king_safe(g: Grid, c: Color) -> spec_fn(Move) -> bool {
    |mv: Move| leaves_king_safe(g, c, mv)
}

/// The legal moves of `c`: the pseudo-legal ones, in order, that leave its king safe.
pub open spec fn legal_moves(g: Grid, c: Color) -> Seq<Move> {
    pseudo_legal_moves(g, c).filter(keeps_king_safe(g, c))
}

/// A move of `c` that starts on a square holding a piece of `c` of the moved kind, ends on
/// a valid square, and captures exactly what stands there, which is not a piece of `c`.
pub open spec fn well_formed_move(g: Grid, c: Color, mv: Move) -> bool {
    &&& mv.from.0 < 14
    &&& mv.from.1 < 14
    &&& valid_square(mv.to.0 as int, mv.to.1 as int)
    &&& at(g, mv.from.0 as int, mv.from.1 as int) == Some(Piece { color: c, piece_type: mv.piece })
    &&& mv.captured == at(g, mv.to.0 as int, mv.to.1 as int)
    &&& (mv.captured matches Some(t) ==> t.color != c)
    &&& (mv.promotion matches Some(q) ==> mv.piece == PieceType::Pawn && q == PieceType::Queen)
    &&& (mv.piece == PieceType::Pawn ==> mv.promotion == promotion_for(mv.to.0 as int, mv.to.1 as int, c))
    &&& (mv.piece != PieceType::Pawn ==> piece_attacks(
        g,
        mv.piece,
        c,
        mv.from.0 as int,
        mv.from.1 as int,
        mv.to.0 as int,
        mv.to.1 as int,
    ))
    &&& (mv.piece == PieceType::Pawn ==> pawn_move_shape(g, c, mv))
}

/// The three ways a pawn of `c` moves: one square ahead without capturing; two squares
/// ahead without capturing, from its starting line and over an empty square; or a capture
/// on a square it strikes.
pub open spec fn pawn_move_shape(g: Grid, c: Color, mv: Move) -> bool {
    let f = forward(c);
    let fx = mv.from.0 as int;
    let fy = mv.from.1 as int;
    let tx = mv.to.0 as int;
    let ty = mv.to.1 as int;
    ||| mv.captured is None && tx == fx + f.0 && ty == fy + f.1
    ||| mv.captured is None && tx == fx + 2 * f.0 && ty == fy + 2 * f.1 && on_start_line(fx, fy, c)
        && at(g, fx + f.0, fy + f.1) is None
    ||| mv.captured is Some && pawn_attacks(fx, fy, c, tx, ty)
}

/// Every move of `s` is well formed.
pub open spec fn all_well_formed(g: Grid, c: Color, s: Seq<Move>) -> bool {
    forall|i: int| 0 <= i < s.len() ==> well_formed_move(g, c, #[trigger] s[i])
}

/// The back rank of Red and Yellow, from left to right.
pub open spec fn red_back_rank() -> Seq<PieceType> {
    seq![
        PieceType::Rook, PieceType::Knight, PieceType::Bishop, PieceType::Queen,
        PieceType::King, PieceType::Bishop, PieceType::Knight, PieceType::Rook,
    ]
}

/// The back rank of Blue and Green, from top to bottom.
pub open spec fn blue_back_rank() -> Seq<PieceType> {
    seq![
        PieceType::Rook, PieceType::Knight, PieceType::Bishop, PieceType::King,
        PieceType::Queen, PieceType::Bishop, PieceType::Knight, PieceType::Rook,
    ]
}

/// What stands on `(x, y)` at the start of a game: Red on rows 12-13, Yellow on rows 0-1,
/// Blue on columns 0-1 and Green on columns 12-13, pawns on the inner line.
pub open spec fn initial_square(x: int, y: int) -> Option<Piece> {
    if 3 <= x <= 10 && y == 13 {
        Some(Piece { color: Color::Red, piece_type: red_back_rank()[x - 3] })
    } else if 3 <= x <= 10 && y == 12 {
        Some(Piece { color: Color::Red, piece_type: PieceType::Pawn })
    } else if 3 <= x <= 10 && y == 0 {
        Some(Piece { color: Color::Yellow, piece_type: red_back_rank()[x - 3] })
    } else if 3 <= x <= 10 && y == 1 {
        Some(Piece { color: Color::Yellow, piece_type: PieceType::Pawn })
    } else if 3 <= y <= 10 && x == 0 {
        Some(Piece { color: Color::Blue, piece_type: blue_back_rank()[y - 3] })
    } else if 3 <= y <= 10 && x == 1 {
        Some(Piece { color: Color::Blue, piece_type: PieceType::Pawn })
    } else if 3 <= y <= 10 && x == 13 {
        Some(Piece { color: Color::Green, piece_type: blue_back_rank()[y - 3] })
    } else if 3 <= y <= 10 && x == 12 {
        Some(Piece { color: Color::Green, piece_type: PieceType::Pawn })
    } else {
        None
    }
}

/// The squares filled after `stage` sides are set up and `i` files of the next side.
spec fn set_up(stage: int, i: int, x: int, y: int) -> bool {
    ||| (stage > 0 || (stage == 0 && 3 <= x < 3 + i)) && 3 <= x <= 10 && (y == 12 || y == 13)
    ||| (stage > 1 || (stage == 1 && 3 <= x < 3 + i)) && 3 <= x <= 10 && (y == 0 || y == 1)
    ||| (stage > 2 || (stage == 2 && 3 <= y < 3 + i)) && 3 <= y <= 10 && (x == 0 || x == 1)
    ||| (stage > 3 || (stage == 3 && 3 <= y < 3 + i)) && 3 <= y <= 10 && (x == 12 || x == 13)
}

spec fn board_set_up(b: Board, stage: int, i: int) -> bool {
    forall|x: int, y: int|
        0 <= x < 14 && 0 <= y < 14 ==> #[trigger] b[y][x] == (if set_up(stage, i, x, y) {
            initial_square(x, y)
        } else {
            None
        })
}

proof fn lemma_concat_well_formed(g: Grid, c: Color, a: Seq<Move>, b: Seq<Move>)
    requires
        all_well_formed(g, c, a),
        all_well_formed(g, c, b),
    ensures
        all_well_formed(g, c, a + b),
{
    assert forall|i: int| 0 <= i < (a + b).len() implies well_formed_move(g, c, #[trigger] (a + b)[i]) by {
        if i < a.len() {
            assert((a + b)[i] == a[i]);
        } else {
            assert((a + b)[i] == b[i - a.len()]);
        }
    }
}

proof fn lemma_jump_moves_well_formed(g: Grid, from: (usize, usize), c: Color, pt: PieceType, offs: Seq<(i32, i32)>)
    requires
        pt != PieceType::Pawn,
        from.0 < 14,
        from.1 < 14,
        at(g, from.0 as int, from.1 as int) == Some(Piece { color: c, piece_type: pt }),
        forall|x: int, y: int|
            #[trigger] jump_attacks(from.0 as int, from.1 as int, offs, x, y) ==> piece_attacks(
                g,
                pt,
                c,
                from.0 as int,
                from.1 as int,
                x,
                y,
            ),
    ensures
        all_well_formed(g, c, jump_moves(g, from, c, pt, offs)),
    decreases offs.len(),
{
    if offs.len() > 0 {
        let prefix = offs.drop_last();
        assert forall|x: int, y: int| #[trigger] jump_attacks(from.0 as int, from.1 as int, prefix, x, y)
            implies jump_attacks(from.0 as int, from.1 as int, offs, x, y) by {
            let i = choose|i: int| 0 <= i < prefix.len() && from.0 + (#[trigger] prefix[i]).0 == x
                && from.1 + prefix[i].1 == y && valid_square(x, y);
            assert(offs[i] == prefix[i]);
        }
        let last = offs.last();
        assert(offs[offs.len() - 1] == last);
        let nx = (from.0 as i32) + last.0;
        let ny = (from.1 as i32) + last.1;
        if valid_square(nx, ny) {
            assert(jump_attacks(from.0 as int, from.1 as int, offs, nx, ny));
        }
        lemma_jump_moves_well_formed(g, from, c, pt, offs.drop_last());
        lemma_concat_well_formed(g, c, jump_moves(g, from, c, pt, offs.drop_last()), jump_move(g, from, c, pt, offs.last()));
    }
}

proof fn lemma_ray_moves_well_formed(
    g: Grid,
    from: (usize, usize),
    c: Color,
    pt: PieceType,
    nx: int,
    ny: int,
    dx: int,
    dy: int,
)
    requires
        pt != PieceType::Pawn,
        from.0 < 14,
        from.1 < 14,
        at(g, from.0 as int, from.1 as int) == Some(Piece { color: c, piece_type: pt }),
        is_unit_dir(dx, dy),
        forall|x: int, y: int|
            #[trigger] ray_attacks(g, nx, ny, dx, dy, x, y) ==> piece_attacks(
                g,
                pt,
                c,
                from.0 as int,
                from.1 as int,
                x,
                y,
            ),
    ensures
        all_well_formed(g, c, ray_moves(g, from, c, pt, nx, ny, dx, dy)),
    decreases room(nx, dx) + room(ny, dy),
{
    assert(valid_square(nx, ny) ==> ray_attacks(g, nx, ny, dx, dy, nx, ny));
    if valid_square(nx, ny) && at(g, nx, ny) is None {
        assert forall|x: int, y: int| #[trigger] ray_attacks(g, nx + dx, ny + dy, dx, dy, x, y)
            implies ray_attacks(g, nx, ny, dx, dy, x, y) by {}
    }
    if valid_square(nx, ny) && at(g, nx, ny) is None && !(dx == 0 && dy == 0) {
        lemma_ray_moves_well_formed(g, from, c, pt, nx + dx, ny + dy, dx, dy);
        let first = seq![Move { from, to: (nx as usize, ny as usize), piece: pt, captured: None, promotion: None }];
        lemma_concat_well_formed(g, c, first, ray_moves(g, from, c, pt, nx + dx, ny + dy, dx, dy));
    }
}

proof fn lemma_slide_moves_well_formed(g: Grid, from: (usize, usize), c: Color, pt: PieceType, dirs: Seq<(i32, i32)>)
    requires
        pt != PieceType::Pawn,
        from.0 < 14,
        from.1 < 14,
        at(g, from.0 as int, from.1 as int) == Some(Piece { color: c, piece_type: pt }),
        forall|i: int| 0 <= i < dirs.len() ==> is_unit_dir((#[trigger] dirs[i]).0 as int, dirs[i].1 as int),
        forall|x: int, y: int|
            #[trigger] slide_attacks(g, from.0 as int, from.1 as int, dirs, x, y) ==> piece_attacks(
                g,
                pt,
                c,
                from.0 as int,
                from.1 as int,
                x,
                y,
            ),
    ensures
        all_well_formed(g, c, slide_moves(g, from, c, pt, dirs)),
    decreases dirs.len(),
{
    if dirs.len() > 0 {
        let d = dirs.last();
        let prefix = dirs.drop_last();
        assert(dirs[dirs.len() - 1] == d);
        assert forall|i: int| 0 <= i < prefix.len() implies is_unit_dir((#[trigger] prefix[i]).0 as int, prefix[i].1 as int) by {
            assert(prefix[i] == dirs[i]);
        }
        assert forall|x: int, y: int| #[trigger] slide_attacks(g, from.0 as int, from.1 as int, prefix, x, y)
            implies slide_attacks(g, from.0 as int, from.1 as int, dirs, x, y) by {
            let i = choose|i: int| 0 <= i < prefix.len() && ray_attacks(
                g, from.0 + (#[trigger] prefix[i]).0, from.1 + prefix[i].1, prefix[i].0 as int, prefix[i].1 as int, x, y,
            );
            assert(dirs[i] == prefix[i]);
        }
        assert forall|x: int, y: int| #[trigger] ray_attacks(g, from.0 + d.0, from.1 + d.1, d.0 as int, d.1 as int, x, y)
            implies piece_attacks(g, pt, c, from.0 as int, from.1 as int, x, y) by {
            assert(slide_attacks(g, from.0 as int, from.1 as int, dirs, x, y));
        }
        lemma_slide_moves_well_formed(g, from, c, pt, dirs.drop_last());
        lemma_ray_moves_well_formed(g, from, c, pt, from.0 + d.0, from.1 + d.1, d.0 as int, d.1 as int);
        lemma_concat_well_formed(
            g,
            c,
            slide_moves(g, from, c, pt, dirs.drop_last()),
            ray_moves(g, from, c, pt, from.0 + d.0, from.1 + d.1, d.0 as int, d.1 as int),
        );
    }
}

proof fn lemma_pawn_captures_well_formed(g: Grid, from: (usize, usize), c: Color, targets: Seq<(i32, i32)>)
    requires
        from.0 < 14,
        from.1 < 14,
        at(g, from.0 as int, from.1 as int) == Some(Piece { color: c, piece_type: PieceType::Pawn }),
        forall|i: int|
            0 <= i < targets.len() ==> pawn_attacks(
                from.0 as int,
                from.1 as int,
                c,
                (#[trigger] targets[i]).0 as int,
                targets[i].1 as int,
            ),
    ensures
        all_well_formed(g, c, pawn_captures(g, from, c, targets)),
    decreases targets.len(),
{
    if targets.len() > 0 {
        assert(targets[targets.len() - 1] == targets.last());
        assert forall|i: int| 0 <= i < targets.drop_last().len() implies pawn_attacks(
            from.0 as int,
            from.1 as int,
            c,
            (#[trigger] targets.drop_last()[i]).0 as int,
            targets.drop_last()[i].1 as int,
        ) by {
            assert(targets.drop_last()[i] == targets[i]);
        }
        lemma_pawn_captures_well_formed(g, from, c, targets.drop_last());
        lemma_concat_well_formed(
            g,
            c,
            pawn_captures(g, from, c, targets.drop_last()),
            pawn_capture(g, from, c, targets.last().0 as int, targets.last().1 as int),
        );
    }
}

proof fn lemma_pawn_moves_well_formed(g: Grid, from: (usize, usize), c: Color)
    requires
        from.0 < 14,
        from.1 < 14,
        at(g, from.0 as int, from.1 as int) == Some(Piece { color: c, piece_type: PieceType::Pawn }),
    ensures
        all_well_formed(g, c, pawn_moves(g, from, c)),
{
    let f = forward(c);
    let x = (from.0 as i32) as int;
    let y = (from.1 as i32) as int;
    let ox = x + f.0;
    let oy = y + f.1;
    let tx = x + 2 * f.0;
    let ty = y + 2 * f.1;
    if valid_square(ox, oy) && at(g, ox, oy) is None {
        let one = seq![Move { from, to: (ox as usize, oy as usize), piece: PieceType::Pawn, captured: None, promotion: promotion_for(ox, oy, c) }];
        let two = if on_start_line(x, y, c) && valid_square(tx, ty) && at(g, tx, ty) is None {
            seq![Move { from, to: (tx as usize, ty as usize), piece: PieceType::Pawn, captured: None, promotion: None }]
        } else {
            Seq::<Move>::empty()
        };
        lemma_concat_well_formed(g, c, one, two);
    }
    lemma_pawn_captures_well_formed(g, from, c, pawn_diagonals(x, y, c));
    lemma_concat_well_formed(g, c, pawn_pushes(g, from, c), pawn_captures(g, from, c, pawn_diagonals(x, y, c)));
}

proof fn lemma_square_moves_well_formed(g: Grid, c: Color, x: int, y: int)
    requires
        0 <= x < 14,
        0 <= y < 14,
    ensures
        all_well_formed(g, c, square_moves(g, c, x, y)),
{
    if let Some(p) = at(g, x, y) {
        if p.color == c {
            let from = (x as usize, y as usize);
            match p.piece_type {
                PieceType::Pawn => lemma_pawn_moves_well_formed(g, from, c),
                PieceType::Knight => lemma_jump_moves_well_formed(g, from, c, p.piece_type, knight_offsets()),
                PieceType::Bishop => lemma_slide_moves_well_formed(g, from, c, p.piece_type, bishop_dirs()),
                PieceType::Rook => lemma_slide_moves_well_formed(g, from, c, p.piece_type, rook_dirs()),
                PieceType::Queen => lemma_slide_moves_well_formed(g, from, c, p.piece_type, queen_dirs()),
                PieceType::King => lemma_jump_moves_well_formed(g, from, c, p.piece_type, king_offsets()),
            }
        }
    }
}

proof fn lemma_row_moves_well_formed(g: Grid, c: Color, y: int, n: int)
    requires
        0 <= y < 14,
        n <= 14,
    ensures
        all_well_formed(g, c, row_moves(g, c, y, n)),
    decreases n,
{
    if n > 0 {
        lemma_row_moves_well_formed(g, c, y, n - 1);
        lemma_square_moves_well_formed(g, c, n - 1, y);
        lemma_concat_well_formed(g, c, row_moves(g, c, y, n - 1), square_moves(g, c, n - 1, y));
    }
}

proof fn lemma_rows_moves_well_formed(g: Grid, c: Color, m: int)
    requires
        m <= 14,
    ensures
        all_well_formed(g, c, rows_moves(g, c, m)),
    decreases m,
{
    if m > 0 {
        lemma_rows_moves_well_formed(g, c, m - 1);
        lemma_row_moves_well_formed(g, c, m - 1, 14);
        lemma_concat_well_formed(g, c, rows_moves(g, c, m - 1), row_moves(g, c, m - 1, 14));
    }
}

/// Every pseudo-legal move of `c` starts on a square holding a piece of `c` of the moved
/// kind, ends on a square of the game, and captures exactly what stands there, which never
/// belongs to `c`.
pub proof fn lemma_pseudo_legal_moves_well_formed(g: Grid, c: Color)
    ensures
        all_well_formed(g, c, pseudo_legal_moves(g, c)),
{
    lemma_rows_moves_well_formed(g, c, 14);
}

/// The turn order is a cycle through all four sides: four turns bring the same side back,
/// and no side follows itself or the side before it.
pub proof fn lemma_next_color_cycles(c: Color)
    ensures
        next_color(next_color(next_color(next_color(c)))) == c,
        next_color(c) != c,
        next_color(next_color(c)) != c,
        next_color(next_color(next_color(c))) != c,
{
}

/// Every legal move of `c` is a well-formed pseudo-legal move after which the king of `c`
/// is not in check; every pseudo-legal move after which that king is not in check is legal.
pub proof fn lemma_legal_moves_exact(g: Grid, c: Color)
    ensures
        forall|i: int|
            0 <= i < legal_moves(g, c).len() ==> {
                &&& pseudo_legal_moves(g, c).contains(#[trigger] legal_moves(g, c)[i])
                &&& well_formed_move(g, c, legal_moves(g, c)[i])
                &&& !king_in_check(apply_move(g, legal_moves(g, c)[i]), c)
            },
        forall|i: int|
            0 <= i < pseudo_legal_moves(g, c).len() && !king_in_check(
                apply_move(g, #[trigger] pseudo_legal_moves(g, c)[i]),
                c,
            ) ==> legal_moves(g, c).contains(pseudo_legal_moves(g, c)[i]),
        legal_moves(g, c).len() <= pseudo_legal_moves(g, c).len(),
{
    broadcast use vstd::seq_lib::group_filter_ensures;
    let pseudo = pseudo_legal_moves(g, c);
    let pred = keeps_king_safe(g, c);
    lemma_pseudo_legal_moves_well_formed(g, c);
    assert forall|i: int| 0 <= i < legal_moves(g, c).len() implies {
        &&& pseudo.contains(#[trigger] legal_moves(g, c)[i])
        &&& well_formed_move(g, c, legal_moves(g, c)[i])
        &&& !king_in_check(apply_move(g, legal_moves(g, c)[i]), c)
    } by {
        let mv = legal_moves(g, c)[i];
        assert(pred(mv));
        assert(pseudo.filter(pred).contains(mv));
        pseudo.lemma_filter_contains_rev(pred, mv);
        let j = choose|j: int| 0 <= j < pseudo.len() && pseudo[j] == mv;
        assert(well_formed_move(g, c, pseudo[j]));
    }
    assert forall|i: int|
        0 <= i < pseudo.len() && !king_in_check(apply_move(g, #[trigger] pseudo[i]), c) implies legal_moves(g, c).contains(pseudo[i]) by {
        assert(pred(pseudo[i]));
    }
}

/// In the starting position every piece stands on a square of the game, and each side has
/// exactly one king.
pub proof fn lemma_initial_position(c: Color)
    ensures
        forall|x: int, y: int| #[trigger] initial_square(x, y) is Some ==> valid_square(x, y),
        exists|kx: int, ky: int| is_king_of(#[trigger] initial_square(kx, ky), c),
        forall|ax: int, ay: int, bx: int, by: int|
            is_king_of(#[trigger] initial_square(ax, ay), c) && is_king_of(#[trigger] initial_square(bx, by), c)
                ==> ax == bx && ay == by,
{
    assert(red_back_rank()[4] == PieceType::King);
    assert(blue_back_rank()[3] == PieceType::King);
    assert forall|ax: int, ay: int| #[trigger] is_king_of(initial_square(ax, ay), c) implies
        (c == Color::Red ==> ax == 7 && ay == 13) && (c == Color::Yellow ==> ax == 7 && ay == 0)
        && (c == Color::Blue ==> ax == 0 && ay == 6) && (c == Color::Green ==> ax == 13 && ay == 6) by {
        if 3 <= ax <= 10 && (ay == 13 || ay == 0) {
            assert(red_back_rank()[ax - 3] == PieceType::King ==> ax - 3 == 4);
        }
        if 3 <= ay <= 10 && (ax == 0 || ax == 13) {
            assert(blue_back_rank()[ay - 3] == PieceType::King ==> ay - 3 == 3);
        }
    }
    match c {
        Color::Red => assert(is_king_of(initial_square(7, 13), c)),
        Color::Yellow => assert(is_king_of(initial_square(7, 0), c)),
        Color::Blue => assert(is_king_of(initial_square(0, 6), c)),
        Color::Green => assert(is_king_of(initial_square(13, 6), c)),
    }
}

/// Check comes from any other side: when the first king of `c` stands on a square that a
/// piece of any side other than `c` attacks, `c` is in check; and `c` is in check only in
/// that case.
pub proof fn lemma_check_by_any_other_side(g: Grid, c: Color)
    ensures
        forall|kx: int, ky: int, o: Color|
            first_king(g, c, kx, ky) && o != c && #[trigger] square_attacked(g, kx, ky, o) ==> king_in_check(g, c),
        king_in_check(g, c) ==> exists|kx: int, ky: int, o: Color|
            first_king(g, c, kx, ky) && o != c && #[trigger] square_attacked(g, kx, ky, o),
{
    assert forall|kx: int, ky: int, o: Color|
        first_king(g, c, kx, ky) && o != c && #[trigger] square_attacked(g, kx, ky, o) implies king_in_check(g, c) by {
        assert(first_king(g, c, kx, ky));
    }
}

/// For a side with a single king: it is in check exactly when a piece of some other side
/// (any of the three) strikes the king's square. A side without a king is never in check.
pub proof fn lemma_check_of_single_king(g: Grid, c: Color, kx: int, ky: int)
    requires
        0 <= kx < 14,
        0 <= ky < 14,
        is_king_of(at(g, kx, ky), c),
        forall|x: int, y: int|
            0 <= x < 14 && 0 <= y < 14 && is_king_of(#[trigger] at(g, x, y), c) ==> x == kx && y == ky,
    ensures
        king_in_check(g, c) <==> exists|fx: int, fy: int|
            0 <= fx < 14 && 0 <= fy < 14 && (#[trigger] at(g, fx, fy) matches Some(p) && p.color != c
                && piece_attacks(g, p.piece_type, p.color, fx, fy, kx, ky)),
{
    assert(first_king(g, c, kx, ky));
    lemma_first_king_unique(g, c, kx, ky);
    if king_in_check(g, c) {
        let (ax, ay) = choose|ax: int, ay: int| #[trigger] first_king(g, c, ax, ay) && exists|o: Color|
            o != c && #[trigger] square_attacked(g, ax, ay, o);
        let o = choose|o: Color| o != c && #[trigger] square_attacked(g, kx, ky, o);
        let (fx, fy) = choose|fx: int, fy: int| 0 <= fx < 14 && 0 <= fy < 14 && #[trigger] attacks_from(g, o, fx, fy, kx, ky);
        assert(at(g, fx, fy) matches Some(p) && p.color != c && piece_attacks(g, p.piece_type, p.color, fx, fy, kx, ky));
    }
    if exists|fx: int, fy: int|
        0 <= fx < 14 && 0 <= fy < 14 && (#[trigger] at(g, fx, fy) matches Some(p) && p.color != c
            && piece_attacks(g, p.piece_type, p.color, fx, fy, kx, ky)) {
        let (fx, fy) = choose|fx: int, fy: int|
            0 <= fx < 14 && 0 <= fy < 14 && (#[trigger] at(g, fx, fy) matches Some(p) && p.color != c
                && piece_attacks(g, p.piece_type, p.color, fx, fy, kx, ky));
        let o = at(g, fx, fy).unwrap().color;
        assert(attacks_from(g, o, fx, fy, kx, ky));
        assert(square_attacked(g, kx, ky, o));
    }
}

/// A side with no king on the board is never in check.
pub proof fn lemma_no_king_no_check(g: Grid, c: Color)
    requires
        forall|x: int, y: int| 0 <= x < 14 && 0 <= y < 14 ==> !is_king_of(#[trigger] at(g, x, y), c),
    ensures
        !king_in_check(g, c),
{
}

/// A queen strikes exactly the squares that a rook or a bishop on its square would strike.
pub proof fn lemma_queen_is_rook_or_bishop(g: Grid, c: Color, fx: int, fy: int, x: int, y: int)
    ensures
        piece_attacks(g, PieceType::Queen, c, fx, fy, x, y) == (piece_attacks(g, PieceType::Rook, c, fx, fy, x, y)
            || piece_attacks(g, PieceType::Bishop, c, fx, fy, x, y)),
{
    let q = queen_dirs();
    assert forall|i: int| 0 <= i < 4 implies #[trigger] bishop_dirs()[i] == q[i] && rook_dirs()[i] == q[i + 4] by {}
    if slide_attacks(g, fx, fy, q, x, y) {
        let i = choose|i: int| 0 <= i < q.len() && ray_attacks(
            g, fx + (#[trigger] q[i]).0, fy + q[i].1, q[i].0 as int, q[i].1 as int, x, y,
        );
        if i < 4 {
            assert(bishop_dirs()[i] == q[i]);
        } else {
            assert(rook_dirs()[i - 4] == q[i]);
        }
    }
    if slide_attacks(g, fx, fy, rook_dirs(), x, y) {
        let i = choose|i: int| 0 <= i < rook_dirs().len() && ray_attacks(
            g, fx + (#[trigger] rook_dirs()[i]).0, fy + rook_dirs()[i].1, rook_dirs()[i].0 as int, rook_dirs()[i].1 as int, x, y,
        );
        assert(q[i + 4] == rook_dirs()[i]);
    }
    if slide_attacks(g, fx, fy, bishop_dirs(), x, y) {
        let i = choose|i: int| 0 <= i < bishop_dirs().len() && ray_attacks(
            g, fx + (#[trigger] bishop_dirs()[i]).0, fy + bishop_dirs()[i].1, bishop_dirs()[i].0 as int, bishop_dirs()[i].1 as int, x, y,
        );
        assert(q[i] == bishop_dirs()[i]);
    }
}

/// The starting position, square by square: each side's back rank is, in its own
/// left-to-right (Red, Yellow) or top-to-bottom (Blue, Green) order, rook, knight, bishop,
/// then queen and king (Red and Yellow) or king and queen (Blue and Green), then bishop,
/// knight, rook; each side's eight pawns stand on the line in front of it; all other
/// squares are empty.
pub proof fn lemma_initial_position_squares()
    ensures
        forall|i: int| 0 <= i < 8 ==> #[trigger] initial_square(3 + i, 13) == Some(Piece {
            color: Color::Red,
            piece_type: seq![
                PieceType::Rook, PieceType::Knight, PieceType::Bishop, PieceType::Queen,
                PieceType::King, PieceType::Bishop, PieceType::Knight, PieceType::Rook,
            ][i],
        }),
        forall|i: int| 0 <= i < 8 ==> #[trigger] initial_square(3 + i, 0) == Some(Piece {
            color: Color::Yellow,
            piece_type: seq![
                PieceType::Rook, PieceType::Knight, PieceType::Bishop, PieceType::Queen,
                PieceType::King, PieceType::Bishop, PieceType::Knight, PieceType::Rook,
            ][i],
        }),
        forall|i: int| 0 <= i < 8 ==> #[trigger] initial_square(0, 3 + i) == Some(Piece {
            color: Color::Blue,
            piece_type: seq![
                PieceType::Rook, PieceType::Knight, PieceType::Bishop, PieceType::King,
                PieceType::Queen, PieceType::Bishop, PieceType::Knight, PieceType::Rook,
            ][i],
        }),
        forall|i: int| 0 <= i < 8 ==> #[trigger] initial_square(13, 3 + i) == Some(Piece {
            color: Color::Green,
            piece_type: seq![
                PieceType::Rook, PieceType::Knight, PieceType::Bishop, PieceType::King,
                PieceType::Queen, PieceType::Bishop, PieceType::Knight, PieceType::Rook,
            ][i],
        }),
        forall|i: int| 0 <= i < 8 ==> #[trigger] initial_square(3 + i, 12) == Some(Piece { color: Color::Red, piece_type: PieceType::Pawn }),
        forall|i: int| 0 <= i < 8 ==> #[trigger] initial_square(3 + i, 1) == Some(Piece { color: Color::Yellow, piece_type: PieceType::Pawn }),
        forall|i: int| 0 <= i < 8 ==> #[trigger] initial_square(1, 3 + i) == Some(Piece { color: Color::Blue, piece_type: PieceType::Pawn }),
        forall|i: int| 0 <= i < 8 ==> #[trigger] initial_square(12, 3 + i) == Some(Piece { color: Color::Green, piece_type: PieceType::Pawn }),
        forall|x: int, y: int|
            0 <= x < 14 && 0 <= y < 14 && !(3 <= x <= 10 && (y <= 1 || y >= 12)) && !(3 <= y <= 10 && (x <= 1 || x >= 12))
                ==> #[trigger] initial_square(x, y) is None,
{
}

/// The board on which `mv` of `c` has been played on `g`: a full board, with the origin
/// empty, the destination holding the moved piece of `c` (or the kind it promotes to), and
/// every other square as on `g`.
pub open spec fn played_board(g: Grid, c: Color, mv: Move, g2: Grid) -> bool {
    &&& is_full_grid(g2)
    &&& at(g2, mv.from.0 as int, mv.from.1 as int) is None
    &&& at(g2, mv.to.0 as int, mv.to.1 as int) == Some(Piece {
        color: c,
        piece_type: match mv.promotion {
            Some(q) => q,
            None => mv.piece,
        },
    })
    &&& forall|x: int, y: int|
        0 <= x < 14 && 0 <= y < 14 && !(x == mv.from.0 && y == mv.from.1) && !(x == mv.to.0 && y == mv.to.1)
            ==> #[trigger] at(g2, x, y) == at(g, x, y)
}

/// A pseudo-legal move of `c` is legal exactly when, on the board where it has been played
/// (origin emptied, destination holding the moved or promoted piece, captures included),
/// the king of `c` is not in check.
pub proof fn lemma_legal_iff_king_safe_after_move(g: Grid, c: Color, mv: Move, g2: Grid)
    requires
        is_full_grid(g),
        pseudo_legal_moves(g, c).contains(mv),
        played_board(g, c, mv, g2),
    ensures
        legal_moves(g, c).contains(mv) <==> !king_in_check(g2, c),
{
    broadcast use vstd::seq_lib::group_filter_ensures;
    let pseudo = pseudo_legal_moves(g, c);
    lemma_legal_moves_exact(g, c);
    lemma_pseudo_legal_moves_well_formed(g, c);
    let j = choose|j: int| 0 <= j < pseudo.len() && pseudo[j] == mv;
    assert(well_formed_move(g, c, pseudo[j]));
    let fx = mv.from.0 as int;
    let fy = mv.from.1 as int;
    let tx = mv.to.0 as int;
    let ty = mv.to.1 as int;
    assert(!(fx == tx && fy == ty));
    let a = apply_move(g, mv);
    assert forall|y: int| 0 <= y < 14 implies (#[trigger] g2[y]) =~= a[y] by {
        assert(g2[y].len() == 14);
        assert forall|x: int| 0 <= x < 14 implies #[trigger] g2[y][x] == a[y][x] by {
            assert(at(g2, x, y) == g2[y][x]);
        }
    }
    assert(g2 =~= a);
    if legal_moves(g, c).contains(mv) {
        let i = choose|i: int| 0 <= i < legal_moves(g, c).len() && legal_moves(g, c)[i] == mv;
        assert(!king_in_check(apply_move(g, legal_moves(g, c)[i]), c));
    }
    if !king_in_check(g2, c) {
        assert(!king_in_check(apply_move(g, pseudo[j]), c));
    }
}

/// The coordinate reached from `v` after `k` steps of `d`.
pub open spec fn steps_ahead(v: int, d: int, k: int) -> int {
    v + k * d
}

/// The distance between two coordinates.
pub open spec fn gap(a: int, b: int) -> int {
    if a >= b {
        a - b
    } else {
        b - a
    }
}

/// The squares a knight, a king and a pawn strike, by their distance from the piece: a
/// knight strikes the valid squares two away along one axis and one along the other; a king
/// the valid squares next to it; a pawn the two squares diagonally next to it that lie one
/// step ahead in its direction of travel (whether or not they are valid).
pub proof fn lemma_short_range_attacks(g: Grid, c: Color, fx: int, fy: int, x: int, y: int)
    ensures
        piece_attacks(g, PieceType::Knight, c, fx, fy, x, y) == (valid_square(x, y) && (
            (gap(x, fx) == 1 && gap(y, fy) == 2) || (gap(x, fx) == 2 && gap(y, fy) == 1))),
        piece_attacks(g, PieceType::King, c, fx, fy, x, y) == (valid_square(x, y) && gap(x, fx) <= 1
            && gap(y, fy) <= 1 && !(x == fx && y == fy)),
        piece_attacks(g, PieceType::Pawn, c, fx, fy, x, y) == (gap(x, fx) == 1 && gap(y, fy) == 1
            && (x - fx) * forward(c).0 + (y - fy) * forward(c).1 == 1),
{
    let n = knight_offsets();
    let k = king_offsets();
    assert(n[0] == (1i32, 2i32) && n[1] == (1i32, -2i32) && n[2] == (-1i32, 2i32) && n[3] == (-1i32, -2i32));
    assert(n[4] == (2i32, 1i32) && n[5] == (2i32, -1i32) && n[6] == (-2i32, 1i32) && n[7] == (-2i32, -1i32));
    assert(k[0] == (-1i32, -1i32) && k[1] == (-1i32, 0i32) && k[2] == (-1i32, 1i32) && k[3] == (0i32, -1i32));
    assert(k[4] == (0i32, 1i32) && k[5] == (1i32, -1i32) && k[6] == (1i32, 0i32) && k[7] == (1i32, 1i32));
    if valid_square(x, y) && ((gap(x, fx) == 1 && gap(y, fy) == 2) || (gap(x, fx) == 2 && gap(y, fy) == 1)) {
        if x - fx == 1 && y - fy == 2 { assert(fx + n[0].0 == x && fy + n[0].1 == y); }
        else if x - fx == 1 && y - fy == -2 { assert(fx + n[1].0 == x && fy + n[1].1 == y); }
        else if x - fx == -1 && y - fy == 2 { assert(fx + n[2].0 == x && fy + n[2].1 == y); }
        else if x - fx == -1 && y - fy == -2 { assert(fx + n[3].0 == x && fy + n[3].1 == y); }
        else if x - fx == 2 && y - fy == 1 { assert(fx + n[4].0 == x && fy + n[4].1 == y); }
        else if x - fx == 2 && y - fy == -1 { assert(fx + n[5].0 == x && fy + n[5].1 == y); }
        else if x - fx == -2 && y - fy == 1 { assert(fx + n[6].0 == x && fy + n[6].1 == y); }
        else { assert(fx + n[7].0 == x && fy + n[7].1 == y); }
    }
    if valid_square(x, y) && gap(x, fx) <= 1 && gap(y, fy) <= 1 && !(x == fx && y == fy) {
        if x - fx == -1 && y - fy == -1 { assert(fx + k[0].0 == x && fy + k[0].1 == y); }
        else if x - fx == -1 && y - fy == 0 { assert(fx + k[1].0 == x && fy + k[1].1 == y); }
        else if x - fx == -1 && y - fy == 1 { assert(fx + k[2].0 == x && fy + k[2].1 == y); }
        else if x - fx == 0 && y - fy == -1 { assert(fx + k[3].0 == x && fy + k[3].1 == y); }
        else if x - fx == 0 && y - fy == 1 { assert(fx + k[4].0 == x && fy + k[4].1 == y); }
        else if x - fx == 1 && y - fy == -1 { assert(fx + k[5].0 == x && fy + k[5].1 == y); }
        else if x - fx == 1 && y - fy == 0 { assert(fx + k[6].0 == x && fy + k[6].1 == y); }
        else { assert(fx + k[7].0 == x && fy + k[7].1 == y); }
    }
}

/// The squares of the game: on the three rows at the top and at the bottom, the eight
/// middle columns 3 to 10; on the eight middle rows, all fourteen columns.
pub proof fn lemma_valid_squares_shape(x: int, y: int)
    ensures
        (0 <= y < 3 || 11 <= y < 14) ==> (valid_square(x, y) <==> 3 <= x <= 10),
        3 <= y <= 10 ==> (valid_square(x, y) <==> 0 <= x < 14),
        (y < 0 || y >= 14) ==> !valid_square(x, y),
{
}

/// Every pawn of the starting position stands on its side's starting line, and its way
/// ahead runs through the centre: the two squares in front of it are valid and empty, and
/// the first promotion square on its file (or rank) is nine steps ahead.
pub proof fn lemma_pawns_start_and_promote(x: int, y: int, c: Color)
    requires
        initial_square(x, y) == Some(Piece { color: c, piece_type: PieceType::Pawn }),
    ensures
        on_start_line(x, y, c),
        valid_square(x + forward(c).0, y + forward(c).1),
        initial_square(x + forward(c).0, y + forward(c).1) is None,
        valid_square(x + 2 * forward(c).0, y + 2 * forward(c).1),
        initial_square(x + 2 * forward(c).0, y + 2 * forward(c).1) is None,
        promotion_square(steps_ahead(x, forward(c).0 as int, 9), steps_ahead(y, forward(c).1 as int, 9), c),
        forall|k: int|
            0 <= k < 9 ==> !#[trigger] promotion_square(
                steps_ahead(x, forward(c).0 as int, k),
                steps_ahead(y, forward(c).1 as int, k),
                c,
            ),
{
    assert forall|v: int, k: int| #[trigger] steps_ahead(v, 0, k) == v by {}
    assert forall|v: int, k: int| #[trigger] steps_ahead(v, 1, k) == v + k by {}
    assert forall|v: int, k: int| #[trigger] steps_ahead(v, -1, k) == v - k by {}
}

/// Along the line from `(fx, fy)` by steps of `(dx, dy)`, the first `n` squares are valid and
/// the first `n - 1` of them are empty.
pub open spec fn open_line(g: Grid, fx: int, fy: int, dx: int, dy: int, n: int) -> bool {
    &&& forall|j: int|
        1 <= j <= n ==> valid_square(#[trigger] steps_ahead(fx, dx, j), steps_ahead(fy, dy, j))
    &&& forall|j: int|
        1 <= j < n ==> at(g, #[trigger] steps_ahead(fx, dx, j), steps_ahead(fy, dy, j)) is None
}

/// `(x, y)` lies `n >= 1` steps of `(dx, dy)` away from `(fx, fy)`, over an open line.
pub open spec fn reaches_along(g: Grid, fx: int, fy: int, dx: int, dy: int, x: int, y: int) -> bool {
    exists|n: int|
        1 <= n && x == steps_ahead(fx, dx, n) && y == steps_ahead(fy, dy, n) && #[trigger] open_line(
            g,
            fx,
            fy,
            dx,
            dy,
            n,
        )
}

proof fn lemma_steps_shift(v: int, d: int, j: int)
    ensures
        steps_ahead(v + d, d, j) == steps_ahead(v, d, j + 1),
        steps_ahead(v, d, 1) == v + d,
{
    assert((j + 1) * d == j * d + d) by (nonlinear_arith);
}

/// A slide from `(fx, fy)` in a unit direction strikes exactly the squares some number of
/// steps along that direction whose way is open: every square up to it valid, every square
/// before it empty.
pub proof fn lemma_ray_closed_form(g: Grid, fx: int, fy: int, dx: int, dy: int, x: int, y: int)
    requires
        is_unit_dir(dx, dy),
    ensures
        ray_attacks(g, fx + dx, fy + dy, dx, dy, x, y) == reaches_along(g, fx, fy, dx, dy, x, y),
    decreases room(fx + dx, dx) + room(fy + dy, dy),
{
    let px = fx + dx;
    let py = fy + dy;
    lemma_steps_shift(fx, dx, 0);
    lemma_steps_shift(fy, dy, 0);
    if !valid_square(px, py) {
        if reaches_along(g, fx, fy, dx, dy, x, y) {
            let n = choose|n: int| 1 <= n && x == steps_ahead(fx, dx, n) && y == steps_ahead(fy, dy, n)
                && #[trigger] open_line(g, fx, fy, dx, dy, n);
            assert(valid_square(steps_ahead(fx, dx, 1), steps_ahead(fy, dy, 1)));
        }
    } else if px == x && py == y {
        assert(open_line(g, fx, fy, dx, dy, 1));
    } else if at(g, px, py) is Some {
        if reaches_along(g, fx, fy, dx, dy, x, y) {
            let n = choose|n: int| 1 <= n && x == steps_ahead(fx, dx, n) && y == steps_ahead(fy, dy, n)
                && #[trigger] open_line(g, fx, fy, dx, dy, n);
            assert(at(g, steps_ahead(fx, dx, 1), steps_ahead(fy, dy, 1)) is None);
        }
    } else {
        lemma_ray_closed_form(g, px, py, dx, dy, x, y);
        if reaches_along(g, fx, fy, dx, dy, x, y) {
            let n = choose|n: int| 1 <= n && x == steps_ahead(fx, dx, n) && y == steps_ahead(fy, dy, n)
                && #[trigger] open_line(g, fx, fy, dx, dy, n);
            let m = n - 1;
            lemma_steps_shift(fx, dx, m);
            lemma_steps_shift(fy, dy, m);
            assert forall|j: int| 1 <= j <= m implies valid_square(#[trigger] steps_ahead(px, dx, j), steps_ahead(py, dy, j)) by {
                lemma_steps_shift(fx, dx, j);
                lemma_steps_shift(fy, dy, j);
                assert(valid_square(steps_ahead(fx, dx, j + 1), steps_ahead(fy, dy, j + 1)));
            }
            assert forall|j: int| 1 <= j < m implies at(g, #[trigger] steps_ahead(px, dx, j), steps_ahead(py, dy, j)) is None by {
                lemma_steps_shift(fx, dx, j);
                lemma_steps_shift(fy, dy, j);
                assert(at(g, steps_ahead(fx, dx, j + 1), steps_ahead(fy, dy, j + 1)) is None);
            }
            assert(open_line(g, px, py, dx, dy, m));
            assert(reaches_along(g, px, py, dx, dy, x, y));
        }
        if reaches_along(g, px, py, dx, dy, x, y) {
            let m = choose|m: int| 1 <= m && x == steps_ahead(px, dx, m) && y == steps_ahead(py, dy, m)
                && #[trigger] open_line(g, px, py, dx, dy, m);
            let n = m + 1;
            lemma_steps_shift(fx, dx, m);
            lemma_steps_shift(fy, dy, m);
            assert forall|j: int| 1 <= j <= n implies valid_square(#[trigger] steps_ahead(fx, dx, j), steps_ahead(fy, dy, j)) by {
                if j > 1 {
                    lemma_steps_shift(fx, dx, j - 1);
                    lemma_steps_shift(fy, dy, j - 1);
                    assert(valid_square(steps_ahead(px, dx, j - 1), steps_ahead(py, dy, j - 1)));
                }
            }
            assert forall|j: int| 1 <= j < n implies at(g, #[trigger] steps_ahead(fx, dx, j), steps_ahead(fy, dy, j)) is None by {
                if j > 1 {
                    lemma_steps_shift(fx, dx, j - 1);
                    lemma_steps_shift(fy, dy, j - 1);
                    assert(at(g, steps_ahead(px, dx, j - 1), steps_ahead(py, dy, j - 1)) is None);
                }
            }
            assert(open_line(g, fx, fy, dx, dy, n));
        }
    }
}

/// The sign of `v`.
pub open spec fn sign(v: int) -> int {
    if v > 0 {
        1
    } else if v < 0 {
        -1
    } else {
        0
    }
}

/// The straight way from `(fx, fy)` to `(x, y)`, stepping by the signs of the differences,
/// is open: every square on it up to `(x, y)` is valid and every square before `(x, y)`
/// is empty.
pub open spec fn clear_line(g: Grid, fx: int, fy: int, x: int, y: int) -> bool {
    let n = if gap(x, fx) >= gap(y, fy) { gap(x, fx) } else { gap(y, fy) };
    open_line(g, fx, fy, sign(x - fx), sign(y - fy), n)
}

proof fn lemma_steps_unit()
    ensures
        forall|v: int, k: int| #[trigger] steps_ahead(v, 0, k) == v,
        forall|v: int, k: int| #[trigger] steps_ahead(v, 1, k) == v + k,
        forall|v: int, k: int| #[trigger] steps_ahead(v, -1, k) == v - k,
{
}

proof fn lemma_reaches_along_aligned(g: Grid, fx: int, fy: int, dx: int, dy: int, x: int, y: int)
    requires
        is_unit_dir(dx, dy),
    ensures
        reaches_along(g, fx, fy, dx, dy, x, y) == (sign(x - fx) == dx && sign(y - fy) == dy
            && (dx == 0 || dy == 0 || gap(x, fx) == gap(y, fy)) && clear_line(g, fx, fy, x, y)),
{
    lemma_steps_unit();
    if reaches_along(g, fx, fy, dx, dy, x, y) {
        let n = choose|n: int| 1 <= n && x == steps_ahead(fx, dx, n) && y == steps_ahead(fy, dy, n)
            && #[trigger] open_line(g, fx, fy, dx, dy, n);
        assert(steps_ahead(fx, dx, n) == x);
        assert(steps_ahead(fy, dy, n) == y);
        assert(open_line(g, fx, fy, dx, dy, n));
    }
    if sign(x - fx) == dx && sign(y - fy) == dy && (dx == 0 || dy == 0 || gap(x, fx) == gap(y, fy))
        && clear_line(g, fx, fy, x, y) {
        let n = if gap(x, fx) >= gap(y, fy) { gap(x, fx) } else { gap(y, fy) };
        assert(steps_ahead(fx, dx, n) == x);
        assert(steps_ahead(fy, dy, n) == y);
        assert(open_line(g, fx, fy, dx, dy, n));
    }
}

/// The squares a rook, a bishop and a queen strike: a rook those on its row or column, a
/// bishop those on its diagonals, a queen both, always provided the straight way there is
/// open (every square on it valid, every square before the target empty).
pub proof fn lemma_line_attacks(g: Grid, c: Color, fx: int, fy: int, x: int, y: int)
    ensures
        piece_attacks(g, PieceType::Rook, c, fx, fy, x, y) == ((x == fx) != (y == fy) && clear_line(g, fx, fy, x, y)),
        piece_attacks(g, PieceType::Bishop, c, fx, fy, x, y) == (gap(x, fx) == gap(y, fy) && x != fx
            && clear_line(g, fx, fy, x, y)),
        piece_attacks(g, PieceType::Queen, c, fx, fy, x, y) == (((x == fx) != (y == fy) || (gap(x, fx) == gap(y, fy)
            && x != fx)) && clear_line(g, fx, fy, x, y)),
{
    let r = rook_dirs();
    let b = bishop_dirs();
    assert(r[0] == (1i32, 0i32) && r[1] == (-1i32, 0i32) && r[2] == (0i32, 1i32) && r[3] == (0i32, -1i32));
    assert(b[0] == (1i32, 1i32) && b[1] == (1i32, -1i32) && b[2] == (-1i32, 1i32) && b[3] == (-1i32, -1i32));
    assert forall|i: int| 0 <= i < 4 implies ray_attacks(
        g, fx + (#[trigger] r[i]).0, fy + r[i].1, r[i].0 as int, r[i].1 as int, x, y,
    ) == (sign(x - fx) == r[i].0 && sign(y - fy) == r[i].1 && clear_line(g, fx, fy, x, y)) by {
        lemma_ray_closed_form(g, fx, fy, r[i].0 as int, r[i].1 as int, x, y);
        lemma_reaches_along_aligned(g, fx, fy, r[i].0 as int, r[i].1 as int, x, y);
    }
    assert forall|i: int| 0 <= i < 4 implies ray_attacks(
        g, fx + (#[trigger] b[i]).0, fy + b[i].1, b[i].0 as int, b[i].1 as int, x, y,
    ) == (sign(x - fx) == b[i].0 && sign(y - fy) == b[i].1 && gap(x, fx) == gap(y, fy)
        && clear_line(g, fx, fy, x, y)) by {
        lemma_ray_closed_form(g, fx, fy, b[i].0 as int, b[i].1 as int, x, y);
        lemma_reaches_along_aligned(g, fx, fy, b[i].0 as int, b[i].1 as int, x, y);
    }
    if (x == fx) != (y == fy) && clear_line(g, fx, fy, x, y) {
        if x > fx { assert(ray_attacks(g, fx + r[0].0, fy + r[0].1, r[0].0 as int, r[0].1 as int, x, y)); }
        else if x < fx { assert(ray_attacks(g, fx + r[1].0, fy + r[1].1, r[1].0 as int, r[1].1 as int, x, y)); }
        else if y > fy { assert(ray_attacks(g, fx + r[2].0, fy + r[2].1, r[2].0 as int, r[2].1 as int, x, y)); }
        else { assert(ray_attacks(g, fx + r[3].0, fy + r[3].1, r[3].0 as int, r[3].1 as int, x, y)); }
    }
    if gap(x, fx) == gap(y, fy) && x != fx && clear_line(g, fx, fy, x, y) {
        if x > fx && y > fy { assert(ray_attacks(g, fx + b[0].0, fy + b[0].1, b[0].0 as int, b[0].1 as int, x, y)); }
        else if x > fx { assert(ray_attacks(g, fx + b[1].0, fy + b[1].1, b[1].0 as int, b[1].1 as int, x, y)); }
        else if y > fy { assert(ray_attacks(g, fx + b[2].0, fy + b[2].1, b[2].0 as int, b[2].1 as int, x, y)); }
        else { assert(ray_attacks(g, fx + b[3].0, fy + b[3].1, b[3].0 as int, b[3].1 as int, x, y)); }
    }
    lemma_queen_is_rook_or_bishop(g, c, fx, fy, x, y);
}

proof fn lemma_contains_concat(a: Seq<Move>, b: Seq<Move>, mv: Move)
    ensures
        a.contains(mv) ==> (a + b).contains(mv),
        b.contains(mv) ==> (a + b).contains(mv),
{
    if a.contains(mv) {
        let i = choose|i: int| 0 <= i < a.len() && a[i] == mv;
        assert((a + b)[i] == mv);
    }
    if b.contains(mv) {
        let i = choose|i: int| 0 <= i < b.len() && b[i] == mv;
        assert((a + b)[a.len() + i] == mv);
    }
}

/// The move of a piece of kind `pt` of `c` from `from` to `(x, y)`, capturing what stands
/// there, without promotion.
pub open spec fn plain_move(g: Grid, from: (usize, usize), pt: PieceType, x: int, y: int) -> Move {
    Move { from, to: (x as usize, y as usize), piece: pt, captured: at(g, x, y), promotion: None }
}

/// `(x, y)` does not hold a piece of `c`.
pub open spec fn not_own(g: Grid, c: Color, x: int, y: int) -> bool {
    !(at(g, x, y) matches Some(t) && t.color == c)
}

proof fn lemma_jump_moves_complete(
    g: Grid,
    from: (usize, usize),
    c: Color,
    pt: PieceType,
    offs: Seq<(i32, i32)>,
    x: int,
    y: int,
)
    requires
        from.0 < 14,
        from.1 < 14,
        jump_attacks(from.0 as int, from.1 as int, offs, x, y),
        not_own(g, c, x, y),
    ensures
        jump_moves(g, from, c, pt, offs).contains(plain_move(g, from, pt, x, y)),
    decreases offs.len(),
{
    let i = choose|i: int|
        0 <= i < offs.len() && from.0 + (#[trigger] offs[i]).0 == x && from.1 + offs[i].1 == y && valid_square(x, y);
    let prefix = offs.drop_last();
    let rest = jump_moves(g, from, c, pt, prefix);
    let last = jump_move(g, from, c, pt, offs.last());
    if i == offs.len() - 1 {
        assert(last[0] == plain_move(g, from, pt, x, y));
        lemma_contains_concat(rest, last, plain_move(g, from, pt, x, y));
    } else {
        assert(prefix[i] == offs[i]);
        lemma_jump_moves_complete(g, from, c, pt, prefix, x, y);
        lemma_contains_concat(rest, last, plain_move(g, from, pt, x, y));
    }
}

proof fn lemma_ray_moves_complete(
    g: Grid,
    from: (usize, usize),
    c: Color,
    pt: PieceType,
    nx: int,
    ny: int,
    dx: int,
    dy: int,
    x: int,
    y: int,
)
    requires
        ray_attacks(g, nx, ny, dx, dy, x, y),
        not_own(g, c, x, y),
    ensures
        ray_moves(g, from, c, pt, nx, ny, dx, dy).contains(plain_move(g, from, pt, x, y)),
    decreases room(nx, dx) + room(ny, dy),
{
    let s = ray_moves(g, from, c, pt, nx, ny, dx, dy);
    if nx == x && ny == y {
        assert(s[0] == plain_move(g, from, pt, x, y));
    } else {
        lemma_ray_moves_complete(g, from, c, pt, nx + dx, ny + dy, dx, dy, x, y);
        let head = seq![Move { from, to: (nx as usize, ny as usize), piece: pt, captured: None, promotion: None }];
        lemma_contains_concat(head, ray_moves(g, from, c, pt, nx + dx, ny + dy, dx, dy), plain_move(g, from, pt, x, y));
    }
}

proof fn lemma_slide_moves_complete(
    g: Grid,
    from: (usize, usize),
    c: Color,
    pt: PieceType,
    dirs: Seq<(i32, i32)>,
    x: int,
    y: int,
)
    requires
        slide_attacks(g, from.0 as int, from.1 as int, dirs, x, y),
        not_own(g, c, x, y),
    ensures
        slide_moves(g, from, c, pt, dirs).contains(plain_move(g, from, pt, x, y)),
    decreases dirs.len(),
{
    let i = choose|i: int|
        0 <= i < dirs.len() && ray_attacks(
            g, from.0 + (#[trigger] dirs[i]).0, from.1 + dirs[i].1, dirs[i].0 as int, dirs[i].1 as int, x, y,
        );
    let prefix = dirs.drop_last();
    let d = dirs.last();
    let rest = slide_moves(g, from, c, pt, prefix);
    let last = ray_moves(g, from, c, pt, from.0 + d.0, from.1 + d.1, d.0 as int, d.1 as int);
    if i == dirs.len() - 1 {
        lemma_ray_moves_complete(g, from, c, pt, from.0 + d.0, from.1 + d.1, d.0 as int, d.1 as int, x, y);
    } else {
        assert(prefix[i] == dirs[i]);
        lemma_slide_moves_complete(g, from, c, pt, prefix, x, y);
    }
    lemma_contains_concat(rest, last, plain_move(g, from, pt, x, y));
}

proof fn lemma_square_in_pseudo(g: Grid, c: Color, fx: int, fy: int, mv: Move)
    requires
        0 <= fx < 14,
        0 <= fy < 14,
        square_moves(g, c, fx, fy).contains(mv),
    ensures
        pseudo_legal_moves(g, c).contains(mv),
{
    assert forall|n: int| fx < n <= 14 implies #[trigger] row_moves(g, c, fy, n).contains(mv) by {
        lemma_row_contains(g, c, fx, fy, n, mv);
    }
    assert forall|m: int| fy < m <= 14 implies #[trigger] rows_moves(g, c, m).contains(mv) by {
        lemma_rows_contains(g, c, fx, fy, m, mv);
    }
}

proof fn lemma_row_contains(g: Grid, c: Color, fx: int, fy: int, n: int, mv: Move)
    requires
        0 <= fx < n,
        square_moves(g, c, fx, fy).contains(mv),
    ensures
        row_moves(g, c, fy, n).contains(mv),
    decreases n,
{
    if fx < n - 1 {
        lemma_row_contains(g, c, fx, fy, n - 1, mv);
    }
    lemma_contains_concat(row_moves(g, c, fy, n - 1), square_moves(g, c, n - 1, fy), mv);
}

proof fn lemma_rows_contains(g: Grid, c: Color, fx: int, fy: int, m: int, mv: Move)
    requires
        0 <= fx < 14,
        0 <= fy < m,
        square_moves(g, c, fx, fy).contains(mv),
    ensures
        rows_moves(g, c, m).contains(mv),
    decreases m,
{
    if fy < m - 1 {
        lemma_rows_contains(g, c, fx, fy, m - 1, mv);
    } else {
        lemma_row_contains(g, c, fx, fy, 14, mv);
    }
    lemma_contains_concat(rows_moves(g, c, m - 1), row_moves(g, c, m - 1, 14), mv);
}

/// No move of a knight, bishop, rook, queen or king is missing: for every square such a
/// piece of `c` strikes that does not hold a piece of `c`, the pseudo-legal moves of `c`
/// include the move there, capturing what stands there.
pub proof fn lemma_piece_moves_complete(g: Grid, c: Color, fx: int, fy: int, pt: PieceType, x: int, y: int)
    requires
        0 <= fx < 14,
        0 <= fy < 14,
        pt != PieceType::Pawn,
        at(g, fx, fy) == Some(Piece { color: c, piece_type: pt }),
        piece_attacks(g, pt, c, fx, fy, x, y),
        not_own(g, c, x, y),
    ensures
        pseudo_legal_moves(g, c).contains(plain_move(g, (fx as usize, fy as usize), pt, x, y)),
{
    let from = (fx as usize, fy as usize);
    match pt {
        PieceType::Knight => lemma_jump_moves_complete(g, from, c, pt, knight_offsets(), x, y),
        PieceType::King => lemma_jump_moves_complete(g, from, c, pt, king_offsets(), x, y),
        PieceType::Bishop => lemma_slide_moves_complete(g, from, c, pt, bishop_dirs(), x, y),
        PieceType::Rook => lemma_slide_moves_complete(g, from, c, pt, rook_dirs(), x, y),
        PieceType::Queen => lemma_slide_moves_complete(g, from, c, pt, queen_dirs(), x, y),
        PieceType::Pawn => {},
    }
    lemma_square_in_pseudo(g, c, fx, fy, plain_move(g, from, pt, x, y));
}

/// No pawn move is missing: a pawn of `c` moves one square ahead onto an empty valid
/// square (promoting there if it is a promotion square), two squares ahead from its starting
/// line when both squares are valid and empty, and captures every enemy piece on a valid
/// square it strikes (promoting there if it is a promotion square).
pub proof fn lemma_pawn_moves_complete(g: Grid, c: Color, fx: int, fy: int)
    requires
        0 <= fx < 14,
        0 <= fy < 14,
        at(g, fx, fy) == Some(Piece { color: c, piece_type: PieceType::Pawn }),
    ensures
        ({
            let from = (fx as usize, fy as usize);
            let ox = fx + forward(c).0;
            let oy = fy + forward(c).1;
            let tx = fx + 2 * forward(c).0;
            let ty = fy + 2 * forward(c).1;
            &&& valid_square(ox, oy) && at(g, ox, oy) is None ==> pseudo_legal_moves(g, c).contains(
                Move { from, to: (ox as usize, oy as usize), piece: PieceType::Pawn, captured: None, promotion: promotion_for(ox, oy, c) },
            )
            &&& valid_square(ox, oy) && at(g, ox, oy) is None && on_start_line(fx, fy, c) && valid_square(tx, ty)
                && at(g, tx, ty) is None ==> pseudo_legal_moves(g, c).contains(
                Move { from, to: (tx as usize, ty as usize), piece: PieceType::Pawn, captured: None, promotion: None },
            )
        }),
        forall|x: int, y: int|
            #[trigger] pawn_attacks(fx, fy, c, x, y) && valid_square(x, y) && at(g, x, y) is Some && at(g, x, y).unwrap().color
                != c ==> pseudo_legal_moves(g, c).contains(
                Move {
                    from: (fx as usize, fy as usize),
                    to: (x as usize, y as usize),
                    piece: PieceType::Pawn,
                    captured: at(g, x, y),
                    promotion: promotion_for(x, y, c),
                },
            ),
{
    let from = (fx as usize, fy as usize);
    let f = forward(c);
    let ox = fx + f.0;
    let oy = fy + f.1;
    let tx = fx + 2 * f.0;
    let ty = fy + 2 * f.1;
    let pushes = pawn_pushes(g, from, c);
    let diags = pawn_diagonals(fx, fy, c);
    let caps = pawn_captures(g, from, c, diags);
    let one = Move { from, to: (ox as usize, oy as usize), piece: PieceType::Pawn, captured: None, promotion: promotion_for(ox, oy, c) };
    let two = Move { from, to: (tx as usize, ty as usize), piece: PieceType::Pawn, captured: None, promotion: None };
    if valid_square(ox, oy) && at(g, ox, oy) is None {
        assert(pushes[0] == one);
        lemma_contains_concat(pushes, caps, one);
        lemma_square_in_pseudo(g, c, fx, fy, one);
        if on_start_line(fx, fy, c) && valid_square(tx, ty) && at(g, tx, ty) is None {
            assert(pushes[1] == two);
            lemma_contains_concat(pushes, caps, two);
            lemma_square_in_pseudo(g, c, fx, fy, two);
        }
    }
    assert forall|x: int, y: int|
        #[trigger] pawn_attacks(fx, fy, c, x, y) && valid_square(x, y) && at(g, x, y) is Some && at(g, x, y).unwrap().color
            != c implies pseudo_legal_moves(g, c).contains(
            Move {
                from,
                to: (x as usize, y as usize),
                piece: PieceType::Pawn,
                captured: at(g, x, y),
                promotion: promotion_for(x, y, c),
            },
        ) by {
        let mv = Move { from, to: (x as usize, y as usize), piece: PieceType::Pawn, captured: at(g, x, y), promotion: promotion_for(x, y, c) };
        let first = pawn_captures(g, from, c, diags.drop_last());
        assert(diags.drop_last().drop_last() =~= Seq::<(i32, i32)>::empty());
        assert(diags.drop_last().last() == diags[0]);
        let c0 = pawn_capture(g, from, c, diags[0].0 as int, diags[0].1 as int);
        let c1 = pawn_capture(g, from, c, diags[1].0 as int, diags[1].1 as int);
        let dd = diags.drop_last();
        assert(dd.len() == 1);
        assert(pawn_captures(g, from, c, dd.drop_last()) == Seq::<Move>::empty());
        assert(first == pawn_captures(g, from, c, dd.drop_last()) + c0);
        assert(first =~= c0);
        assert(caps == first + c1);
        if x == diags[0].0 && y == diags[0].1 {
            assert(c0[0] == mv);
            lemma_contains_concat(first, c1, mv);
        } else {
            assert(c1[0] == mv);
            lemma_contains_concat(first, c1, mv);
        }
        lemma_contains_concat(pushes, caps, mv);
        lemma_square_in_pseudo(g, c, fx, fy, mv);
    }
}

/// Every move of `s` starts on `from`.
pub open spec fn all_from(s: Seq<Move>, from: (usize, usize)) -> bool {
    forall|i: int| 0 <= i < s.len() ==> (#[trigger] s[i]).from == from
}

/// `a` starts on a square that comes no later than `b`'s in row-major order.
pub open spec fn origin_no_later(a: Move, b: Move) -> bool {
    a.from.1 < b.from.1 || (a.from.1 == b.from.1 && a.from.0 <= b.from.0)
}

/// The moves of `s` come in row-major order of their origins.
pub open spec fn ordered_by_origin(s: Seq<Move>) -> bool {
    forall|i: int, j: int| 0 <= i < j < s.len() ==> origin_no_later(#[trigger] s[i], #[trigger] s[j])
}

proof fn lemma_all_from_concat(a: Seq<Move>, b: Seq<Move>, from: (usize, usize))
    requires
        all_from(a, from),
        all_from(b, from),
    ensures
        all_from(a + b, from),
{
    assert forall|i: int| 0 <= i < (a + b).len() implies (#[trigger] (a + b)[i]).from == from by {
        if i < a.len() {
            assert((a + b)[i] == a[i]);
        } else {
            assert((a + b)[i] == b[i - a.len()]);
        }
    }
}

proof fn lemma_jump_moves_from(g: Grid, from: (usize, usize), c: Color, pt: PieceType, offs: Seq<(i32, i32)>)
    ensures
        all_from(jump_moves(g, from, c, pt, offs), from),
    decreases offs.len(),
{
    if offs.len() > 0 {
        lemma_jump_moves_from(g, from, c, pt, offs.drop_last());
        lemma_all_from_concat(jump_moves(g, from, c, pt, offs.drop_last()), jump_move(g, from, c, pt, offs.last()), from);
    }
}

proof fn lemma_ray_moves_from(g: Grid, from: (usize, usize), c: Color, pt: PieceType, nx: int, ny: int, dx: int, dy: int)
    ensures
        all_from(ray_moves(g, from, c, pt, nx, ny, dx, dy), from),
    decreases room(nx, dx) + room(ny, dy),
{
    if valid_square(nx, ny) && at(g, nx, ny) is None && !(dx == 0 && dy == 0) {
        lemma_ray_moves_from(g, from, c, pt, nx + dx, ny + dy, dx, dy);
        let head = seq![Move { from, to: (nx as usize, ny as usize), piece: pt, captured: None, promotion: None }];
        lemma_all_from_concat(head, ray_moves(g, from, c, pt, nx + dx, ny + dy, dx, dy), from);
    }
}

proof fn lemma_slide_moves_from(g: Grid, from: (usize, usize), c: Color, pt: PieceType, dirs: Seq<(i32, i32)>)
    ensures
        all_from(slide_moves(g, from, c, pt, dirs), from),
    decreases dirs.len(),
{
    if dirs.len() > 0 {
        let d = dirs.last();
        lemma_slide_moves_from(g, from, c, pt, dirs.drop_last());
        lemma_ray_moves_from(g, from, c, pt, from.0 + d.0, from.1 + d.1, d.0 as int, d.1 as int);
        lemma_all_from_concat(
            slide_moves(g, from, c, pt, dirs.drop_last()),
            ray_moves(g, from, c, pt, from.0 + d.0, from.1 + d.1, d.0 as int, d.1 as int),
            from,
        );
    }
}

proof fn lemma_pawn_captures_from(g: Grid, from: (usize, usize), c: Color, targets: Seq<(i32, i32)>)
    ensures
        all_from(pawn_captures(g, from, c, targets), from),
    decreases targets.len(),
{
    if targets.len() > 0 {
        lemma_pawn_captures_from(g, from, c, targets.drop_last());
        lemma_all_from_concat(
            pawn_captures(g, from, c, targets.drop_last()),
            pawn_capture(g, from, c, targets.last().0 as int, targets.last().1 as int),
            from,
        );
    }
}

proof fn lemma_square_moves_from(g: Grid, c: Color, x: int, y: int)
    requires
        0 <= x < 14,
        0 <= y < 14,
    ensures
        all_from(square_moves(g, c, x, y), (x as usize, y as usize)),
{
    let from = (x as usize, y as usize);
    if let Some(p) = at(g, x, y) {
        if p.color == c {
            match p.piece_type {
                PieceType::Pawn => {
                    let diags = pawn_diagonals((from.0 as i32) as int, (from.1 as i32) as int, c);
                    lemma_pawn_captures_from(g, from, c, diags);
                    assert(all_from(pawn_pushes(g, from, c), from));
                    lemma_all_from_concat(pawn_pushes(g, from, c), pawn_captures(g, from, c, diags), from);
                },
                PieceType::Knight => lemma_jump_moves_from(g, from, c, p.piece_type, knight_offsets()),
                PieceType::Bishop => lemma_slide_moves_from(g, from, c, p.piece_type, bishop_dirs()),
                PieceType::Rook => lemma_slide_moves_from(g, from, c, p.piece_type, rook_dirs()),
                PieceType::Queen => lemma_slide_moves_from(g, from, c, p.piece_type, queen_dirs()),
                PieceType::King => lemma_jump_moves_from(g, from, c, p.piece_type, king_offsets()),
            }
        }
    }
}

proof fn lemma_row_moves_ordered(g: Grid, c: Color, y: int, n: int)
    requires
        0 <= y < 14,
        n <= 14,
    ensures
        ordered_by_origin(row_moves(g, c, y, n)),
        forall|i: int|
            0 <= i < row_moves(g, c, y, n).len() ==> (#[trigger] row_moves(g, c, y, n)[i]).from.1 == y
                && row_moves(g, c, y, n)[i].from.0 < n,
    decreases n,
{
    if n > 0 {
        lemma_row_moves_ordered(g, c, y, n - 1);
        lemma_square_moves_from(g, c, n - 1, y);
        let a = row_moves(g, c, y, n - 1);
        let b = square_moves(g, c, n - 1, y);
        assert(row_moves(g, c, y, n) == a + b);
        assert forall|i: int| 0 <= i < (a + b).len() implies (#[trigger] (a + b)[i]).from.1 == y && (a + b)[i].from.0 < n by {
            if i < a.len() {
                assert((a + b)[i] == a[i]);
            } else {
                assert((a + b)[i] == b[i - a.len()]);
            }
        }
        assert forall|i: int, j: int| 0 <= i < j < (a + b).len() implies origin_no_later(#[trigger] (a + b)[i], #[trigger] (a + b)[j]) by {
            if j < a.len() {
                assert((a + b)[i] == a[i] && (a + b)[j] == a[j]);
            } else if i < a.len() {
                assert((a + b)[i] == a[i] && (a + b)[j] == b[j - a.len()]);
            } else {
                assert((a + b)[i] == b[i - a.len()] && (a + b)[j] == b[j - a.len()]);
            }
        }
    }
}

proof fn lemma_rows_moves_ordered(g: Grid, c: Color, m: int)
    requires
        m <= 14,
    ensures
        ordered_by_origin(rows_moves(g, c, m)),
        forall|i: int| 0 <= i < rows_moves(g, c, m).len() ==> (#[trigger] rows_moves(g, c, m)[i]).from.1 < m,
    decreases m,
{
    if m > 0 {
        lemma_rows_moves_ordered(g, c, m - 1);
        lemma_row_moves_ordered(g, c, m - 1, 14);
        let a = rows_moves(g, c, m - 1);
        let b = row_moves(g, c, m - 1, 14);
        assert(rows_moves(g, c, m) == a + b);
        assert forall|i: int| 0 <= i < (a + b).len() implies (#[trigger] (a + b)[i]).from.1 < m by {
            if i < a.len() {
                assert((a + b)[i] == a[i]);
            } else {
                assert((a + b)[i] == b[i - a.len()]);
            }
        }
        assert forall|i: int, j: int| 0 <= i < j < (a + b).len() implies origin_no_later(#[trigger] (a + b)[i], #[trigger] (a + b)[j]) by {
            if j < a.len() {
                assert((a + b)[i] == a[i] && (a + b)[j] == a[j]);
            } else if i < a.len() {
                assert((a + b)[i] == a[i] && (a + b)[j] == b[j - a.len()]);
            } else {
                assert((a + b)[i] == b[i - a.len()] && (a + b)[j] == b[j - a.len()]);
            }
        }
    }
}

/// The pseudo-legal moves come grouped by origin, the origins in row-major order (rows from
/// the top, then columns from the left).
pub proof fn lemma_pseudo_legal_moves_ordered(g: Grid, c: Color)
    ensures
        ordered_by_origin(pseudo_legal_moves(g, c)),
{
    lemma_rows_moves_ordered(g, c, 14);
}

proof fn lemma_filter_ordered(s: Seq<Move>, p: spec_fn(Move) -> bool)
    requires
        ordered_by_origin(s),
    ensures
        ordered_by_origin(s.filter(p)),
    decreases s.len(),
{
    reveal_with_fuel(Seq::<_>::filter, 1);
    if s.len() > 0 {
        let rest = s.drop_last();
        assert forall|i: int, j: int| 0 <= i < j < rest.len() implies origin_no_later(#[trigger] rest[i], #[trigger] rest[j]) by {
            assert(rest[i] == s[i] && rest[j] == s[j]);
        }
        lemma_filter_ordered(rest, p);
        let fr = rest.filter(p);
        if p(s.last()) {
            assert forall|i: int| 0 <= i < fr.len() implies origin_no_later(#[trigger] fr[i], s.last()) by {
                assert(fr.contains(fr[i]));
                rest.lemma_filter_contains_rev(p, fr[i]);
                let k = choose|k: int| 0 <= k < rest.len() && rest[k] == fr[i];
                assert(s[k] == rest[k]);
                assert(origin_no_later(s[k], s[s.len() - 1]));
            }
            let out = fr.push(s.last());
            assert forall|i: int, j: int| 0 <= i < j < out.len() implies origin_no_later(#[trigger] out[i], #[trigger] out[j]) by {
                if j < fr.len() {
                    assert(out[i] == fr[i] && out[j] == fr[j]);
                } else {
                    assert(out[i] == fr[i] && out[j] == s.last());
                }
            }
        }
    }
}

/// The legal moves keep the row-major order of their origins.
pub proof fn lemma_legal_moves_ordered(g: Grid, c: Color)
    ensures
        ordered_by_origin(legal_moves(g, c)),
{
    lemma_pseudo_legal_moves_ordered(g, c);
    lemma_filter_ordered(pseudo_legal_moves(g, c), keeps_king_safe(g, c));
}

/// Pawns advance one square along a single axis, and the next side's pawns advance in this
/// side's direction turned by a quarter turn: `(dx, dy)` becomes `(-dy, dx)`.
pub proof fn lemma_forward_rotates(c: Color)
    ensures
        forward(c).0 * forward(c).0 + forward(c).1 * forward(c).1 == 1,
        forward(next_color(c)).0 == -forward(c).1,
        forward(next_color(c)).1 == forward(c).0,
{
}

/// `g` has 14 rows of 14 squares, as every board has.
pub open spec fn is_full_grid(g: Grid) -> bool {
    &&& g.len() == 14
    &&& forall|i: int| 0 <= i < 14 ==> (#[trigger] g[i]).len() == 14
}

/// A slide that has already passed `(x, y)` on some moving axis never comes back to it.
proof fn lemma_ray_never_back(g: Grid, nx: int, ny: int, dx: int, dy: int, x: int, y: int)
    requires
        (dx > 0 && x < nx) || (dx < 0 && x > nx) || (dy > 0 && y < ny) || (dy < 0 && y > ny),
    ensures
        !ray_attacks(g, nx, ny, dx, dy, x, y),
    decreases room(nx, dx) + room(ny, dy),
{
    if is_unit_dir(dx, dy) && valid_square(nx, ny) && at(g, nx, ny) is None {
        lemma_ray_never_back(g, nx + dx, ny + dy, dx, dy, x, y);
    }
}

/// What stands on `(x, y)` does not change whether a slide reaches `(x, y)`.
proof fn lemma_ray_ignores_target(g: Grid, v: Option<Piece>, nx: int, ny: int, dx: int, dy: int, x: int, y: int)
    requires
        is_full_grid(g),
        0 <= x < 14,
        0 <= y < 14,
    ensures
        ray_attacks(set_square(g, x, y, v), nx, ny, dx, dy, x, y) == ray_attacks(g, nx, ny, dx, dy, x, y),
    decreases room(nx, dx) + room(ny, dy),
{
    let g2 = set_square(g, x, y, v);
    if is_unit_dir(dx, dy) && valid_square(nx, ny) && !(nx == x && ny == y) {
        assert(at(g2, nx, ny) == at(g, nx, ny));
        lemma_ray_ignores_target(g, v, nx + dx, ny + dy, dx, dy, x, y);
    }
}

/// Whether `(x, y)` is attacked does not depend on what stands on it: setting any value on
/// the target square leaves the answer unchanged for every side.
#[verifier::rlimit(30)]
pub proof fn lemma_attack_ignores_target(g: Grid, x: int, y: int, v: Option<Piece>, c: Color)
    requires
        is_full_grid(g),
        0 <= x < 14,
        0 <= y < 14,
    ensures
        square_attacked(set_square(g, x, y, v), x, y, c) == square_attacked(g, x, y, c),
{
    let g2 = set_square(g, x, y, v);
    assert forall|fx: int, fy: int| 0 <= fx < 14 && 0 <= fy < 14 implies
        #[trigger] attacks_from(g2, c, fx, fy, x, y) == attacks_from(g, c, fx, fy, x, y) by {
        // Rays through the target stop there before looking at what it holds.
        assert forall|i: int| 0 <= i < queen_dirs().len() implies ray_attacks(
            g2, fx + (#[trigger] queen_dirs()[i]).0, fy + queen_dirs()[i].1,
            queen_dirs()[i].0 as int, queen_dirs()[i].1 as int, x, y,
        ) == ray_attacks(
            g, fx + queen_dirs()[i].0, fy + queen_dirs()[i].1,
            queen_dirs()[i].0 as int, queen_dirs()[i].1 as int, x, y,
        ) by {
            lemma_ray_ignores_target(
                g, v, fx + queen_dirs()[i].0, fy + queen_dirs()[i].1,
                queen_dirs()[i].0 as int, queen_dirs()[i].1 as int, x, y,
            );
        }
        assert(bishop_dirs() =~= queen_dirs().subrange(0, 4));
        assert(rook_dirs() =~= queen_dirs().subrange(4, 8));
        assert forall|i: int| 0 <= i < 4 implies #[trigger] bishop_dirs()[i] == queen_dirs()[i]
            && rook_dirs()[i] == queen_dirs()[i + 4] by {}
        if fx == x && fy == y {
            // No piece strikes its own square.
            assert forall|i: int| 0 <= i < queen_dirs().len() implies !ray_attacks(
                g, fx + (#[trigger] queen_dirs()[i]).0, fy + queen_dirs()[i].1,
                queen_dirs()[i].0 as int, queen_dirs()[i].1 as int, x, y,
            ) by {
                lemma_ray_never_back(
                    g, fx + queen_dirs()[i].0, fy + queen_dirs()[i].1,
                    queen_dirs()[i].0 as int, queen_dirs()[i].1 as int, x, y,
                );
            }
            assert forall|i: int| 0 <= i < 8 implies (#[trigger] knight_offsets()[i]).0 != 0 || knight_offsets()[i].1 != 0 by {}
            assert forall|i: int| 0 <= i < 8 implies (#[trigger] king_offsets()[i]).0 != 0 || king_offsets()[i].1 != 0 by {}
            assert(!attacks_from(g, c, fx, fy, x, y));
            assert(!attacks_from(g2, c, fx, fy, x, y));
        } else {
            assert(at(g2, fx, fy) == at(g, fx, fy));
        }
    }
    if square_attacked(g, x, y, c) {
        let (fx, fy) = choose|fx: int, fy: int| 0 <= fx < 14 && 0 <= fy < 14 && #[trigger] attacks_from(g, c, fx, fy, x, y);
        assert(attacks_from(g2, c, fx, fy, x, y));
    }
    if square_attacked(g2, x, y, c) {
        let (fx, fy) = choose|fx: int, fy: int| 0 <= fx < 14 && 0 <= fy < 14 && #[trigger] attacks_from(g2, c, fx, fy, x, y);
        assert(attacks_from(g, c, fx, fy, x, y));
    }
}

/// Every board, seen as a grid, has 14 rows of 14 squares.
pub proof fn lemma_board_grid_is_full(b: Board)
    ensures
        is_full_grid(grid(b)),
{
}

/// Two first kings of one side stand on the same square.
proof fn lemma_first_king_unique(g: Grid, c: Color, kx: int, ky: int)
    requires
        first_king(g, c, kx, ky),
    ensures
        forall|ax: int, ay: int| #[trigger] first_king(g, c, ax, ay) ==> ax == kx && ay == ky,
{
    assert forall|ax: int, ay: int| #[trigger] first_king(g, c, ax, ay) implies ax == kx && ay == ky by {
        if ay < ky || (ay == ky && ax < kx) {
            assert(!is_king_of(at(g, ax, ay), c));
        } else if ky < ay || (ky == ay && kx < ax) {
            assert(!is_king_of(at(g, kx, ky), c));
        }
    }
}

impl Color {
    pub fn next(&self) -> (r: Color)
        ensures
            r == next_color(*self),
    {
        match self {
            Color::Red => Color::Blue,
            Color::Blue => Color::Yellow,
            Color::Yellow => Color::Green,
            Color::Green => Color::Red,
        }
    }
}

impl GameState {
    /// The starting position, Red to move.
    pub fn new() -> (s: Self)
        ensures
            s.turn == Color::Red,
            forall|x: int, y: int|
                0 <= x < 14 && 0 <= y < 14 ==> #[trigger] at(grid(s.board), x, y)
                    == initial_square(x, y),
    {
        let mut board: Board = [[None; 14]; 14];
        let red_back = [
            PieceType::Rook, PieceType::Knight, PieceType::Bishop, PieceType::Queen,
            PieceType::King, PieceType::Bishop, PieceType::Knight, PieceType::Rook,
        ];
        assert(red_back@ =~= red_back_rank());
        assert(board_set_up(board, 0, 0));
        for i in 0..8
            invariant
                red_back@ == red_back_rank(),
                board_set_up(board, 0, i as int),
        {
            board[13][3 + i] = Some(Piece { color: Color::Red, piece_type: red_back[i] });
            board[12][3 + i] = Some(Piece { color: Color::Red, piece_type: PieceType::Pawn });
        }
        for i in 0..8
            invariant
                red_back@ == red_back_rank(),
                board_set_up(board, 1, i as int),
        {
            board[0][3 + i] = Some(Piece { color: Color::Yellow, piece_type: red_back[i] });
            board[1][3 + i] = Some(Piece { color: Color::Yellow, piece_type: PieceType::Pawn });
        }
        let blue_back = [
            PieceType::Rook, PieceType::Knight, PieceType::Bishop, PieceType::King,
            PieceType::Queen, PieceType::Bishop, PieceType::Knight, PieceType::Rook,
        ];
        assert(blue_back@ =~= blue_back_rank());
        for i in 0..8
            invariant
                blue_back@ == blue_back_rank(),
                board_set_up(board, 2, i as int),
        {
            board[3 + i][0] = Some(Piece { color: Color::Blue, piece_type: blue_back[i] });
            board[3 + i][1] = Some(Piece { color: Color::Blue, piece_type: PieceType::Pawn });
        }
        for i in 0..8
            invariant
                blue_back@ == blue_back_rank(),
                board_set_up(board, 3, i as int),
        {
            board[3 + i][13] = Some(Piece { color: Color::Green, piece_type: blue_back[i] });
            board[3 + i][12] = Some(Piece { color: Color::Green, piece_type: PieceType::Pawn });
        }
        GameState { board, turn: Color::Red }
    }

    /// Whether `(x, y)` is a square of the game.
    pub fn is_valid_square(x: i32, y: i32) -> (r: bool)
        ensures
            r == valid_square(x as int, y as int),
    {
        if x < 0 || x > 13 || y < 0 || y > 13 {
            return false;
        }
        let in_x_wings = x < 3 || x > 10;
        let in_y_wings = y < 3 || y > 10;
        !(in_x_wings && in_y_wings)
    }

    fn get_forward_vector(&self, color: Color) -> (r: (i32, i32))
        ensures
            r == forward(color),
    {
        match color {
            Color::Red => (0, -1),
            Color::Yellow => (0, 1),
            Color::Blue => (1, 0),
            Color::Green => (-1, 0),
        }
    }

    fn is_promotion_square(x: i32, y: i32, color: Color) -> (r: bool)
        ensures
            r == promotion_square(x as int, y as int, color),
    {
        match color {
            Color::Red => y == 3,
            Color::Yellow => y == 10,
            Color::Blue => x == 10,
            Color::Green => x == 3,
        }
    }
    /// Walks from `(nx, ny)` in direction `(dx, dy)` while on valid squares: true when it
    /// meets `(x, y)`, false when it meets a piece first or leaves the game.
    fn ray_reaches(&self, sx: i32, sy: i32, dx: i32, dy: i32, x: i32, y: i32) -> (r: bool)
        requires
            is_unit_dir(dx as int, dy as int),
            -1 <= sx <= 14,
            -1 <= sy <= 14,
        ensures
            r == ray_attacks(grid(self.board), sx as int, sy as int, dx as int, dy as int, x as int, y as int),
    {
        let ghost g = grid(self.board);
        let mut nx = sx;
        let mut ny = sy;
        while Self::is_valid_square(nx, ny)
            invariant
                g == grid(self.board),
                is_unit_dir(dx as int, dy as int),
                -1 <= nx <= 14,
                -1 <= ny <= 14,
                ray_attacks(g, nx as int, ny as int, dx as int, dy as int, x as int, y as int)
                    == ray_attacks(g, sx as int, sy as int, dx as int, dy as int, x as int, y as int),
            decreases room(nx as int, dx as int) + room(ny as int, dy as int),
        {
            if nx == x && ny == y {
                return true;
            }
            if self.board[ny as usize][nx as usize].is_some() {
                return false;
            }
            nx += dx;
            ny += dy;
        }
        false
    }
    /// Whether a piece on `from` that jumps by one of `offsets` lands on the valid square `(x, y)`.
    fn jumps_to(from: (usize, usize), offsets: &[(i32, i32)], x: i32, y: i32) -> (r: bool)
        requires
            from.0 < 14,
            from.1 < 14,
            forall|i: int| 0 <= i < offsets@.len() ==> -2 <= (#[trigger] offsets@[i]).0 <= 2 && -2 <= offsets@[i].1 <= 2,
        ensures
            r == jump_attacks(from.0 as int, from.1 as int, offsets@, x as int, y as int),
    {
        let n = offsets.len();
        for k in 0..n
            invariant
                n == offsets@.len(),
                from.0 < 14,
                from.1 < 14,
                forall|i: int| 0 <= i < offsets@.len() ==> -2 <= (#[trigger] offsets@[i]).0 <= 2 && -2 <= offsets@[i].1 <= 2,
                forall|j: int|
                    0 <= j < k ==> !(from.0 + (#[trigger] offsets@[j]).0 == x && from.1 + offsets@[j].1 == y
                        && valid_square(x as int, y as int)),
        {
            let (dx, dy) = offsets[k];
            let nx = from.0 as i32 + dx;
            let ny = from.1 as i32 + dy;
            if nx == x && ny == y && Self::is_valid_square(nx, ny) {
                return true;
            }
        }
        false
    }

    /// Whether a piece on `from` that slides along one of `directions` reaches `(x, y)`.
    fn slides_to(&self, from: (usize, usize), directions: &[(i32, i32)], x: i32, y: i32) -> (r: bool)
        requires
            from.0 < 14,
            from.1 < 14,
            forall|i: int| 0 <= i < directions@.len() ==> is_unit_dir((#[trigger] directions@[i]).0 as int, directions@[i].1 as int),
        ensures
            r == slide_attacks(grid(self.board), from.0 as int, from.1 as int, directions@, x as int, y as int),
    {
        let n = directions.len();
        for k in 0..n
            invariant
                n == directions@.len(),
                from.0 < 14,
                from.1 < 14,
                forall|i: int| 0 <= i < directions@.len() ==> is_unit_dir((#[trigger] directions@[i]).0 as int, directions@[i].1 as int),
                forall|j: int|
                    0 <= j < k ==> !ray_attacks(
                        grid(self.board),
                        from.0 + (#[trigger] directions@[j]).0,
                        from.1 + directions@[j].1,
                        directions@[j].0 as int,
                        directions@[j].1 as int,
                        x as int,
                        y as int,
                    ),
        {
            let (dx, dy) = directions[k];
            if self.ray_reaches(from.0 as i32 + dx, from.1 as i32 + dy, dx, dy, x, y) {
                return true;
            }
        }
        false
    }

    /// Whether `piece`, standing on `from`, strikes `(x, y)`.
    fn piece_attacks_square(&self, from: (usize, usize), piece: Piece, x: i32, y: i32) -> (r: bool)
        requires
            from.0 < 14,
            from.1 < 14,
        ensures
            r == piece_attacks(grid(self.board), piece.piece_type, piece.color, from.0 as int, from.1 as int, x as int, y as int),
    {
        match piece.piece_type {
            PieceType::Pawn => {
                let (fx, fy) = self.get_forward_vector(piece.color);
                let diag1 = (from.0 as i32 + fx + fy, from.1 as i32 + fy - fx);
                let diag2 = (from.0 as i32 + fx - fy, from.1 as i32 + fy + fx);
                (diag1.0 == x && diag1.1 == y) || (diag2.0 == x && diag2.1 == y)
            },
            PieceType::Knight => {
                let offsets = [(1, 2), (1, -2), (-1, 2), (-1, -2), (2, 1), (2, -1), (-2, 1), (-2, -1)];
                assert(offsets@ =~= knight_offsets());
                Self::jumps_to(from, &offsets, x, y)
            },
            PieceType::Bishop => {
                let dirs = [(1, 1), (1, -1), (-1, 1), (-1, -1)];
                assert(dirs@ =~= bishop_dirs());
                self.slides_to(from, &dirs, x, y)
            },
            PieceType::Rook => {
                let dirs = [(1, 0), (-1, 0), (0, 1), (0, -1)];
                assert(dirs@ =~= rook_dirs());
                self.slides_to(from, &dirs, x, y)
            },
            PieceType::Queen => {
                let dirs = [(1, 1), (1, -1), (-1, 1), (-1, -1), (1, 0), (-1, 0), (0, 1), (0, -1)];
                assert(dirs@ =~= queen_dirs());
                self.slides_to(from, &dirs, x, y)
            },
            PieceType::King => {
                let offsets = [(-1, -1), (-1, 0), (-1, 1), (0, -1), (0, 1), (1, -1), (1, 0), (1, 1)];
                assert(offsets@ =~= king_offsets());
                Self::jumps_to(from, &offsets, x, y)
            },
        }
    }

    /// Whether some piece of `attacker_color` strikes `(x, y)`.
    fn is_square_attacked(&self, x: i32, y: i32, attacker_color: Color) -> (r: bool)
        ensures
            r == square_attacked(grid(self.board), x as int, y as int, attacker_color),
    {
        let ghost g = grid(self.board);
        for row in 0..14
            invariant
                g == grid(self.board),
                forall|fx: int, fy: int|
                    0 <= fx < 14 && 0 <= fy < row ==> !#[trigger] attacks_from(g, attacker_color, fx, fy, x as int, y as int),
        {
            for col in 0..14
                invariant
                    g == grid(self.board),
                    0 <= row < 14,
                    forall|fx: int, fy: int|
                        0 <= fx < 14 && 0 <= fy < 14 && (fy < row || (fy == row && fx < col))
                            ==> !#[trigger] attacks_from(g, attacker_color, fx, fy, x as int, y as int),
            {
                if let Some(piece) = self.board[row][col] {
                    if piece.color == attacker_color {
                        if self.piece_attacks_square((col, row), piece, x, y) {
                            assert(attacks_from(g, attacker_color, col as int, row as int, x as int, y as int));
                            return true;
                        }
                    }
                }
            }
        }
        false
    }

    /// Whether the first king of `color` (in row-major order) stands on a square that
    /// another side strikes; false when `color` has no king.
    fn is_king_in_check(&self, color: Color) -> (r: bool)
        ensures
            r == king_in_check(grid(self.board), color),
    {
        let ghost g = grid(self.board);
        for y in 0..14
            invariant
                g == grid(self.board),
                forall|kx: int, ky: int|
                    0 <= kx < 14 && 0 <= ky < y ==> !is_king_of(#[trigger] at(g, kx, ky), color),
        {
            for x in 0..14
                invariant
                    g == grid(self.board),
                    0 <= y < 14,
                    forall|kx: int, ky: int|
                        0 <= kx < 14 && 0 <= ky < 14 && (ky < y || (ky == y && kx < x))
                            ==> !is_king_of(#[trigger] at(g, kx, ky), color),
            {
                if let Some(piece) = self.board[y][x] {
                    if piece.color == color && piece.piece_type == PieceType::King {
                        assert(first_king(g, color, x as int, y as int));
                        proof {
                            lemma_first_king_unique(g, color, x as int, y as int);
                        }
                        let others = [Color::Red, Color::Blue, Color::Yellow, Color::Green];
                        for i in 0..4
                            invariant
                                g == grid(self.board),
                                0 <= x < 14,
                                0 <= y < 14,
                                others@ == seq![Color::Red, Color::Blue, Color::Yellow, Color::Green],
                                forall|kx: int, ky: int| #[trigger] first_king(g, color, kx, ky) ==> kx == x && ky == y,
                                first_king(g, color, x as int, y as int),
                                forall|j: int|
                                    0 <= j < i ==> (#[trigger] others@[j]) == color
                                        || !square_attacked(g, x as int, y as int, others@[j]),
                        {
                            let other_color = others[i];
                            if other_color != color && self.is_square_attacked(x as i32, y as i32, other_color) {
                                return true;
                            }
                        }
                        assert forall|o: Color| o != color implies !#[trigger] square_attacked(g, x as int, y as int, o) by {
                            match o {
                                Color::Red => assert(others@[0] == o),
                                Color::Blue => assert(others@[1] == o),
                                Color::Yellow => assert(others@[2] == o),
                                Color::Green => assert(others@[3] == o),
                            }
                        }
                        return false;
                    }
                }
            }
        }
        false
    }
    #[verifier::rlimit(40)]
    fn generate_pawn_moves(&self, from: (usize, usize), color: Color, moves: &mut Vec<Move>)
        requires
            pawn_steps_fit((from.0 as i32) as int, (from.1 as i32) as int, color),
        ensures
            final(moves)@ == old(moves)@ + pawn_moves(grid(self.board), from, color),
    {
        let ghost g = grid(self.board);
        let ghost start = moves@;
        let (x, y) = (from.0 as i32, from.1 as i32);
        let (fx, fy) = self.get_forward_vector(color);

        // One step ahead, then two from the starting line.
        let one_step = (x + fx, y + fy);
        if Self::is_valid_square(one_step.0, one_step.1) {
            if self.board[one_step.1 as usize][one_step.0 as usize].is_none() {
                let prom = if Self::is_promotion_square(one_step.0, one_step.1, color) {
                    Some(PieceType::Queen)
                } else {
                    None
                };
                moves.push(
                    Move {
                        from,
                        to: (one_step.0 as usize, one_step.1 as usize),
                        piece: PieceType::Pawn,
                        captured: None,
                        promotion: prom,
                    },
                );
                let (start_x, start_y) = match color {
                    Color::Red => (0, 12),
                    Color::Yellow => (0, 1),
                    Color::Blue => (1, 0),
                    Color::Green => (12, 0),
                };
                let is_start = match color {
                    Color::Red | Color::Yellow => y == start_y,
                    Color::Blue | Color::Green => x == start_x,
                };
                if is_start {
                    let two_step = (x + fx * 2, y + fy * 2);
                    if Self::is_valid_square(two_step.0, two_step.1)
                        && self.board[two_step.1 as usize][two_step.0 as usize].is_none() {
                        moves.push(
                            Move {
                                from,
                                to: (two_step.0 as usize, two_step.1 as usize),
                                piece: PieceType::Pawn,
                                captured: None,
                                promotion: None,
                            },
                        );
                    }
                }
            }
        }
        assert(moves@ =~= start + pawn_pushes(g, from, color));

        // Captures on the two squares diagonally ahead.
        let diag1 = (x + fx + fy, y + fy - fx);
        let diag2 = (x + fx - fy, y + fy + fx);
        let targets = [diag1, diag2];
        assert(targets@ =~= pawn_diagonals((from.0 as i32) as int, (from.1 as i32) as int, color));
        let ghost pushed = moves@;
        for k in 0..2
            invariant
                g == grid(self.board),
                targets@ == pawn_diagonals((from.0 as i32) as int, (from.1 as i32) as int, color),
                moves@ == pushed + pawn_captures(g, from, color, targets@.take(k as int)),
        {
            let target = targets[k];
            assert(targets@.take(k + 1).drop_last() =~= targets@.take(k as int));
            if Self::is_valid_square(target.0, target.1) {
                if let Some(target_piece) = self.board[target.1 as usize][target.0 as usize] {
                    if target_piece.color != color {
                        let prom = if Self::is_promotion_square(target.0, target.1, color) {
                            Some(PieceType::Queen)
                        } else {
                            None
                        };
                        moves.push(
                            Move {
                                from,
                                to: (target.0 as usize, target.1 as usize),
                                piece: PieceType::Pawn,
                                captured: Some(target_piece),
                                promotion: prom,
                            },
                        );
                    }
                }
            }
            assert(moves@ =~= pushed + pawn_captures(g, from, color, targets@.take(k + 1)));
        }
        assert(targets@.take(2) =~= targets@);
        assert(moves@ =~= start + pawn_moves(g, from, color));
    }
    fn generate_knight_moves(&self, from: (usize, usize), color: Color, moves: &mut Vec<Move>)
        requires
            i32::MIN + 2 <= from.0 as i32 <= i32::MAX - 2,
            i32::MIN + 2 <= from.1 as i32 <= i32::MAX - 2,
        ensures
            final(moves)@ == old(moves)@ + jump_moves(grid(self.board), from, color, PieceType::Knight, knight_offsets()),
    {
        let ghost g = grid(self.board);
        let ghost start = moves@;
        let (x, y) = (from.0 as i32, from.1 as i32);
        let offsets = [(1, 2), (1, -2), (-1, 2), (-1, -2), (2, 1), (2, -1), (-2, 1), (-2, -1)];
        assert(offsets@ =~= knight_offsets());
        for k in 0..8
            invariant
                g == grid(self.board),
                offsets@ == knight_offsets(),
                i32::MIN + 2 <= x <= i32::MAX - 2,
                i32::MIN + 2 <= y <= i32::MAX - 2,
                x == from.0 as i32,
                y == from.1 as i32,
                moves@ == start + jump_moves(g, from, color, PieceType::Knight, offsets@.take(k as int)),
        {
            let (dx, dy) = offsets[k];
            assert(offsets@.take(k + 1).drop_last() =~= offsets@.take(k as int));
            let nx = x + dx;
            let ny = y + dy;
            if Self::is_valid_square(nx, ny) {
                let target = self.board[ny as usize][nx as usize];
                if target.is_none() || target.unwrap().color != color {
                    moves.push(
                        Move {
                            from,
                            to: (nx as usize, ny as usize),
                            piece: PieceType::Knight,
                            captured: target,
                            promotion: None,
                        },
                    );
                }
            }
            assert(moves@ =~= start + jump_moves(g, from, color, PieceType::Knight, offsets@.take(k + 1)));
        }
        assert(offsets@.take(8) =~= offsets@);
    }

    fn generate_king_moves(&self, from: (usize, usize), color: Color, moves: &mut Vec<Move>)
        requires
            i32::MIN + 1 <= from.0 as i32 <= i32::MAX - 1,
            i32::MIN + 1 <= from.1 as i32 <= i32::MAX - 1,
        ensures
            final(moves)@ == old(moves)@ + jump_moves(grid(self.board), from, color, PieceType::King, king_offsets()),
    {
        let ghost g = grid(self.board);
        let ghost start = moves@;
        let (x, y) = (from.0 as i32, from.1 as i32);
        let offsets = [(-1, -1), (-1, 0), (-1, 1), (0, -1), (0, 1), (1, -1), (1, 0), (1, 1)];
        assert(offsets@ =~= king_offsets());
        for k in 0..8
            invariant
                g == grid(self.board),
                offsets@ == king_offsets(),
                i32::MIN + 1 <= x <= i32::MAX - 1,
                i32::MIN + 1 <= y <= i32::MAX - 1,
                x == from.0 as i32,
                y == from.1 as i32,
                moves@ == start + jump_moves(g, from, color, PieceType::King, offsets@.take(k as int)),
        {
            let (dx, dy) = offsets[k];
            assert(offsets@.take(k + 1).drop_last() =~= offsets@.take(k as int));
            let nx = x + dx;
            let ny = y + dy;
            if Self::is_valid_square(nx, ny) {
                let target = self.board[ny as usize][nx as usize];
                if target.is_none() || target.unwrap().color != color {
                    moves.push(
                        Move {
                            from,
                            to: (nx as usize, ny as usize),
                            piece: PieceType::King,
                            captured: target,
                            promotion: None,
                        },
                    );
                }
            }
            assert(moves@ =~= start + jump_moves(g, from, color, PieceType::King, offsets@.take(k + 1)));
        }
        assert(offsets@.take(8) =~= offsets@);
    }

    fn generate_sliding_moves(&self, from: (usize, usize), color: Color, directions: &[(i32, i32)], moves: &mut Vec<Move>)
        requires
            from.0 < 14,
            from.1 < 14,
            at(grid(self.board), from.0 as int, from.1 as int) is Some,
            forall|i: int|
                0 <= i < directions@.len() ==> (#[trigger] directions@[i]).0 <= i32::MAX - 13
                    && directions@[i].1 <= i32::MAX - 13,
        ensures
            final(moves)@ == old(moves)@ + slide_moves(
                grid(self.board),
                from,
                color,
                at(grid(self.board), from.0 as int, from.1 as int).unwrap().piece_type,
                directions@,
            ),
    {
        let ghost g = grid(self.board);
        let ghost start = moves@;
        let (x, y) = (from.0 as i32, from.1 as i32);
        let piece_type = self.board[y as usize][x as usize].unwrap().piece_type;
        let n = directions.len();
        for k in 0..n
            invariant
                g == grid(self.board),
                n == directions@.len(),
                0 <= x < 14,
                0 <= y < 14,
                x == from.0,
                y == from.1,
                at(g, x as int, y as int) is Some,
                forall|i: int|
                    0 <= i < directions@.len() ==> (#[trigger] directions@[i]).0 <= i32::MAX - 13
                        && directions@[i].1 <= i32::MAX - 13,
                moves@ == start + slide_moves(g, from, color, piece_type, directions@.take(k as int)),
        {
            let (dx, dy) = directions[k];
            assert(directions@.take(k + 1).drop_last() =~= directions@.take(k as int));
            let ghost before = moves@;
            let ghost sx = x + dx;
            let ghost sy = y + dy;
            let mut nx = x + dx;
            let mut ny = y + dy;
            while Self::is_valid_square(nx, ny)
                invariant_except_break
                    moves@ + ray_moves(g, from, color, piece_type, nx as int, ny as int, dx as int, dy as int)
                        == before + ray_moves(g, from, color, piece_type, sx, sy, dx as int, dy as int),
                invariant
                    g == grid(self.board),
                    0 <= x < 14,
                    0 <= y < 14,
                    at(g, x as int, y as int) is Some,
                    dx <= i32::MAX - 13,
                    dy <= i32::MAX - 13,
                    dx == 0 && dy == 0 ==> nx == x && ny == y,
                ensures
                    moves@ == before + ray_moves(g, from, color, piece_type, sx, sy, dx as int, dy as int),
                decreases room(nx as int, dx as int) + room(ny as int, dy as int),
            {
                let ghost cur = moves@;
                let target = self.board[ny as usize][nx as usize];
                if let Some(target_piece) = target {
                    if target_piece.color != color {
                        moves.push(
                            Move {
                                from,
                                to: (nx as usize, ny as usize),
                                piece: piece_type,
                                captured: Some(target_piece),
                                promotion: None,
                            },
                        );
                    }
                    assert(moves@ =~= cur + ray_moves(g, from, color, piece_type, nx as int, ny as int, dx as int, dy as int));
                    break;
                } else {
                    moves.push(
                        Move {
                            from,
                            to: (nx as usize, ny as usize),
                            piece: piece_type,
                            captured: None,
                            promotion: None,
                        },
                    );
                }
                assert(cur + ray_moves(g, from, color, piece_type, nx as int, ny as int, dx as int, dy as int)
                    =~= moves@ + ray_moves(g, from, color, piece_type, nx + dx, ny + dy, dx as int, dy as int));
                nx += dx;
                ny += dy;
            }
            assert(moves@ =~= start + slide_moves(g, from, color, piece_type, directions@.take(k + 1)));
        }
        assert(directions@.take(n as int) =~= directions@);
    }
    /// All moves of the side to move, ignoring checks: square by square in row-major
    /// order, the moves of each of its pieces.
    pub fn generate_pseudo_legal_moves(&self) -> (r: Vec<Move>)
        ensures
            r@ == pseudo_legal_moves(grid(self.board), self.turn),
    {
        let ghost g = grid(self.board);
        let mut moves = Vec::new();
        let color = self.turn;

        for y in 0..14
            invariant
                g == grid(self.board),
                color == self.turn,
                moves@ == rows_moves(g, color, y as int),
        {
            for x in 0..14
                invariant
                    g == grid(self.board),
                    color == self.turn,
                    0 <= y < 14,
                    moves@ == rows_moves(g, color, y as int) + row_moves(g, color, y as int, x as int),
            {
                let ghost before = moves@;
                if let Some(piece) = self.board[y][x] {
                    if piece.color == color {
                        let from = (x, y);
                        self.generate_piece_moves(from, color, piece.piece_type, &mut moves);
                    }
                }
                assert(moves@ == before + square_moves(g, color, x as int, y as int));
                assert(moves@ =~= rows_moves(g, color, y as int) + row_moves(g, color, y as int, x + 1));
            }
        }
        moves
    }
    /// Appends the moves of the piece of kind `piece_type` and side `color` on `from`.
    fn generate_piece_moves(&self, from: (usize, usize), color: Color, piece_type: PieceType, moves: &mut Vec<Move>)
        requires
            from.0 < 14,
            from.1 < 14,
            at(grid(self.board), from.0 as int, from.1 as int) == Some(Piece { color, piece_type }),
        ensures
            final(moves)@ == old(moves)@ + piece_moves(grid(self.board), from, color, piece_type),
    {
        match piece_type {
            PieceType::Pawn => self.generate_pawn_moves(from, color, moves),
            PieceType::Knight => self.generate_knight_moves(from, color, moves),
            PieceType::Bishop => {
                let dirs = [(1, 1), (1, -1), (-1, 1), (-1, -1)];
                assert(dirs@ =~= bishop_dirs());
                self.generate_sliding_moves(from, color, &dirs, moves)
            },
            PieceType::Rook => {
                let dirs = [(1, 0), (-1, 0), (0, 1), (0, -1)];
                assert(dirs@ =~= rook_dirs());
                self.generate_sliding_moves(from, color, &dirs, moves)
            },
            PieceType::Queen => {
                let dirs = [(1, 1), (1, -1), (-1, 1), (-1, -1), (1, 0), (-1, 0), (0, 1), (0, -1)];
                assert(dirs@ =~= queen_dirs());
                self.generate_sliding_moves(from, color, &dirs, moves)
            },
            PieceType::King => self.generate_king_moves(from, color, moves),
        }
    }
    /// The legal moves of the side to move: the pseudo-legal moves, in order, after which
    /// its king is not in check.
    pub fn generate_legal_moves(&self) -> (r: Vec<Move>)
        ensures
            r@ == legal_moves(grid(self.board), self.turn),
    {
        let ghost g = grid(self.board);
        let moves = self.generate_pseudo_legal_moves();
        proof {
            lemma_pseudo_legal_moves_well_formed(g, self.turn);
        }
        let mut legal: Vec<Move> = Vec::new();
        let n = moves.len();
        for i in 0..n
            invariant
                g == grid(self.board),
                n == moves@.len(),
                all_well_formed(g, self.turn, moves@),
                legal@ == moves@.take(i as int).filter(keeps_king_safe(g, self.turn)),
        {
            let mv = moves[i];
            assert(well_formed_move(g, self.turn, moves@[i as int]));
            // Play the move on a copy of the board and look at the king.
            let mut board_copy = self.board;
            let piece = board_copy[mv.from.1][mv.from.0].unwrap();
            board_copy[mv.to.1][mv.to.0] = Some(piece);
            board_copy[mv.from.1][mv.from.0] = None;
            if let Some(prom) = mv.promotion {
                board_copy[mv.to.1][mv.to.0] = Some(Piece { color: piece.color, piece_type: prom });
            }
            assert(grid(board_copy) =~~= apply_move(g, mv));
            let temp_state = GameState { board: board_copy, turn: self.turn };
            let keep = !temp_state.is_king_in_check(self.turn);
            proof {
                reveal_with_fuel(Seq::<_>::filter, 1);
                assert(moves@.take(i + 1).drop_last() =~= moves@.take(i as int));
            }
            if keep {
                legal.push(mv);
            }
        }
        assert(moves@.take(n as int) =~= moves@);
        legal
    }
}

} // verus!
