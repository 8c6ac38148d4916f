//! The grid of pieces and the capture rule.

use crate::geometry::{
    direction, in_bounds, is_direction, lemma_directions_complete, lemma_ray_leaves,
    lemma_rays_disjoint, lemma_scale, steps_to, within_steps, DIRECTIONS,
};
use crate::tally::{count_in, lemma_count_absent, lemma_count_update, one_if};
use crate::PlaceError;
use std::ops::Not;
use vstd::prelude::*;
use vstd::string::StringExecFns;

verus! {

const WIDTH: i8 = 8;

/// One of the two colours.
#[derive(Clone, Copy, Debug, PartialEq, Eq, Structural)]
pub enum Piece {
    Black,
    White,
}

impl Piece {
    /// The other colour.
    pub open spec fn opponent(self) -> Piece {
        match self {
            Piece::Black => Piece::White,
            Piece::White => Piece::Black,
        }
    }

    /// The opponent of a colour is never that colour, and the opponent of the
    /// opponent is the colour itself.
    pub proof fn lemma_opponent_involution(self)
        ensures
            self.opponent() != self,
            self.opponent().opponent() == self,
    {
    }
}

impl Not for Piece {
    type Output = Piece;

    /// The other colour: `not_spec` below says which.
    fn not(self) -> (other: Piece) {
        match self {
            Piece::Black => Piece::White,
            Piece::White => Piece::Black,
        }
    }
}

impl vstd::std_specs::ops::NotSpecImpl for Piece {
    open spec fn obeys_not_spec() -> bool {
        true
    }

    open spec fn not_req(self) -> bool {
        true
    }

    open spec fn not_spec(self) -> Piece {
        self.opponent()
    }
}

/// An 8x8 grid of squares, each empty or holding one piece.
///
/// A square is named by `(x, y)` with `x` counted from the left and `y` from
/// the top, both from zero.
#[derive(Clone, Copy, Debug, PartialEq, Eq)]
pub struct Board {
    cells: [Option<Piece>; 64],
}

impl View for Board {
    type V = Seq<Option<Piece>>;

    /// The 64 squares row by row, the top row first.
    closed spec fn view(&self) -> Seq<Option<Piece>> {
        self.cells@
    }
}

impl Board {
    /// What the square `(x, y)` holds. A square off the board holds nothing.
    pub open spec fn at(&self, x: int, y: int) -> Option<Piece> {
        if in_bounds(x, y) {
            self@[x + 8 * y]
        } else {
            None
        }
    }

    /// What the square `k` steps of `(dx, dy)` away from `(x, y)` holds.
    pub open spec fn ray(&self, x: int, y: int, dx: int, dy: int, k: int) -> Option<Piece> {
        self.at(x + k * dx, y + k * dy)
    }

    /// Some square around `(x, y)` holds a piece.
    pub open spec fn has_neighbor(&self, x: int, y: int) -> bool {
        exists|dx: int, dy: int|
            is_direction(dx, dy) && (#[trigger] self.ray(x, y, dx, dy, 1)) is Some
    }

    /// Going from `(x, y)` along `(dx, dy)`, the first `n` squares hold
    /// opponents of `piece` and the next square does not.
    pub open spec fn opponent_run(
        &self,
        x: int,
        y: int,
        dx: int,
        dy: int,
        piece: Piece,
        n: int,
    ) -> bool {
        &&& n >= 0
        &&& forall|k: int|
            1 <= k <= n ==> #[trigger] self.ray(x, y, dx, dy, k) == Some(piece.opponent())
        &&& self.ray(x, y, dx, dy, n + 1) != Some(piece.opponent())
    }

    /// Going from `(x, y)` along `(dx, dy)`, the first `n` squares hold
    /// opponents of `piece`, there is at least one of them, and the square
    /// after them holds `piece`: a piece placed at `(x, y)` would enclose them.
    pub open spec fn brackets(
        &self,
        x: int,
        y: int,
        dx: int,
        dy: int,
        piece: Piece,
        n: int,
    ) -> bool {
        &&& n >= 1
        &&& forall|k: int|
            1 <= k <= n ==> #[trigger] self.ray(x, y, dx, dy, k) == Some(piece.opponent())
        &&& self.ray(x, y, dx, dy, n + 1) == Some(piece)
    }

    /// A piece placed at `(x, y)` would enclose opponents along `(dx, dy)`.
    pub open spec fn closed_along(&self, x: int, y: int, dx: int, dy: int, piece: Piece) -> bool {
        exists|n: int| self.brackets(x, y, dx, dy, piece, n)
    }

    /// How many opponents a piece placed at `(x, y)` would enclose along
    /// `(dx, dy)`.
    pub open spec fn captures_along(&self, x: int, y: int, dx: int, dy: int, piece: Piece) -> int {
        if self.closed_along(x, y, dx, dy, piece) {
            choose|n: int| self.brackets(x, y, dx, dy, piece, n)
        } else {
            0
        }
    }

    /// The square `(cx, cy)` is one of those that a piece placed at `(x, y)`
    /// would enclose along `(dx, dy)`.
    pub open spec fn captured_along(
        &self,
        x: int,
        y: int,
        dx: int,
        dy: int,
        piece: Piece,
        cx: int,
        cy: int,
    ) -> bool {
        within_steps(x, y, dx, dy, self.captures_along(x, y, dx, dy, piece), cx, cy)
    }

    /// The square `(cx, cy)` is one of those that a piece placed at `(x, y)`
    /// would enclose, in any direction.
    pub open spec fn captured(&self, x: int, y: int, piece: Piece, cx: int, cy: int) -> bool {
        exists|dx: int, dy: int|
            is_direction(dx, dy) && #[trigger] self.captured_along(x, y, dx, dy, piece, cx, cy)
    }

    /// How many opponents a piece placed at `(x, y)` would enclose along the
    /// first `m` entries of `DIRECTIONS`.
    pub open spec fn captures_within(&self, x: int, y: int, piece: Piece, m: int) -> int
        decreases m,
    {
        if m <= 0 {
            0
        } else {
            self.captures_within(x, y, piece, m - 1) + self.captures_along(
                x,
                y,
                direction(m - 1).0,
                direction(m - 1).1,
                piece,
            )
        }
    }

    /// How many opponents a piece placed at `(x, y)` would enclose, all eight
    /// directions taken together.
    pub open spec fn flip_count(&self, x: int, y: int, piece: Piece) -> int {
        self.captures_within(x, y, piece, 8)
    }

    /// What `(cx, cy)` holds once `piece` has been placed at `(x, y)` and has
    /// captured what it encloses.
    pub open spec fn after_move(
        &self,
        x: int,
        y: int,
        piece: Piece,
        cx: int,
        cy: int,
    ) -> Option<Piece> {
        if (cx == x && cy == y) || self.captured(x, y, piece, cx, cy) {
            Some(piece)
        } else {
            self.at(cx, cy)
        }
    }

    /// The rules but the order of turns allow `piece` at `(x, y)`: the square
    /// is on the board and empty, touches a piece, and the placement captures.
    pub open spec fn legal(&self, x: int, y: int, piece: Piece) -> bool {
        &&& in_bounds(x, y)
        &&& self.at(x, y) is None
        &&& self.has_neighbor(x, y)
        &&& self.flip_count(x, y, piece) > 0
    }

    /// How many squares hold `piece`.
    pub open spec fn pieces(&self, piece: Piece) -> nat {
        count_in(self@, Some(piece))
    }

    /// How many squares hold a piece.
    pub open spec fn occupied(&self) -> nat {
        self.pieces(Piece::Black) + self.pieces(Piece::White)
    }

    /// What `(x, y)` holds when a game starts.
    pub open spec fn initial(x: int, y: int) -> Option<Piece> {
        if (x == 3 && y == 3) || (x == 4 && y == 4) {
            Some(Piece::White)
        } else if (x == 4 && y == 3) || (x == 3 && y == 4) {
            Some(Piece::Black)
        } else {
            None
        }
    }

    /// The board with the squares `cells`, row by row and the top row first,
    /// if there are 64 of them.
    pub open spec fn of_cells(cells: Seq<Option<Piece>>) -> Option<Board> {
        if cells.len() == 64 {
            Some(choose|board: Board| board@ == cells)
        } else {
            None
        }
    }

    /// The character that stands for what a square holds when a board is
    /// written out.
    pub open spec fn glyph(cell: Option<Piece>) -> char {
        match cell {
            Some(Piece::Black) => '○',
            Some(Piece::White) => '●',
            None => '.',
        }
    }

    /// The board written out: eight lines of eight characters, the top row
    /// first, each line closed by a line feed.
    pub open spec fn rendering(&self) -> Seq<char> {
        Seq::new(
            72,
            |i: int|
                if i % 9 == 8 {
                    '\n'
                } else {
                    Board::glyph(self.at(i % 9, i / 9))
                },
        )
    }

    /// A board has 64 squares.
    pub proof fn lemma_view_len(&self)
        ensures
            self@.len() == 64,
    {
    }

    /// Two boards with the same squares, row by row, are the same board.
    pub proof fn lemma_equal_by_view(&self, other: &Board)
        requires
            self@ == other@,
        ensures
            *self == *other,
    {
        assert(self.cells =~= other.cells);
    }

    /// The squares of a board, read back, give that board again.
    pub proof fn lemma_cells_round_trip(&self)
        ensures
            Board::of_cells(self@) == Some(*self),
    {
        let back = choose|board: Board| board@ == self@;
        back.lemma_equal_by_view(self);
    }

    /// Two boards that agree on every square are the same board.
    pub proof fn lemma_equal_by_squares(&self, other: &Board)
        requires
            forall|x: int, y: int| in_bounds(x, y) ==> self.at(x, y) == other.at(x, y),
        ensures
            *self == *other,
    {
        assert forall|i: int| 0 <= i < 64 implies self@[i] == other@[i] by {
            let x = i % 8;
            let y = i / 8;
            assert(in_bounds(x, y) && i == x + 8 * y);
            assert(self.at(x, y) == other.at(x, y));
        }
        assert(self@ =~= other@);
        self.lemma_equal_by_view(other);
    }

    /// The board at the start of a game: two pieces of each colour on the
    /// four central squares, White on the falling diagonal.
    pub fn new() -> (board: Board)
        ensures
            forall|x: int, y: int| #[trigger] board.at(x, y) == Board::initial(x, y),
            board.pieces(Piece::Black) == 2,
            board.pieces(Piece::White) == 2,
    {
        let mut board = Board { cells: [None; 64] };
        proof {
            lemma_count_absent(board@, Some(Piece::Black));
            lemma_count_absent(board@, Some(Piece::White));
        }
        board.put(3, 3, Piece::White);
        board.put(4, 3, Piece::Black);
        board.put(3, 4, Piece::Black);
        board.put(4, 4, Piece::White);
        board
    }

    /// The number of squares along an edge of the board.
    pub fn width() -> (w: usize)
        ensures
            w == 8,
    {
        8
    }

    /// What the square `(x, y)` holds; nothing when it is off the board.
    pub fn get(&self, x: usize, y: usize) -> (cell: Option<Piece>)
        ensures
            cell == self.at(x as int, y as int),
    {
        if x < 8 && y < 8 {
            self.cells[x + 8 * y]
        } else {
            None
        }
    }

    /// Puts `piece` on the square `(x, y)`, whatever it held.
    pub(crate) fn put(&mut self, x: usize, y: usize, piece: Piece)
        requires
            in_bounds(x as int, y as int),
        ensures
            forall|cx: int, cy: int| #[trigger]
                final(self).at(cx, cy) == if cx == x && cy == y {
                    Some(piece)
                } else {
                    old(self).at(cx, cy)
                },
            forall|q: Piece| #[trigger]
                final(self).pieces(q) + one_if(old(self).at(x as int, y as int) == Some(q))
                    == old(self).pieces(q) + one_if(q == piece),
    {
        proof {
            assert forall|q: Piece|
                count_in(self@.update(x + 8 * y, Some(piece)), Some(q)) + one_if(
                    self@[x + 8 * y] == Some(q),
                ) == #[trigger] count_in(self@, Some(q)) + one_if(q == piece) by {
                lemma_count_update(self@, x + 8 * y, Some(piece), Some(q));
            }
        }
        self.cells[x + 8 * y] = Some(piece);
    }

    /// How many squares hold `piece`.
    pub fn count(&self, piece: Piece) -> (n: usize)
        ensures
            n == self.pieces(piece),
    {
        let mut n: usize = 0;
        let mut i: usize = 0;
        while i < 64
            invariant
                0 <= i <= 64,
                n == count_in(self@.take(i as int), Some(piece)),
                n <= i,
            decreases 64 - i,
        {
            proof {
                assert(self@.take(i + 1).drop_last() =~= self@.take(i as int));
            }
            match self.cells[i] {
                Some(p) => {
                    if p == piece {
                        n = n + 1;
                    }
                },
                None => {},
            }
            i += 1;
        }
        proof {
            assert(self@.take(64) =~= self@);
        }
        n
    }

    /// The 64 squares row by row, the top row first.
    pub fn cells(&self) -> (cells: Vec<Option<Piece>>)
        ensures
            cells@ == self@,
    {
        let mut cells: Vec<Option<Piece>> = Vec::new();
        let mut i: usize = 0;
        while i < 64
            invariant
                0 <= i <= 64,
                cells@ == self@.take(i as int),
            decreases 64 - i,
        {
            cells.push(self.cells[i]);
            proof {
                assert(self@.take(i + 1) =~= self@.take(i as int).push(self@[i as int]));
            }
            i += 1;
        }
        proof {
            assert(self@.take(64) =~= self@);
        }
        cells
    }

    /// The board with the given squares, row by row and the top row first,
    /// if there are 64 of them.
    pub fn from_cells(cells: &[Option<Piece>]) -> (board: Option<Board>)
        ensures
            board == Board::of_cells(cells@),
            board matches Some(b) ==> b@ == cells@,
    {
        if cells.len() != 64 {
            return None;
        }
        let mut board = Board { cells: [None; 64] };
        let mut i: usize = 0;
        while i < 64
            invariant
                0 <= i <= 64,
                cells@.len() == 64,
                forall|j: int| 0 <= j < i ==> board@[j] == cells@[j],
            decreases 64 - i,
        {
            board.cells[i] = cells[i];
            i += 1;
        }
        proof {
            assert(board@ =~= cells@);
            let chosen = choose|b: Board| b@ == cells@;
            chosen.lemma_equal_by_view(&board);
        }
        Some(board)
    }

    /// The board written out for a reader: a line for each row, the top row
    /// first, with `.` for an empty square, `○` for Black and `●` for White.
    pub fn render(&self) -> (text: String)
        ensures
            text@ == self.rendering(),
    {
        let ghost whole = self.rendering();
        let mut text = String::new();
        let mut y: usize = 0;
        while y < 8
            invariant
                0 <= y <= 8,
                whole == self.rendering(),
                text@ == whole.take(9 * y),
            decreases 8 - y,
        {
            let mut x: usize = 0;
            while x < 8
                invariant
                    0 <= x <= 8,
                    0 <= y < 8,
                    whole == self.rendering(),
                    text@ == whole.take(9 * y + x),
                decreases 8 - x,
            {
                proof {
                    reveal_strlit("○");
                    reveal_strlit("●");
                    reveal_strlit(".");
                    assert((9 * y + x) % 9 == x && (9 * y + x) / 9 == y);
                    assert(whole.take(9 * y + x + 1) =~= whole.take(9 * y + x).push(
                        Board::glyph(self.at(x as int, y as int)),
                    ));
                }
                match self.get(x, y) {
                    Some(Piece::Black) => text.append("○"),
                    Some(Piece::White) => text.append("●"),
                    None => text.append("."),
                }
                x += 1;
            }
            proof {
                reveal_strlit("\n");
                assert((9 * y + 8) % 9 == 8);
                assert(whole.take(9 * y + 9) =~= whole.take(9 * y + 8).push('\n'));
            }
            text.append("\n");
            y += 1;
        }
        proof {
            assert(whole.take(72) =~= whole);
        }
        text
    }

    /// Whether some square around `(x, y)` holds a piece.
    pub fn adjacent(&self, x: usize, y: usize) -> (r: Result<bool, PlaceError>)
        requires
            x < 8,
            y < 8,
        ensures
            r == Ok::<bool, PlaceError>(self.has_neighbor(x as int, y as int)),
    {
        let px = x as i8;
        let py = y as i8;
        let mut i: usize = 0;
        while i < 8
            invariant
                0 <= i <= 8,
                px == x,
                py == y,
                in_bounds(x as int, y as int),
                forall|j: int|
                    0 <= j < i ==> (#[trigger] self.ray(
                        x as int,
                        y as int,
                        direction(j).0,
                        direction(j).1,
                        1,
                    )) is None,
            decreases 8 - i,
        {
            let (dx, dy) = DIRECTIONS[i];
            proof {
                lemma_directions_complete();
                assert(is_direction(direction(i as int).0, direction(i as int).1));
            }
            let nx = px + dx;
            let ny = py + dy;
            if nx >= 0 && ny >= 0 && nx < WIDTH && ny < WIDTH {
                if self.get(nx as usize, ny as usize).is_some() {
                    assert(self.ray(x as int, y as int, dx as int, dy as int, 1) is Some);
                    return Ok(true);
                }
            }
            i += 1;
        }
        proof {
            lemma_directions_complete();
            assert forall|dx: int, dy: int| is_direction(dx, dy) implies (#[trigger] self.ray(
                x as int,
                y as int,
                dx,
                dy,
                1,
            )) is None by {
                let j = choose|j: int| 0 <= j < 8 && #[trigger] direction(j) == (dx, dy);
                assert(self.ray(x as int, y as int, direction(j).0, direction(j).1, 1) is None);
            }
        }
        Ok(false)
    }

    /// Whether a piece placed at `(x, y)` would enclose opponents along
    /// `(dx, dy)`: whether the run of opponents that starts beside `(x, y)`
    /// is not empty and ends at a square that holds `piece`.
    fn on(&self, x: i8, y: i8, dx: i8, dy: i8, piece: Piece) -> (r: bool)
        requires
            in_bounds(x as int, y as int),
            is_direction(dx as int, dy as int),
        ensures
            r == self.closed_along(x as int, y as int, dx as int, dy as int, piece),
    {
        let opponent = piece.not();
        let mut cx = x + dx;
        let mut cy = y + dy;
        let mut seen = false;
        let ghost mut k: int = 1;
        proof {
            lemma_scale(1, dx as int);
            lemma_scale(1, dy as int);
        }
        while cx >= 0 && cy >= 0 && cx < WIDTH && cy < WIDTH
            invariant
                in_bounds(x as int, y as int),
                is_direction(dx as int, dy as int),
                opponent == piece.opponent(),
                1 <= k <= 8,
                seen == (k > 1),
                cx == x + k * dx,
                cy == y + k * dy,
                forall|j: int|
                    1 <= j < k ==> #[trigger] self.ray(x as int, y as int, dx as int, dy as int, j)
                        == Some(opponent),
            decreases 8 - k,
        {
            proof {
                lemma_ray_leaves(x as int, y as int, dx as int, dy as int, k);
                lemma_scale(k, dx as int);
                lemma_scale(k, dy as int);
                lemma_scale(k + 1, dx as int);
                lemma_scale(k + 1, dy as int);
            }
            match self.get(cx as usize, cy as usize) {
                Some(p) => {
                    if p == opponent {
                        seen = true;
                        cx = cx + dx;
                        cy = cy + dy;
                        proof {
                            k = k + 1;
                        }
                    } else {
                        proof {
                            self.lemma_captures_by_run(
                                x as int,
                                y as int,
                                dx as int,
                                dy as int,
                                piece,
                                k - 1,
                            );
                        }
                        return seen;
                    }
                },
                None => {
                    proof {
                        self.lemma_captures_by_run(
                            x as int,
                            y as int,
                            dx as int,
                            dy as int,
                            piece,
                            k - 1,
                        );
                    }
                    return false;
                },
            }
        }
        proof {
            self.lemma_captures_by_run(x as int, y as int, dx as int, dy as int, piece, k - 1);
        }
        false
    }

    /// The length of the run of opponents of `piece` that starts beside
    /// `(x, y)` and goes along `(dx, dy)`.
    fn walk(&self, x: i8, y: i8, dx: i8, dy: i8, piece: Piece) -> (n: usize)
        requires
            in_bounds(x as int, y as int),
            is_direction(dx as int, dy as int),
        ensures
            n <= 7,
            self.opponent_run(x as int, y as int, dx as int, dy as int, piece, n as int),
    {
        let opponent = piece.not();
        let mut cx = x + dx;
        let mut cy = y + dy;
        let mut n: usize = 0;
        proof {
            lemma_scale(1, dx as int);
            lemma_scale(1, dy as int);
        }
        while cx >= 0 && cy >= 0 && cx < WIDTH && cy < WIDTH
            invariant
                in_bounds(x as int, y as int),
                is_direction(dx as int, dy as int),
                opponent == piece.opponent(),
                0 <= n <= 7,
                cx == x + (n + 1) * dx,
                cy == y + (n + 1) * dy,
                forall|j: int|
                    1 <= j <= n ==> #[trigger] self.ray(x as int, y as int, dx as int, dy as int, j)
                        == Some(opponent),
            decreases 7 - n,
        {
            proof {
                lemma_ray_leaves(x as int, y as int, dx as int, dy as int, n + 1);
                lemma_scale(n + 1, dx as int);
                lemma_scale(n + 1, dy as int);
                lemma_scale(n + 2, dx as int);
                lemma_scale(n + 2, dy as int);
            }
            match self.get(cx as usize, cy as usize) {
                Some(p) => {
                    if p == opponent {
                        n = n + 1;
                        cx = cx + dx;
                        cy = cy + dy;
                    } else {
                        return n;
                    }
                },
                None => {
                    return n;
                },
            }
        }
        n
    }

    /// Turns the run of opponents of `piece` that starts beside `(x, y)` and
    /// goes along `(dx, dy)` into pieces of `piece`, and returns its length.
    fn walk_mut(&mut self, x: i8, y: i8, dx: i8, dy: i8, piece: Piece) -> (n: usize)
        requires
            in_bounds(x as int, y as int),
            is_direction(dx as int, dy as int),
        ensures
            n <= 7,
            old(self).opponent_run(x as int, y as int, dx as int, dy as int, piece, n as int),
            forall|cx: int, cy: int| #[trigger]
                final(self).at(cx, cy) == if within_steps(
                    x as int,
                    y as int,
                    dx as int,
                    dy as int,
                    n as int,
                    cx,
                    cy,
                ) {
                    Some(piece)
                } else {
                    old(self).at(cx, cy)
                },
            final(self).pieces(piece) == old(self).pieces(piece) + n,
            final(self).pieces(piece.opponent()) + n == old(self).pieces(piece.opponent()),
    {
        let ghost before = *self;
        let opponent = piece.not();
        let mut cx = x + dx;
        let mut cy = y + dy;
        let mut n: usize = 0;
        proof {
            lemma_scale(1, dx as int);
            lemma_scale(1, dy as int);
        }
        while cx >= 0 && cy >= 0 && cx < WIDTH && cy < WIDTH
            invariant
                in_bounds(x as int, y as int),
                is_direction(dx as int, dy as int),
                opponent == piece.opponent(),
                before == *old(self),
                0 <= n <= 7,
                cx == x + (n + 1) * dx,
                cy == y + (n + 1) * dy,
                forall|j: int|
                    1 <= j <= n ==> #[trigger] before.ray(
                        x as int,
                        y as int,
                        dx as int,
                        dy as int,
                        j,
                    ) == Some(opponent),
                forall|ax: int, ay: int| #[trigger]
                    self.at(ax, ay) == if within_steps(
                        x as int,
                        y as int,
                        dx as int,
                        dy as int,
                        n as int,
                        ax,
                        ay,
                    ) {
                        Some(piece)
                    } else {
                        before.at(ax, ay)
                    },
                self.pieces(piece) == before.pieces(piece) + n,
                self.pieces(opponent) + n == before.pieces(opponent),
            decreases 7 - n,
        {
            proof {
                lemma_ray_leaves(x as int, y as int, dx as int, dy as int, n + 1);
                lemma_scale(n + 1, dx as int);
                lemma_scale(n + 1, dy as int);
                lemma_scale(n + 2, dx as int);
                lemma_scale(n + 2, dy as int);
                // The square ahead is none of those already turned.
                if within_steps(
                    x as int,
                    y as int,
                    dx as int,
                    dy as int,
                    n as int,
                    cx as int,
                    cy as int,
                ) {
                    let k = choose|k: int|
                        1 <= k <= n && #[trigger] steps_to(
                            x as int,
                            y as int,
                            dx as int,
                            dy as int,
                            k,
                            cx as int,
                            cy as int,
                        );
                    lemma_rays_disjoint(dx as int, dy as int, k, dx as int, dy as int, n + 1);
                }
                assert(self.at(cx as int, cy as int) == before.ray(
                    x as int,
                    y as int,
                    dx as int,
                    dy as int,
                    n + 1,
                ));
            }
            match self.get(cx as usize, cy as usize) {
                Some(p) => {
                    if p == opponent {
                        let ghost mid = *self;
                        self.put(cx as usize, cy as usize, piece);
                        proof {
                            assert(steps_to(
                                x as int,
                                y as int,
                                dx as int,
                                dy as int,
                                n + 1,
                                cx as int,
                                cy as int,
                            ));
                            assert forall|ax: int, ay: int| #[trigger]
                                self.at(ax, ay) == if within_steps(
                                    x as int,
                                    y as int,
                                    dx as int,
                                    dy as int,
                                    n + 1,
                                    ax,
                                    ay,
                                ) {
                                    Some(piece)
                                } else {
                                    before.at(ax, ay)
                                } by {
                                if within_steps(
                                    x as int,
                                    y as int,
                                    dx as int,
                                    dy as int,
                                    n as int,
                                    ax,
                                    ay,
                                ) {
                                    let k = choose|k: int|
                                        1 <= k <= n && #[trigger] steps_to(
                                            x as int,
                                            y as int,
                                            dx as int,
                                            dy as int,
                                            k,
                                            ax,
                                            ay,
                                        );
                                    assert(1 <= k <= n + 1);
                                }
                                assert(mid.at(ax, ay) == self.at(ax, ay) || (ax == cx && ay == cy));
                            }
                            assert(self.pieces(piece) == mid.pieces(piece) + 1);
                            assert(self.pieces(opponent) + 1 == mid.pieces(opponent));
                        }
                        n = n + 1;
                        cx = cx + dx;
                        cy = cy + dy;
                    } else {
                        return n;
                    }
                },
                None => {
                    return n;
                },
            }
        }
        n
    }

    /// How many opponents a piece of `piece` placed at `(x, y)` would
    /// capture: along each of the eight directions, the opponents that lie
    /// in an unbroken run between `(x, y)` and a square that holds `piece`.
    /// The board is only read.
    pub fn flips(&self, x: usize, y: usize, piece: Piece) -> (count: usize)
        requires
            x < 8,
            y < 8,
        ensures
            count == self.flip_count(x as int, y as int, piece),
    {
        let px = x as i8;
        let py = y as i8;
        let mut count: usize = 0;
        let mut i: usize = 0;
        while i < 8
            invariant
                0 <= i <= 8,
                px == x,
                py == y,
                in_bounds(x as int, y as int),
                count <= 7 * i,
                count == self.captures_within(x as int, y as int, piece, i as int),
            decreases 8 - i,
        {
            let (dx, dy) = DIRECTIONS[i];
            proof {
                lemma_directions_complete();
                assert(is_direction(direction(i as int).0, direction(i as int).1));
            }
            if self.on(px, py, dx, dy, piece) {
                let n = self.walk(px, py, dx, dy, piece);
                proof {
                    self.lemma_captures_by_run(
                        x as int,
                        y as int,
                        dx as int,
                        dy as int,
                        piece,
                        n as int,
                    );
                }
                count = count + n;
            }
            i += 1;
        }
        count
    }

    /// Turns every opponent that a piece of `piece` placed at `(x, y)` would
    /// capture into a piece of `piece`. The square `(x, y)` itself is left as
    /// it is.
    pub fn flip(&mut self, x: usize, y: usize, piece: Piece)
        requires
            x < 8,
            y < 8,
        ensures
            forall|cx: int, cy: int| #[trigger]
                final(self).at(cx, cy) == if old(self).captured(x as int, y as int, piece, cx, cy) {
                    Some(piece)
                } else {
                    old(self).at(cx, cy)
                },
            final(self).at(x as int, y as int) == old(self).at(x as int, y as int),
            final(self).pieces(piece) == old(self).pieces(piece) + old(self).flip_count(
                x as int,
                y as int,
                piece,
            ),
            final(self).pieces(piece.opponent()) + old(self).flip_count(x as int, y as int, piece)
                == old(self).pieces(piece.opponent()),
    {
        let ghost before = *self;
        let px = x as i8;
        let py = y as i8;
        let mut i: usize = 0;
        while i < 8
            invariant
                0 <= i <= 8,
                px == x,
                py == y,
                in_bounds(x as int, y as int),
                before == *old(self),
                forall|cx: int, cy: int| #[trigger]
                    self.at(cx, cy) == if before.captured_within(
                        x as int,
                        y as int,
                        piece,
                        cx,
                        cy,
                        i as int,
                    ) {
                        Some(piece)
                    } else {
                        before.at(cx, cy)
                    },
                self.pieces(piece) == before.pieces(piece) + before.captures_within(
                    x as int,
                    y as int,
                    piece,
                    i as int,
                ),
                self.pieces(piece.opponent()) + before.captures_within(
                    x as int,
                    y as int,
                    piece,
                    i as int,
                ) == before.pieces(piece.opponent()),
            decreases 8 - i,
        {
            let (dx, dy) = DIRECTIONS[i];
            let ghost mid = *self;
            proof {
                lemma_directions_complete();
                assert(is_direction(direction(i as int).0, direction(i as int).1));
                // What was turned so far lies along other directions.
                mid.lemma_untouched_ray(&before, x as int, y as int, piece, i as int);
                mid.lemma_same_ray(&before, x as int, y as int, dx as int, dy as int, piece);
            }
            let mut n: usize = 0;
            if self.on(px, py, dx, dy, piece) {
                n = self.walk_mut(px, py, dx, dy, piece);
                proof {
                    before.lemma_captures_by_run(
                        x as int,
                        y as int,
                        dx as int,
                        dy as int,
                        piece,
                        n as int,
                    );
                }
            }
            proof {
                assert(n == before.captures_along(x as int, y as int, dx as int, dy as int, piece));
                before.lemma_captured_within_next(x as int, y as int, piece, i as int);
                assert forall|cx: int, cy: int| #[trigger]
                    self.at(cx, cy) == if before.captured_within(
                        x as int,
                        y as int,
                        piece,
                        cx,
                        cy,
                        i + 1,
                    ) {
                        Some(piece)
                    } else {
                        before.at(cx, cy)
                    } by {
                    let by_i = before.captured_by(x as int, y as int, piece, cx, cy, i as int);
                    assert(by_i == within_steps(
                        x as int,
                        y as int,
                        dx as int,
                        dy as int,
                        n as int,
                        cx,
                        cy,
                    ));
                    assert(self.at(cx, cy) == if by_i {
                        Some(piece)
                    } else {
                        mid.at(cx, cy)
                    });
                }
            }
            i += 1;
        }
        proof {
            before.lemma_captured_within_all(x as int, y as int, piece);
            if before.captured(x as int, y as int, piece, x as int, y as int) {
                before.lemma_captured_square(x as int, y as int, piece, x as int, y as int);
            }
        }
    }

    /// Whether the rules but the order of turns allow `piece` at `(x, y)`.
    pub fn can_place(&self, x: usize, y: usize, piece: Piece) -> (r: bool)
        ensures
            r == self.legal(x as int, y as int, piece),
    {
        if x >= 8 || y >= 8 {
            return false;
        }
        if self.get(x, y).is_some() {
            return false;
        }
        match self.adjacent(x, y) {
            Ok(true) => self.flips(x, y, piece) > 0,
            _ => false,
        }
    }

    /// Whether the rules but the order of turns allow `piece` on some square.
    pub fn has_legal_move(&self, piece: Piece) -> (r: bool)
        ensures
            r == exists|x: int, y: int| #[trigger] self.legal(x, y, piece),
    {
        let mut y: usize = 0;
        while y < 8
            invariant
                0 <= y <= 8,
                forall|ax: int, ay: int| 0 <= ay < y ==> !#[trigger] self.legal(ax, ay, piece),
            decreases 8 - y,
        {
            let mut x: usize = 0;
            while x < 8
                invariant
                    0 <= x <= 8,
                    0 <= y < 8,
                    forall|ax: int, ay: int| 0 <= ay < y ==> !#[trigger] self.legal(ax, ay, piece),
                    forall|ax: int| 0 <= ax < x ==> !#[trigger] self.legal(ax, y as int, piece),
                decreases 8 - x,
            {
                if self.can_place(x, y, piece) {
                    return true;
                }
                x += 1;
            }
            y += 1;
        }
        false
    }
}

} // verus!
