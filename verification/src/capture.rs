//! What follows from the capture rule.

use crate::board::{Board, Piece};
use crate::geometry::{
    direction, in_bounds, is_direction, lemma_directions_complete, lemma_ray_leaves,
    lemma_rays_disjoint, lemma_scale, lemma_segment_len, segment, steps_to,
};
use vstd::prelude::*;
use vstd::set_lib::lemma_set_disjoint_lens;

verus! {

impl Board {
    /// The square `(cx, cy)` is one of those that a piece placed at `(x, y)`
    /// would enclose along the `i`-th entry of `DIRECTIONS`.
    pub open spec fn captured_by(
        &self,
        x: int,
        y: int,
        piece: Piece,
        cx: int,
        cy: int,
        i: int,
    ) -> bool {
        self.captured_along(x, y, direction(i).0, direction(i).1, piece, cx, cy)
    }

    /// The square `(cx, cy)` is one of those that a piece placed at `(x, y)`
    /// would enclose along one of the first `m` entries of `DIRECTIONS`.
    pub open spec fn captured_within(
        &self,
        x: int,
        y: int,
        piece: Piece,
        cx: int,
        cy: int,
        m: int,
    ) -> bool {
        exists|i: int| 0 <= i < m && #[trigger] self.captured_by(x, y, piece, cx, cy, i)
    }

    /// The squares that a piece placed at `(x, y)` would capture.
    pub open spec fn captured_squares(&self, x: int, y: int, piece: Piece) -> Set<(int, int)> {
        Set::new(|c: (int, int)| self.captured(x, y, piece, c.0, c.1))
    }

    /// The squares that a piece placed at `(x, y)` would capture along the
    /// first `m` entries of `DIRECTIONS`.
    pub open spec fn captured_squares_within(
        &self,
        x: int,
        y: int,
        piece: Piece,
        m: int,
    ) -> Set<(int, int)> {
        Set::new(|c: (int, int)| self.captured_within(x, y, piece, c.0, c.1, m))
    }

    /// Along one direction at most one count of enclosed opponents fits, and
    /// it is the length of the run of opponents that starts beside `(x, y)`.
    pub proof fn lemma_brackets_unique(
        &self,
        x: int,
        y: int,
        dx: int,
        dy: int,
        piece: Piece,
        n: int,
        m: int,
    )
        requires
            self.brackets(x, y, dx, dy, piece, n),
            self.brackets(x, y, dx, dy, piece, m) || self.opponent_run(x, y, dx, dy, piece, m),
        ensures
            n == m,
            self.captures_along(x, y, dx, dy, piece) == n,
    {
        if m < n {
            assert(self.ray(x, y, dx, dy, m + 1) == Some(piece.opponent()));
        }
        if n < m {
            assert(self.ray(x, y, dx, dy, n + 1) == Some(piece.opponent()));
        }
        let c = self.captures_along(x, y, dx, dy, piece);
        assert(self.brackets(x, y, dx, dy, piece, c));
        if c < n {
            assert(self.ray(x, y, dx, dy, c + 1) == Some(piece.opponent()));
        }
        if n < c {
            assert(self.ray(x, y, dx, dy, n + 1) == Some(piece.opponent()));
        }
    }

    /// Where the run of opponents beside `(x, y)` along `(dx, dy)` is `m`
    /// squares long, a piece placed at `(x, y)` encloses those `m` if there is
    /// one at least and the square behind them holds `piece`, and nothing
    /// otherwise.
    pub proof fn lemma_captures_by_run(
        &self,
        x: int,
        y: int,
        dx: int,
        dy: int,
        piece: Piece,
        m: int,
    )
        requires
            self.opponent_run(x, y, dx, dy, piece, m),
        ensures
            self.closed_along(x, y, dx, dy, piece) == (m >= 1 && self.ray(x, y, dx, dy, m + 1)
                == Some(piece)),
            self.captures_along(x, y, dx, dy, piece) == if m >= 1 && self.ray(x, y, dx, dy, m + 1)
                == Some(piece) {
                m
            } else {
                0
            },
    {
        if m >= 1 && self.ray(x, y, dx, dy, m + 1) == Some(piece) {
            assert(self.brackets(x, y, dx, dy, piece, m));
            self.lemma_brackets_unique(x, y, dx, dy, piece, m, m);
        } else if self.closed_along(x, y, dx, dy, piece) {
            let n = choose|n: int| self.brackets(x, y, dx, dy, piece, n);
            self.lemma_brackets_unique(x, y, dx, dy, piece, n, m);
        }
    }

    /// Along no direction is the count of enclosed opponents negative or
    /// above six.
    pub proof fn lemma_captures_along_bound(&self, x: int, y: int, dx: int, dy: int, piece: Piece)
        requires
            in_bounds(x, y),
            is_direction(dx, dy),
        ensures
            0 <= self.captures_along(x, y, dx, dy, piece) <= 6,
    {
        let n = self.captures_along(x, y, dx, dy, piece);
        if self.closed_along(x, y, dx, dy, piece) {
            assert(self.brackets(x, y, dx, dy, piece, n));
            lemma_ray_leaves(x, y, dx, dy, n + 1);
        }
    }

    /// No placement captures fewer than no pieces, or more than six along
    /// each direction.
    pub proof fn lemma_flip_count_bound(&self, x: int, y: int, piece: Piece)
        requires
            in_bounds(x, y),
        ensures
            0 <= self.flip_count(x, y, piece) <= 48,
    {
        self.lemma_captures_within_bound(x, y, piece, 8);
    }

    /// The first `m` directions capture at most six pieces each.
    proof fn lemma_captures_within_bound(&self, x: int, y: int, piece: Piece, m: int)
        requires
            in_bounds(x, y),
            0 <= m <= 8,
        ensures
            0 <= self.captures_within(x, y, piece, m) <= 6 * m,
        decreases m,
    {
        if m > 0 {
            lemma_directions_complete();
            assert(is_direction(direction(m - 1).0, direction(m - 1).1));
            self.lemma_captures_along_bound(x, y, direction(m - 1).0, direction(m - 1).1, piece);
            self.lemma_captures_within_bound(x, y, piece, m - 1);
        }
    }

    /// What a placement would capture is a matter of the squares alone:
    /// however often it is asked of boards with the same squares, the count
    /// is the same.
    pub proof fn lemma_flip_count_by_squares(&self, other: &Board, x: int, y: int, piece: Piece)
        requires
            self@ == other@,
        ensures
            self.flip_count(x, y, piece) == other.flip_count(x, y, piece),
    {
        self.lemma_equal_by_view(other);
    }

    /// The count of what a placement captures is the number of the squares
    /// that it captures.
    pub proof fn lemma_flip_count_is_number_captured(&self, x: int, y: int, piece: Piece)
        ensures
            self.captured_squares(x, y, piece).finite(),
            self.captured_squares(x, y, piece).len() == self.flip_count(x, y, piece),
    {
        self.lemma_number_captured_within(x, y, piece, 8);
        self.lemma_captured_within_all(x, y, piece);
        assert(self.captured_squares(x, y, piece) =~= self.captured_squares_within(
            x,
            y,
            piece,
            8,
        ));
    }

    /// The count of what a placement captures along the first `m` directions
    /// is the number of the squares that it captures along them.
    proof fn lemma_number_captured_within(&self, x: int, y: int, piece: Piece, m: int)
        requires
            0 <= m <= 8,
        ensures
            self.captured_squares_within(x, y, piece, m).finite(),
            self.captured_squares_within(x, y, piece, m).len() == self.captures_within(
                x,
                y,
                piece,
                m,
            ),
        decreases m,
    {
        let all = self.captured_squares_within(x, y, piece, m);
        if m == 0 {
            assert(all =~= Set::<(int, int)>::empty());
        } else {
            let (dx, dy) = direction(m - 1);
            let n = self.captures_along(x, y, dx, dy, piece);
            let earlier = self.captured_squares_within(x, y, piece, m - 1);
            let next = segment(x, y, dx, dy, n);
            lemma_directions_complete();
            assert(is_direction(direction(m - 1).0, direction(m - 1).1));
            assert(n >= 0);
            self.lemma_number_captured_within(x, y, piece, m - 1);
            lemma_segment_len(x, y, dx, dy, n);
            self.lemma_captured_within_next(x, y, piece, m - 1);
            assert forall|c: (int, int)| all.contains(c) == (earlier + next).contains(c) by {
                assert(self.captured_by(x, y, piece, c.0, c.1, m - 1) == next.contains(c));
            }
            assert(all =~= earlier + next);
            assert forall|c: (int, int)| earlier.contains(c) implies !next.contains(c) by {
                if next.contains(c) {
                    let j = choose|j: int|
                        0 <= j < m - 1 && #[trigger] self.captured_by(x, y, piece, c.0, c.1, j);
                    let (ex, ey) = direction(j);
                    let l = self.captures_along(x, y, ex, ey, piece);
                    let a = choose|a: int|
                        1 <= a <= l && #[trigger] steps_to(x, y, ex, ey, a, c.0, c.1);
                    let b = choose|b: int|
                        1 <= b <= n && #[trigger] steps_to(x, y, dx, dy, b, c.0, c.1);
                    lemma_rays_disjoint(ex, ey, a, dx, dy, b);
                    assert(direction(j) == direction(m - 1));
                }
            }
            assert(earlier.disjoint(next));
            lemma_set_disjoint_lens(earlier, next);
        }
    }

    /// A square that a placement at `(x, y)` captures lies on the board, is
    /// not `(x, y)` itself, and holds an opponent.
    pub proof fn lemma_captured_square(&self, x: int, y: int, piece: Piece, cx: int, cy: int)
        requires
            in_bounds(x, y),
            self.captured(x, y, piece, cx, cy),
        ensures
            in_bounds(cx, cy),
            !(cx == x && cy == y),
            self.at(cx, cy) == Some(piece.opponent()),
    {
        let (dx, dy) = choose|dx: int, dy: int|
            is_direction(dx, dy) && #[trigger] self.captured_along(x, y, dx, dy, piece, cx, cy);
        let n = self.captures_along(x, y, dx, dy, piece);
        let k = choose|k: int| 1 <= k <= n && #[trigger] steps_to(x, y, dx, dy, k, cx, cy);
        assert(self.brackets(x, y, dx, dy, piece, n));
        assert(self.ray(x, y, dx, dy, k) == Some(piece.opponent()));
        lemma_scale(k, dx);
        lemma_scale(k, dy);
    }

    /// A placement that captures touches a piece.
    pub proof fn lemma_capture_touches(&self, x: int, y: int, piece: Piece)
        requires
            self.flip_count(x, y, piece) > 0,
        ensures
            self.has_neighbor(x, y),
    {
        self.lemma_some_direction_captures(x, y, piece, 8);
        let i = choose|i: int|
            0 <= i < 8 && self.captures_along(x, y, direction(i).0, direction(i).1, piece) > 0;
        let (dx, dy) = direction(i);
        lemma_directions_complete();
        assert(is_direction(direction(i).0, direction(i).1));
        let n = self.captures_along(x, y, dx, dy, piece);
        assert(self.closed_along(x, y, dx, dy, piece));
        assert(self.brackets(x, y, dx, dy, piece, n));
        assert(self.ray(x, y, dx, dy, 1) == Some(piece.opponent()));
    }

    /// Where the first `m` directions capture something together, one of
    /// them captures something.
    proof fn lemma_some_direction_captures(&self, x: int, y: int, piece: Piece, m: int)
        requires
            self.captures_within(x, y, piece, m) > 0,
        ensures
            exists|i: int|
                0 <= i < m && self.captures_along(x, y, direction(i).0, direction(i).1, piece) > 0,
        decreases m,
    {
        if m > 0 {
            if self.captures_along(x, y, direction(m - 1).0, direction(m - 1).1, piece) > 0 {
            } else {
                self.lemma_some_direction_captures(x, y, piece, m - 1);
            }
        }
    }

    /// Two boards that hold the same along one ray from `(x, y)` enclose the
    /// same along it.
    pub(crate) proof fn lemma_same_ray(
        &self,
        other: &Board,
        x: int,
        y: int,
        dx: int,
        dy: int,
        piece: Piece,
    )
        requires
            forall|k: int|
                #![trigger self.ray(x, y, dx, dy, k)]
                #![trigger other.ray(x, y, dx, dy, k)]
                k >= 1 ==> self.ray(x, y, dx, dy, k) == other.ray(x, y, dx, dy, k),
        ensures
            forall|n: int|
                #![trigger self.brackets(x, y, dx, dy, piece, n)]
                #![trigger other.brackets(x, y, dx, dy, piece, n)]
                self.brackets(x, y, dx, dy, piece, n) == other.brackets(x, y, dx, dy, piece, n),
            forall|n: int|
                #![trigger self.opponent_run(x, y, dx, dy, piece, n)]
                #![trigger other.opponent_run(x, y, dx, dy, piece, n)]
                self.opponent_run(x, y, dx, dy, piece, n) == other.opponent_run(
                    x,
                    y,
                    dx,
                    dy,
                    piece,
                    n,
                ),
            self.closed_along(x, y, dx, dy, piece) == other.closed_along(x, y, dx, dy, piece),
            self.captures_along(x, y, dx, dy, piece) == other.captures_along(x, y, dx, dy, piece),
    {
        assert forall|n: int|
            self.brackets(x, y, dx, dy, piece, n) == other.brackets(x, y, dx, dy, piece, n) by {
            if n >= 1 {
                assert(self.ray(x, y, dx, dy, n + 1) == other.ray(x, y, dx, dy, n + 1));
            }
        }
        assert forall|n: int|
            self.opponent_run(x, y, dx, dy, piece, n) == other.opponent_run(
                x,
                y,
                dx,
                dy,
                piece,
                n,
            ) by {
            if n >= 0 {
                assert(self.ray(x, y, dx, dy, n + 1) == other.ray(x, y, dx, dy, n + 1));
            }
        }
        if self.closed_along(x, y, dx, dy, piece) {
            let n = choose|n: int| self.brackets(x, y, dx, dy, piece, n);
            assert(other.brackets(x, y, dx, dy, piece, n));
            let m = choose|m: int| other.brackets(x, y, dx, dy, piece, m);
            other.lemma_brackets_unique(x, y, dx, dy, piece, n, m);
        } else if other.closed_along(x, y, dx, dy, piece) {
            let m = choose|m: int| other.brackets(x, y, dx, dy, piece, m);
            assert(self.brackets(x, y, dx, dy, piece, m));
        }
    }

    /// Turning the squares enclosed along some directions leaves the rays
    /// along every other direction as they were.
    pub(crate) proof fn lemma_untouched_ray(
        &self,
        before: &Board,
        x: int,
        y: int,
        piece: Piece,
        i: int,
    )
        requires
            in_bounds(x, y),
            0 <= i < 8,
            forall|cx: int, cy: int| #[trigger]
                self.at(cx, cy) == if before.captured_within(x, y, piece, cx, cy, i) {
                    Some(piece)
                } else {
                    before.at(cx, cy)
                },
        ensures
            forall|k: int|
                #![trigger self.ray(x, y, direction(i).0, direction(i).1, k)]
                #![trigger before.ray(x, y, direction(i).0, direction(i).1, k)]
                k >= 1 ==> self.ray(x, y, direction(i).0, direction(i).1, k) == before.ray(
                    x,
                    y,
                    direction(i).0,
                    direction(i).1,
                    k,
                ),
    {
        let (dx, dy) = direction(i);
        lemma_directions_complete();
        assert forall|k: int| k >= 1 implies self.ray(x, y, dx, dy, k) == before.ray(
            x,
            y,
            dx,
            dy,
            k,
        ) by {
            let cx = x + k * dx;
            let cy = y + k * dy;
            if before.captured_within(x, y, piece, cx, cy, i) {
                let j = choose|j: int|
                    0 <= j < i && #[trigger] before.captured_by(x, y, piece, cx, cy, j);
                let (ex, ey) = direction(j);
                let n = before.captures_along(x, y, ex, ey, piece);
                let m = choose|m: int| 1 <= m <= n && #[trigger] steps_to(x, y, ex, ey, m, cx, cy);
                lemma_rays_disjoint(dx, dy, k, ex, ey, m);
                assert(direction(i) == direction(j));
            }
        }
    }

    /// The squares enclosed along the first `i + 1` entries of `DIRECTIONS`
    /// are those enclosed along the first `i` and those enclosed along the
    /// next.
    pub(crate) proof fn lemma_captured_within_next(&self, x: int, y: int, piece: Piece, i: int)
        ensures
            forall|cx: int, cy: int| #[trigger]
                self.captured_within(x, y, piece, cx, cy, i + 1) == (self.captured_within(
                    x,
                    y,
                    piece,
                    cx,
                    cy,
                    i,
                ) || (0 <= i && self.captured_by(x, y, piece, cx, cy, i))),
    {
        assert forall|cx: int, cy: int| #[trigger]
            self.captured_within(x, y, piece, cx, cy, i + 1) == (self.captured_within(
                x,
                y,
                piece,
                cx,
                cy,
                i,
            ) || (0 <= i && self.captured_by(x, y, piece, cx, cy, i))) by {
            if self.captured_within(x, y, piece, cx, cy, i + 1) {
                let j = choose|j: int|
                    0 <= j < i + 1 && #[trigger] self.captured_by(x, y, piece, cx, cy, j);
                assert(j == i || self.captured_within(x, y, piece, cx, cy, i));
            }
            if self.captured_within(x, y, piece, cx, cy, i) {
                let j = choose|j: int|
                    0 <= j < i && #[trigger] self.captured_by(x, y, piece, cx, cy, j);
                assert(0 <= j < i + 1);
            }
        }
    }

    /// The squares enclosed along the eight entries of `DIRECTIONS` are all
    /// the squares that are enclosed.
    pub(crate) proof fn lemma_captured_within_all(&self, x: int, y: int, piece: Piece)
        ensures
            forall|cx: int, cy: int|
                #![trigger self.captured(x, y, piece, cx, cy)]
                #![trigger self.captured_within(x, y, piece, cx, cy, 8)]
                self.captured(x, y, piece, cx, cy) == self.captured_within(x, y, piece, cx, cy, 8),
    {
        lemma_directions_complete();
        assert forall|cx: int, cy: int|
            self.captured(x, y, piece, cx, cy) == self.captured_within(
                x,
                y,
                piece,
                cx,
                cy,
                8,
            ) by {
            if self.captured(x, y, piece, cx, cy) {
                let (dx, dy) = choose|dx: int, dy: int|
                    is_direction(dx, dy) && #[trigger] self.captured_along(
                        x,
                        y,
                        dx,
                        dy,
                        piece,
                        cx,
                        cy,
                    );
                let i = choose|i: int| 0 <= i < 8 && #[trigger] direction(i) == (dx, dy);
                assert(self.captured_by(x, y, piece, cx, cy, i));
            }
            if self.captured_within(x, y, piece, cx, cy, 8) {
                let i = choose|i: int|
                    0 <= i < 8 && #[trigger] self.captured_by(x, y, piece, cx, cy, i);
                assert(is_direction(direction(i).0, direction(i).1));
                assert(self.captured_along(x, y, direction(i).0, direction(i).1, piece, cx, cy));
            }
        }
    }
}

} // verus!
