//! Squares, directions and rays on the 8x8 grid.

use vstd::prelude::*;

verus! {

/// The eight compass directions as `(dx, dy)` steps, with `x` growing to the
/// right and `y` growing downwards.
pub const DIRECTIONS: [(i8, i8); 8] = [
    (-1, -1),
    (0, -1),
    (1, -1),
    (-1, 0),
    (1, 0),
    (-1, 1),
    (0, 1),
    (1, 1),
];

/// `(x, y)` is a square of the board.
pub open spec fn in_bounds(x: int, y: int) -> bool {
    0 <= x < 8 && 0 <= y < 8
}

/// `(dx, dy)` is one step in a compass direction.
pub open spec fn is_direction(dx: int, dy: int) -> bool {
    -1 <= dx <= 1 && -1 <= dy <= 1 && !(dx == 0 && dy == 0)
}

/// `(cx, cy)` is the square reached from `(x, y)` by `k` steps of `(dx, dy)`.
pub open spec fn steps_to(x: int, y: int, dx: int, dy: int, k: int, cx: int, cy: int) -> bool {
    cx == x + k * dx && cy == y + k * dy
}

/// `(cx, cy)` is one of the first `n` squares on the way from `(x, y)` along
/// `(dx, dy)`.
pub open spec fn within_steps(x: int, y: int, dx: int, dy: int, n: int, cx: int, cy: int) -> bool {
    exists|k: int| 1 <= k <= n && #[trigger] steps_to(x, y, dx, dy, k, cx, cy)
}

/// The first `n` squares on the way from `(x, y)` along `(dx, dy)`.
pub open spec fn segment(x: int, y: int, dx: int, dy: int, n: int) -> Set<(int, int)> {
    Set::new(|c: (int, int)| within_steps(x, y, dx, dy, n, c.0, c.1))
}

/// The `i`-th entry of `DIRECTIONS`, as integers.
pub open spec fn direction(i: int) -> (int, int) {
    (DIRECTIONS[i].0 as int, DIRECTIONS[i].1 as int)
}

/// `DIRECTIONS` lists each compass direction, and nothing else.
pub proof fn lemma_directions_complete()
    ensures
        forall|i: int| 0 <= i < 8 ==> is_direction(#[trigger] direction(i).0, direction(i).1),
        forall|dx: int, dy: int| #[trigger]
            is_direction(dx, dy) ==> exists|i: int| 0 <= i < 8 && #[trigger] direction(i) == (dx, dy),
        forall|i: int, j: int|
            0 <= i < 8 && 0 <= j < 8 && #[trigger] direction(i) == #[trigger] direction(j) ==> i == j,
{
    assert(direction(0) == (-1int, -1int));
    assert(direction(1) == (0int, -1int));
    assert(direction(2) == (1int, -1int));
    assert(direction(3) == (-1int, 0int));
    assert(direction(4) == (1int, 0int));
    assert(direction(5) == (-1int, 1int));
    assert(direction(6) == (0int, 1int));
    assert(direction(7) == (1int, 1int));
}

/// A step count times a direction component is the count, its negation, or zero.
pub proof fn lemma_scale(k: int, d: int)
    requires
        -1 <= d <= 1,
    ensures
        k * d == (if d == 1 { k } else if d == 0 { 0 } else { -k }),
{
    assert(k * d == (if d == 1 { k } else if d == 0 { 0 } else { -k })) by (nonlinear_arith)
        requires
            -1 <= d <= 1,
    ;
}

/// Rays that leave one square in different directions share no square, and a
/// ray visits no square twice.
pub proof fn lemma_rays_disjoint(dx1: int, dy1: int, k1: int, dx2: int, dy2: int, k2: int)
    requires
        is_direction(dx1, dy1),
        is_direction(dx2, dy2),
        k1 >= 1,
        k2 >= 1,
        k1 * dx1 == k2 * dx2,
        k1 * dy1 == k2 * dy2,
    ensures
        dx1 == dx2,
        dy1 == dy2,
        k1 == k2,
{
    lemma_scale(k1, dx1);
    lemma_scale(k1, dy1);
    lemma_scale(k2, dx2);
    lemma_scale(k2, dy2);
}

/// A ray that starts on the board has left it after at most seven steps.
pub proof fn lemma_ray_leaves(x: int, y: int, dx: int, dy: int, k: int)
    requires
        in_bounds(x, y),
        is_direction(dx, dy),
        k >= 1,
        in_bounds(x + k * dx, y + k * dy),
    ensures
        k <= 7,
{
    lemma_scale(k, dx);
    lemma_scale(k, dy);
}

/// The first `n` steps along a direction reach `n` squares.
pub proof fn lemma_segment_len(x: int, y: int, dx: int, dy: int, n: int)
    requires
        is_direction(dx, dy),
        n >= 0,
    ensures
        segment(x, y, dx, dy, n).finite(),
        segment(x, y, dx, dy, n).len() == n,
    decreases n,
{
    if n == 0 {
        assert(segment(x, y, dx, dy, 0) =~= Set::<(int, int)>::empty());
    } else {
        lemma_segment_len(x, y, dx, dy, n - 1);
        let shorter = segment(x, y, dx, dy, n - 1);
        let last = (x + n * dx, y + n * dy);
        assert(steps_to(x, y, dx, dy, n, last.0, last.1));
        if shorter.contains(last) {
            let k = choose|k: int|
                1 <= k <= n - 1 && #[trigger] steps_to(x, y, dx, dy, k, last.0, last.1);
            lemma_rays_disjoint(dx, dy, k, dx, dy, n);
        }
        assert forall|c: (int, int)|
            segment(x, y, dx, dy, n).contains(c) == shorter.insert(last).contains(c) by {
            if within_steps(x, y, dx, dy, n, c.0, c.1) {
                let k = choose|k: int| 1 <= k <= n && #[trigger] steps_to(x, y, dx, dy, k, c.0, c.1);
                assert(k == n || within_steps(x, y, dx, dy, n - 1, c.0, c.1));
            }
            if within_steps(x, y, dx, dy, n - 1, c.0, c.1) {
                let k = choose|k: int|
                    1 <= k <= n - 1 && #[trigger] steps_to(x, y, dx, dy, k, c.0, c.1);
                assert(1 <= k <= n);
            }
        }
        assert(segment(x, y, dx, dy, n) =~= shorter.insert(last));
    }
}

} // verus!
