//! The search for the largest empty square, by dynamic programming over bottom-right corners.
use vstd::prelude::*;

use crate::grid::{Grid, World};
use crate::square::{is_empty_square, Square};

verus! {

/// The smallest of three numbers.
pub open spec fn min3(a: nat, b: nat, c: nat) -> nat {
    if a <= b && a <= c {
        a
    } else if b <= c {
        b
    } else {
        c
    }
}

/// The side of the largest empty square whose bottom-right corner is row `i`, column `j`,
/// by the recurrence: 0 on an occupied cell, 1 on a free cell of the first row or column, and
/// otherwise one more than the least of the values above, to the left and diagonally above.
pub open spec fn corner_size(g: Grid, i: nat, j: nat) -> nat
    decreases i + j,
{
    if !g.is_free(i as int, j as int) {
        0
    } else if i == 0 || j == 0 {
        1
    } else {
        1 + min3(
            corner_size(g, (i - 1) as nat, j),
            corner_size(g, i, (j - 1) as nat),
            corner_size(g, (i - 1) as nat, (j - 1) as nat),
        )
    }
}

/// Row `r1`, column `c1` comes no later than row `r2`, column `c2` in a scan of the grid row by
/// row, each row from left to right.
pub open spec fn row_major_le(r1: int, c1: int, r2: int, c2: int) -> bool {
    r1 < r2 || (r1 == r2 && c1 <= c2)
}

/// Some cell of the grid is free.
pub open spec fn has_free_cell(g: Grid) -> bool {
    exists|i: int, j: int| #[trigger] g.is_free(i, j)
}

/// `s` is an empty square of side at least 1, no empty square is larger, and of the empty
/// squares as large, none has its top-left corner earlier in row-major order.
pub open spec fn is_biggest_square(g: Grid, s: Square) -> bool {
    &&& s.size >= 1
    &&& is_empty_square(g, s.y as int, s.x as int, s.size as int)
    &&& forall|r: int, c: int, k: int| #[trigger] is_empty_square(g, r, c, k) ==> k <= s.size
    &&& forall|r: int, c: int| #[trigger] is_empty_square(g, r, c, s.size as int) ==> row_major_le(
        s.y as int,
        s.x as int,
        r,
        c,
    )
}

/// There is only one biggest square: the search has exactly one right answer on each grid.
pub proof fn lemma_biggest_square_unique(g: Grid, s1: Square, s2: Square)
    requires
        is_biggest_square(g, s1),
        is_biggest_square(g, s2),
    ensures
        s1 == s2,
{
    assert(is_empty_square(g, s2.y as int, s2.x as int, s2.size as int));
    assert(is_empty_square(g, s1.y as int, s1.x as int, s1.size as int));
}

/// A block that lies inside an empty square is empty.
pub proof fn lemma_inner_square(g: Grid, r: int, c: int, k: int, r2: int, c2: int, k2: int)
    requires
        is_empty_square(g, r, c, k),
        r <= r2,
        c <= c2,
        0 <= k2,
        r2 + k2 <= r + k,
        c2 + k2 <= c + k,
    ensures
        is_empty_square(g, r2, c2, k2),
{
    assert forall|i: int, j: int| r2 <= i < r2 + k2 && c2 <= j < c2 + k2 implies #[trigger] g.is_free(i, j) by {
        assert(g.is_free(i, j));
    }
}

/// The recurrence never exceeds the distance of the corner to the top or left edge.
pub proof fn lemma_corner_size_bound(g: Grid, i: nat, j: nat)
    ensures
        corner_size(g, i, j) <= i + 1,
        corner_size(g, i, j) <= j + 1,
    decreases i + j,
{
    if g.is_free(i as int, j as int) && i > 0 && j > 0 {
        lemma_corner_size_bound(g, (i - 1) as nat, j);
        lemma_corner_size_bound(g, i, (j - 1) as nat);
    }
}

/// The recurrence is right: a square of side `k` with bottom-right corner row `i`, column `j`
/// is empty exactly when `k` is at most `corner_size(g, i, j)`.
pub proof fn lemma_corner_size(g: Grid, i: nat, j: nat, k: int)
    requires
        i < g.height,
        j < g.width,
        0 <= k,
    ensures
        is_empty_square(g, i - k + 1, j - k + 1, k) <==> k <= corner_size(g, i, j),
    decreases i + j,
{
    let r = i - k + 1;
    let c = j - k + 1;
    if k == 0 {
    } else if !g.is_free(i as int, j as int) {
        if is_empty_square(g, r, c, k) {
            assert(g.is_free(i as int, j as int));
        }
    } else if k == 1 {
        assert forall|a: int, b: int| r <= a < r + k && c <= b < c + k implies #[trigger] g.is_free(a, b) by {
            assert(a == i && b == j);
        }
    } else if i == 0 || j == 0 {
    } else {
        let up = (i - 1) as nat;
        let left = (j - 1) as nat;
        lemma_corner_size(g, up, j, k - 1);
        lemma_corner_size(g, i, left, k - 1);
        lemma_corner_size(g, up, left, k - 1);
        if is_empty_square(g, r, c, k) {
            lemma_inner_square(g, r, c, k, r, c + 1, k - 1);
            lemma_inner_square(g, r, c, k, r + 1, c, k - 1);
            lemma_inner_square(g, r, c, k, r, c, k - 1);
        }
        if k <= corner_size(g, i, j) {
            assert forall|a: int, b: int| r <= a < r + k && c <= b < c + k implies #[trigger] g.is_free(a, b) by {
                if a < i && b < j {
                    assert(is_empty_square(g, r, c, k - 1));
                } else if a == i && b < j {
                    assert(is_empty_square(g, r + 1, c, k - 1));
                } else if a < i && b == j {
                    assert(is_empty_square(g, r, c + 1, k - 1));
                }
            }
        }
    }
}

/// Row `a`, column `b` lies in the grid and comes before row `i`, column `j` in row-major order.
pub open spec fn scanned_before(g: Grid, a: int, b: int, i: int, j: int) -> bool {
    &&& 0 <= a < g.height
    &&& 0 <= b < g.width
    &&& (a < i || (a == i && b < j))
}

/// The largest square of free cells in the grid of `world`: `None` when no cell is free, and
/// otherwise, of the largest empty squares, the one whose top-left corner comes first row by
/// row.
pub fn find_biggest_square(world: &World) -> (r: Option<Square>)
    ensures
        r is None <==> !has_free_cell(world@),
        r matches Some(s) ==> is_biggest_square(world@, s),
{
    let ghost g = world@;
    let height = world.height();
    let width = world.width();
    // `best` is the largest value of the recurrence met so far, first met at `best_i`, `best_j`.
    let mut best: usize = 0;
    let mut best_i: usize = 0;
    let mut best_j: usize = 0;
    // The values of the recurrence along the previous row.
    let mut prev: Vec<usize> = Vec::new();
    let mut i: usize = 0;
    while i < height
        invariant
            g == world@,
            height == g.height,
            width == g.width,
            i <= height,
            i > 0 ==> prev@.len() == width,
            i > 0 ==> forall|b: int| 0 <= b < width ==> #[trigger] prev@[b] == corner_size(g, (i - 1) as nat, b as nat),
            forall|a: int, b: int| #[trigger] scanned_before(g, a, b, i as int, 0) ==> corner_size(g, a as nat, b as nat) <= best,
            best > 0 ==> {
                &&& scanned_before(g, best_i as int, best_j as int, i as int, 0)
                &&& corner_size(g, best_i as nat, best_j as nat) == best
                &&& forall|a: int, b: int| #[trigger] scanned_before(g, a, b, i as int, 0) && corner_size(g, a as nat, b as nat) == best ==> row_major_le(best_i as int, best_j as int, a, b)
            },
        decreases height - i,
    {
        let mut cur: Vec<usize> = Vec::new();
        let mut j: usize = 0;
        while j < width
            invariant
                g == world@,
                height == g.height,
                width == g.width,
                i < height,
                j <= width,
                cur@.len() == j,
                i > 0 ==> prev@.len() == width,
                i > 0 ==> forall|b: int| 0 <= b < width ==> #[trigger] prev@[b] == corner_size(g, (i - 1) as nat, b as nat),
                forall|b: int| 0 <= b < j ==> #[trigger] cur@[b] == corner_size(g, i as nat, b as nat),
                forall|a: int, b: int| #[trigger] scanned_before(g, a, b, i as int, j as int) ==> corner_size(g, a as nat, b as nat) <= best,
                best > 0 ==> {
                    &&& scanned_before(g, best_i as int, best_j as int, i as int, j as int)
                    &&& corner_size(g, best_i as nat, best_j as nat) == best
                    &&& forall|a: int, b: int| #[trigger] scanned_before(g, a, b, i as int, j as int) && corner_size(g, a as nat, b as nat) == best ==> row_major_le(best_i as int, best_j as int, a, b)
                },
            decreases width - j,
        {
            let v: usize = if !world.free_at(i, j) {
                0
            } else if i == 0 || j == 0 {
                1
            } else {
                let up = prev[j];
                let left = cur[j - 1];
                let diag = prev[j - 1];
                let m = if up <= left && up <= diag {
                    up
                } else if left <= diag {
                    left
                } else {
                    diag
                };
                proof {
                    lemma_corner_size_bound(g, (i - 1) as nat, j as nat);
                }
                1 + m
            };
            assert(v == corner_size(g, i as nat, j as nat));
            if v > best {
                best = v;
                best_i = i;
                best_j = j;
            }
            cur.push(v);
            j += 1;
            proof {
                assert forall|a: int, b: int| #[trigger] scanned_before(g, a, b, i as int, j as int) implies corner_size(g, a as nat, b as nat) <= best by {
                    if !(a == i && b == j - 1) {
                        assert(scanned_before(g, a, b, i as int, j - 1));
                    }
                }
                if best > 0 {
                    assert forall|a: int, b: int| #[trigger] scanned_before(g, a, b, i as int, j as int) && corner_size(g, a as nat, b as nat) == best implies row_major_le(best_i as int, best_j as int, a, b) by {
                        if !(a == i && b == j - 1) {
                            assert(scanned_before(g, a, b, i as int, j - 1));
                        }
                    }
                }
            }
        }
        prev = cur;
        i += 1;
        proof {
            assert forall|a: int, b: int| #[trigger] scanned_before(g, a, b, i as int, 0) implies corner_size(g, a as nat, b as nat) <= best by {
                assert(scanned_before(g, a, b, i - 1, width as int));
            }
            if best > 0 {
                assert(scanned_before(g, best_i as int, best_j as int, i - 1, width as int));
                assert forall|a: int, b: int| #[trigger] scanned_before(g, a, b, i as int, 0) && corner_size(g, a as nat, b as nat) == best implies row_major_le(best_i as int, best_j as int, a, b) by {
                    assert(scanned_before(g, a, b, i - 1, width as int));
                }
            }
        }
    }
    if best == 0 {
        assert forall|a: int, b: int| !#[trigger] g.is_free(a, b) by {
            if g.is_free(a, b) {
                assert(scanned_before(g, a, b, height as int, 0));
            }
        }
        return None;
    }
    proof {
        lemma_corner_size_bound(g, best_i as nat, best_j as nat);
    }
    let s = Square { y: best_i + 1 - best, x: best_j + 1 - best, size: best };
    proof {
        lemma_corner_size(g, best_i as nat, best_j as nat, best as int);
        assert forall|r: int, c: int, k: int| #[trigger] is_empty_square(g, r, c, k) implies k <= best by {
            if k > best {
                let (ei, ej) = (r + k - 1, c + k - 1);
                lemma_corner_size(g, ei as nat, ej as nat, k);
                assert(scanned_before(g, ei, ej, height as int, 0));
            }
        }
        assert forall|r: int, c: int| #[trigger] is_empty_square(g, r, c, best as int) implies row_major_le(s.y as int, s.x as int, r, c) by {
            let (ei, ej) = (r + best - 1, c + best - 1);
            lemma_corner_size(g, ei as nat, ej as nat, best as int);
            assert(scanned_before(g, ei, ej, height as int, 0));
        }
        assert(g.is_free(s.y as int, s.x as int));
    }
    Some(s)
}

} // verus!
