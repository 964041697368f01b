//! Placing the topology on a grid of terminal cells: lines, labels, and what lies
//! under the pointer.
use vstd::arithmetic::div_mod::lemma_fundamental_div_mod_converse;
use vstd::prelude::*;

use crate::text::to_chars;

verus! {

/// A rectangle of terminal cells.
#[derive(Debug, Clone, Copy, PartialEq, Eq, Structural)]
pub struct Area {
    /// The leftmost column.
    pub x: u16,
    /// The topmost row.
    pub y: u16,
    /// How many columns.
    pub width: u16,
    /// How many rows.
    pub height: u16,
}

/// The distance between two coordinates.
pub open spec fn gap(a: u16, b: u16) -> int {
    if a < b {
        b - a
    } else {
        a - b
    }
}

/// `steps` steps from `a` towards `b`.
pub open spec fn towards(a: u16, b: u16, steps: int) -> int {
    if a < b {
        a + steps
    } else {
        a - steps
    }
}

/// `p / q` rounded to the nearest integer, halves up.
pub open spec fn rounded(p: int, q: int) -> int {
    (2 * p + q) / (2 * q)
}

/// The `k`-th cell of the line from `from` to `to`: one step per cell along the
/// longer axis, and along the other axis whatever is nearest to the straight line.
pub open spec fn line_cell(from: (u16, u16), to: (u16, u16), k: int) -> (int, int) {
    let dx = gap(from.0, to.0);
    let dy = gap(from.1, to.1);
    if dx == 0 && dy == 0 {
        (from.0 as int, from.1 as int)
    } else if dx >= dy {
        (towards(from.0, to.0, k), towards(from.1, to.1, rounded(k * dy, dx)))
    } else {
        (towards(from.0, to.0, rounded(k * dx, dy)), towards(from.1, to.1, k))
    }
}

/// How many cells the line from `from` to `to` has.
pub open spec fn line_length(from: (u16, u16), to: (u16, u16)) -> int {
    if gap(from.0, to.0) >= gap(from.1, to.1) {
        gap(from.0, to.0) + 1
    } else {
        gap(from.1, to.1) + 1
    }
}

proof fn lemma_rounded(p: int, q: int, n: int)
    requires
        q > 0,
        -q <= 2 * (p - n * q) < q,
    ensures
        rounded(p, q) == n,
{
    let r = 2 * p + q - n * (2 * q);
    assert(n * (2 * q) == 2 * (n * q)) by (nonlinear_arith);
    lemma_fundamental_div_mod_converse(2 * p + q, 2 * q, n, r);
}

/// A line begins and ends where it should.
pub proof fn law_a_line_joins_its_ends(from: (u16, u16), to: (u16, u16))
    ensures
        line_cell(from, to, 0) == (from.0 as int, from.1 as int),
        line_cell(from, to, line_length(from, to) - 1) == (to.0 as int, to.1 as int),
{
    let dx = gap(from.0, to.0);
    let dy = gap(from.1, to.1);
    if dx == 0 && dy == 0 {
    } else if dx >= dy {
        assert(0 * dy == 0 && 0 * dx == 0) by (nonlinear_arith);
        lemma_rounded(0 * dy, dx, 0);
        assert(dx * dy == dy * dx) by (nonlinear_arith);
        lemma_rounded(dx * dy, dx, dy);
    } else {
        assert(0 * dy == 0 && 0 * dx == 0) by (nonlinear_arith);
        lemma_rounded(0 * dx, dy, 0);
        assert(dy * dx == dx * dy) by (nonlinear_arith);
        lemma_rounded(dy * dx, dy, dx);
    }
}

/// The cells a straight line from `from` to `to` passes through, both ends among
/// them, by accumulating the error of each step.
pub fn line_cells(from: (u16, u16), to: (u16, u16)) -> (r: Vec<(u16, u16)>)
    ensures
        r@.len() == line_length(from, to),
        forall|k: int|
            0 <= k < r@.len() ==> ((#[trigger] r@[k]).0 as int, r@[k].1 as int) == line_cell(
                from,
                to,
                k,
            ),
{
    let mut x: i32 = from.0 as i32;
    let mut y: i32 = from.1 as i32;
    let x1: i32 = to.0 as i32;
    let y1: i32 = to.1 as i32;
    let dx: i32 = if x < x1 {
        x1 - x
    } else {
        x - x1
    };
    let dy: i32 = if y < y1 {
        y - y1
    } else {
        y1 - y
    };
    let step_x: i32 = if x < x1 {
        1
    } else {
        -1
    };
    let step_y: i32 = if y < y1 {
        1
    } else {
        -1
    };
    let mut error: i32 = dx + dy;
    let mut cells: Vec<(u16, u16)> = Vec::new();
    // Steps made along each axis, and their products with the other axis's length.
    let ghost wide = gap(from.0, to.0);
    let ghost high = gap(from.1, to.1);
    let ghost mut a: int = 0;
    let ghost mut b: int = 0;
    let ghost mut p: int = 0;
    let ghost mut q: int = 0;
    proof {
        assert(0 * high == 0 && 0 * wide == 0) by (nonlinear_arith);
    }
    loop
        invariant_except_break
            wide == gap(from.0, to.0),
            high == gap(from.1, to.1),
            dx == wide,
            dy == -high,
            x1 == to.0,
            y1 == to.1,
            step_x == (if from.0 < to.0 {
                1int
            } else {
                -1int
            }),
            step_y == (if from.1 < to.1 {
                1int
            } else {
                -1int
            }),
            0 <= a <= wide,
            0 <= b <= high,
            p == a * high,
            q == b * wide,
            x == towards(from.0, to.0, a),
            y == towards(from.1, to.1, b),
            error == wide - high + q - p,
            wide >= high ==> a == cells@.len() && -wide <= 2 * (p - q) && (wide > 0 ==> 2 * (p - q)
                < wide),
            wide < high ==> b == cells@.len() && -high <= 2 * (q - p) < high,
            cells@.len() < line_length(from, to),
            forall|k: int|
                0 <= k < cells@.len() ==> ((#[trigger] cells@[k]).0 as int, cells@[k].1 as int)
                    == line_cell(from, to, k),
        ensures
            cells@.len() == line_length(from, to),
            forall|k: int|
                0 <= k < cells@.len() ==> ((#[trigger] cells@[k]).0 as int, cells@[k].1 as int)
                    == line_cell(from, to, k),
        decreases wide - a + high - b,
    {
        proof {
            if wide >= high {
                if wide > 0 {
                    lemma_rounded(a * high, wide, b);
                }
            } else {
                lemma_rounded(b * wide, high, a);
            }
        }
        cells.push((x as u16, y as u16));
        if x == x1 && y == y1 {
            break;
        }
        let double: i32 = 2 * error;
        proof {
            assert((a + 1) * high == a * high + high) by (nonlinear_arith);
            assert((b + 1) * wide == b * wide + wide) by (nonlinear_arith);
            lemma_not_done(wide, high, a, b);
        }
        if double >= dy {
            error = error + dy;
            x = x + step_x;
            proof {
                a = a + 1;
                p = p + high;
            }
        }
        if double <= dx {
            error = error + dx;
            y = y + step_y;
            proof {
                b = b + 1;
                q = q + wide;
            }
        }
    }
    cells
}

/// Before the end of the line neither axis overshoots.
proof fn lemma_not_done(wide: int, high: int, a: int, b: int)
    requires
        0 <= a <= wide,
        0 <= b <= high,
    ensures
        a == wide ==> a * high == wide * high,
        b == high ==> b * wide == high * wide,
        a < wide ==> a * high + high <= wide * high,
        b < high ==> b * wide + wide <= high * wide,
        wide * high == high * wide,
{
    assert(wide * high == high * wide) by (nonlinear_arith);
    if a < wide {
        assert((a + 1) * high <= wide * high) by (nonlinear_arith)
            requires
                a + 1 <= wide,
                0 <= high,
        ;
        assert((a + 1) * high == a * high + high) by (nonlinear_arith);
    }
    if b < high {
        assert((b + 1) * wide <= high * wide) by (nonlinear_arith)
            requires
                b + 1 <= high,
                0 <= wide,
        ;
        assert((b + 1) * wide == b * wide + wide) by (nonlinear_arith);
    }
}

/// The smaller of two numbers.
pub open spec fn least(a: int, b: int) -> int {
    if a < b {
        a
    } else {
        b
    }
}

/// The larger of two numbers.
pub open spec fn most(a: int, b: int) -> int {
    if a < b {
        b
    } else {
        a
    }
}

/// The first column past the area.
pub open spec fn right_of(inner: Area) -> int {
    least(inner.x + inner.width, 65535)
}

/// The column a label of `len` cells centred on column `col` starts in: not left of
/// the area, and not so far right that it would stick out if it can be helped.
pub open spec fn label_start(inner: Area, col: u16, len: int) -> int {
    let wanted = most(col - len / 2, 0);
    let last = most(most(right_of(inner) - len, 0), inner.x as int);
    least(most(wanted, inner.x as int), last)
}

/// Where a label centred on `cell` is drawn: its start column and how many cells of
/// it fit.
pub fn label_bounds(inner: Area, cell: (u16, u16), label: &str) -> (r: (u16, u16))
    ensures
        ({
            let len = least(label@.len() as int, 65535);
            &&& r.0 == label_start(inner, cell.0, len)
            &&& r.1 == least(len, most(right_of(inner) - r.0, 0))
        }),
{
    let count: usize = to_chars(label).len();
    let len: u16 = if count > 65535 {
        65535
    } else {
        count as u16
    };
    let right: u16 = if inner.width > 65535 - inner.x {
        65535
    } else {
        inner.x + inner.width
    };
    let wanted: u16 = if cell.0 > len / 2 {
        cell.0 - len / 2
    } else {
        0
    };
    let fit: u16 = if right > len {
        right - len
    } else {
        0
    };
    let last: u16 = if fit > inner.x {
        fit
    } else {
        inner.x
    };
    let lower: u16 = if wanted < inner.x {
        inner.x
    } else {
        wanted
    };
    let start: u16 = if lower > last {
        last
    } else {
        lower
    };
    let room: u16 = if right > start {
        right - start
    } else {
        0
    };
    let shown: u16 = if len < room {
        len
    } else {
        room
    };
    (start, shown)
}

/// A label is drawn inside its area, as much of it as fits.
pub proof fn law_labels_stay_inside(inner: Area, col: u16, len: int)
    requires
        0 <= len <= 65535,
        inner.x + inner.width <= 65535,
    ensures
        inner.x <= label_start(inner, col, len),
        label_start(inner, col, len) + least(
            len,
            most(right_of(inner) - label_start(inner, col, len), 0),
        ) <= most(right_of(inner), inner.x as int),
        len <= inner.width ==> label_start(inner, col, len) + len <= right_of(inner),
{
}

proof fn lemma_rounded_near(p: int, q: int)
    requires
        q > 0,
    ensures
        -q < 2 * (q * rounded(p, q)) - 2 * p <= q,
{
    let n = rounded(p, q);
    let r = (2 * p + q) % (2 * q);
    vstd::arithmetic::div_mod::lemma_fundamental_div_mod(2 * p + q, 2 * q);
    vstd::arithmetic::div_mod::lemma_mod_bound(2 * p + q, 2 * q);
    assert((2 * q) * n == 2 * (q * n)) by (nonlinear_arith);
}

/// A line goes one cell at a time along its longer side, always towards its end, and on
/// the other side it is in the cell nearest to the straight line, less than half a cell
/// off or just half of one.
pub proof fn law_a_line_is_straight(from: (u16, u16), to: (u16, u16), k: int)
    requires
        0 <= k < line_length(from, to),
    ensures
        ({
            let cell = line_cell(from, to, k);
            let across = to.0 - from.0;
            let down = to.1 - from.1;
            let dx = if across < 0 {
                -across
            } else {
                across
            };
            let dy = if down < 0 {
                -down
            } else {
                down
            };
            let moved_x = if across < 0 {
                from.0 - cell.0
            } else {
                cell.0 - from.0
            };
            let moved_y = if down < 0 {
                from.1 - cell.1
            } else {
                cell.1 - from.1
            };
            &&& line_length(from, to) == (if dx >= dy {
                dx
            } else {
                dy
            }) + 1
            &&& dx >= dy ==> moved_x == k && -dx <= 2 * (dx * moved_y) - 2 * (k * dy) <= dx
            &&& dx < dy ==> moved_y == k && -dy <= 2 * (dy * moved_x) - 2 * (k * dx) <= dy
        }),
{
    let dx = gap(from.0, to.0);
    let dy = gap(from.1, to.1);
    if dx == 0 && dy == 0 {
        assert(0 * 0 == 0) by (nonlinear_arith);
        assert(k == 0);
    } else if dx >= dy {
        lemma_rounded_near(k * dy, dx);
        if from.1 == to.1 {
            assert(k * dy == 0) by (nonlinear_arith)
                requires
                    dy == 0,
            ;
            assert(0 * dx == 0) by (nonlinear_arith);
            lemma_rounded(0, dx, 0);
            assert(dx * 0 == 0) by (nonlinear_arith);
        }
    } else {
        lemma_rounded_near(k * dx, dy);
        if from.0 == to.0 {
            assert(k * dx == 0) by (nonlinear_arith)
                requires
                    dx == 0,
            ;
            assert(0 * dy == 0) by (nonlinear_arith);
            lemma_rounded(0, dy, 0);
            assert(dy * 0 == 0) by (nonlinear_arith);
        }
    }
}

/// A label that has room around its cell is centred on it; one too near an edge is
/// moved just so far that it fits, and one that is too wide starts at the left edge.
pub proof fn law_labels_are_centred(inner: Area, col: u16, len: int)
    requires
        0 <= len <= 65535,
        inner.x + inner.width <= 65535,
        inner.x <= col < inner.x + inner.width,
    ensures
        inner.x <= col - len / 2 && col - len / 2 + len <= inner.x + inner.width ==> label_start(
            inner,
            col,
            len,
        ) == col - len / 2,
        len <= inner.width && col - len / 2 < inner.x ==> label_start(inner, col, len) == inner.x,
        len <= inner.width && col - len / 2 + len > inner.x + inner.width ==> label_start(
            inner,
            col,
            len,
        ) == inner.x + inner.width - len,
        len > inner.width ==> label_start(inner, col, len) == inner.x,
        right_of(inner) == inner.x + inner.width,
{
}

} // verus!
