//! Line of sight between two cells of a level.

use vstd::prelude::*;

verus! {

/// The light transmission properties of a cell.
#[derive(Debug, PartialEq, Eq, Structural)]
pub enum CellVisibility {
    /// Light passes through this cell as through air.
    Transparent,
    /// This cell blocks all light.
    Blocking,
}

/// How well lit a cell is.
#[derive(Debug, PartialEq, Eq, Structural)]
pub enum Lighting {
    /// Only seen from an adjacent cell.
    Dark,
    /// Seen from far away.
    Lit,
}

/// Division of `n` by a positive `d`, rounded toward zero.
pub open spec fn div_toward_zero(n: int, d: int) -> int {
    if n >= 0 {
        n / d
    } else {
        -((-n) / d)
    }
}

/// The sign of `v`: -1, 0 or 1.
pub open spec fn sign(v: int) -> int {
    if v > 0 {
        1
    } else if v < 0 {
        -1
    } else {
        0
    }
}

pub open spec fn abs(v: int) -> int {
    if v < 0 {
        -v
    } else {
        v
    }
}

/// Row of step `k` of a line that runs left to right from `(sx, sy)` toward
/// `(ex, ey)` with `|ey - sy| <= ex - sx`. The line aims at the corner of the
/// target cell nearest the start (half a cell closer on each moving axis),
/// and each row is rounded by adding a half and dropping the fraction
/// toward zero.
pub open spec fn right_row(sx: int, sy: int, ex: int, ey: int, k: int) -> int {
    let dx = ex - sx;
    let dy = ey - sy;
    div_toward_zero(
        2 * sy * (2 * dx - 1) + 2 * k * (2 * dy - sign(dy)) + (2 * dx - 1),
        2 * (2 * dx - 1),
    )
}

/// Step `k` of a line with `|ey - sy| <= |ex - sx|`, left to right or
/// mirrored to run right to left.
pub open spec fn flat_point(sx: int, sy: int, ex: int, ey: int, k: int) -> (int, int) {
    if ex < sx {
        (-(-sx + k), right_row(-sx, sy, -ex, ey, k))
    } else {
        (sx + k, right_row(sx, sy, ex, ey, k))
    }
}

/// The number of cells on the line from `s` to `e`: one per step along its
/// longer axis, the start included and the end left out.
pub open spec fn line_len(s: (int, int), e: (int, int)) -> nat {
    let dx = abs(e.0 - s.0);
    let dy = abs(e.1 - s.1);
    if dx < dy {
        dy as nat
    } else {
        dx as nat
    }
}

/// Step `k` of the line from `s` to `e`; steep lines are traced with the
/// axes swapped.
pub open spec fn line_point(s: (int, int), e: (int, int), k: int) -> (int, int) {
    if abs(e.0 - s.0) < abs(e.1 - s.1) {
        let p = flat_point(s.1, s.0, e.1, e.0, k);
        (p.1, p.0)
    } else {
        flat_point(s.0, s.1, e.0, e.1, k)
    }
}

/// The cells of the line from `s` to `e`, `s` first and `e` left out.
pub open spec fn line_cells(s: (int, int), e: (int, int)) -> Seq<(int, int)> {
    Seq::new(line_len(s, e), |k: int| line_point(s, e, k))
}

pub open spec fn as_int_pair(p: (i32, i32)) -> (int, int) {
    (p.0 as int, p.1 as int)
}

pub open spec fn as_i32_pair(p: (int, int)) -> (i32, i32) {
    (p.0 as i32, p.1 as i32)
}

/// Whether `cell` lies strictly inside `radius` of `origin` (always, with no radius).
pub open spec fn in_radius(origin: (i32, i32), cell: (i32, i32), radius: Option<i32>) -> bool {
    match radius {
        None => true,
        Some(r) => {
            let dx = cell.0 - origin.0;
            let dy = cell.1 - origin.1;
            dx * dx + dy * dy < r * r
        },
    }
}

/// Whether an observer at `origin` sees `cell`: it lies inside the radius,
/// it is lit, and every cell of the line from `origin` to it, `cell` itself
/// left out, lets light through.
pub open spec fn sees(
    origin: (i32, i32),
    cell: (i32, i32),
    radius: Option<i32>,
    clear: spec_fn((i32, i32)) -> bool,
    lit: spec_fn((i32, i32)) -> bool,
) -> bool {
    &&& in_radius(origin, cell, radius)
    &&& lit(cell)
    &&& forall|k: int|
        0 <= k < line_len(as_int_pair(origin), as_int_pair(cell)) ==> #[trigger] clear(
            as_i32_pair(line_point(as_int_pair(origin), as_int_pair(cell), k)),
        )
}

/// A lit cell is seen from itself, with no radius or a positive one: the
/// line from a cell to itself has no cells.
pub proof fn lemma_cell_sees_itself(
    p: (i32, i32),
    radius: Option<i32>,
    clear: spec_fn((i32, i32)) -> bool,
    lit: spec_fn((i32, i32)) -> bool,
)
    requires
        lit(p),
        (radius matches Some(r) ==> r > 0),
    ensures
        sees(p, p, radius, clear, lit),
{
    if let Some(r) = radius {
        assert(0 < r * r) by (nonlinear_arith)
            requires r > 0;
    }
    assert(line_len(as_int_pair(p), as_int_pair(p)) == 0);
}

/// Sight stays when more cells let light through and more are lit.
pub proof fn lemma_sees_weaker(
    origin: (i32, i32),
    cell: (i32, i32),
    radius: Option<i32>,
    clear1: spec_fn((i32, i32)) -> bool,
    lit1: spec_fn((i32, i32)) -> bool,
    clear2: spec_fn((i32, i32)) -> bool,
    lit2: spec_fn((i32, i32)) -> bool,
)
    requires
        sees(origin, cell, radius, clear1, lit1),
        forall|p: (i32, i32)| #[trigger] clear1(p) ==> clear2(p),
        forall|p: (i32, i32)| #[trigger] lit1(p) ==> lit2(p),
    ensures
        sees(origin, cell, radius, clear2, lit2),
{
    assert forall|k: int| 0 <= k < line_len(as_int_pair(origin), as_int_pair(cell)) implies #[trigger] clear2(
        as_i32_pair(line_point(as_int_pair(origin), as_int_pair(cell), k)),
    ) by {
        assert(clear1(as_i32_pair(line_point(as_int_pair(origin), as_int_pair(cell), k))));
    }
}

/// The cells of the straight line from `start` to `end`: `start` first, one
/// cell per step along the longer axis, and `end` left out.
pub fn line(start: (i32, i32), end: (i32, i32)) -> (r: Vec<(i32, i32)>)
    ensures
        r@.len() == line_len(as_int_pair(start), as_int_pair(end)),
        forall|k: int|
            0 <= k < r@.len() ==> as_int_pair(#[trigger] r@[k]) == line_point(
                as_int_pair(start),
                as_int_pair(end),
                k,
            ),
{
    let sx = start.0 as i128;
    let sy = start.1 as i128;
    let ex = end.0 as i128;
    let ey = end.1 as i128;
    let adx: i128 = if ex < sx { sx - ex } else { ex - sx };
    let ady: i128 = if ey < sy { sy - ey } else { ey - sy };
    // Steep lines are traced with the axes swapped.
    let steep = adx < ady;
    let (fsx, fsy, fex, fey) = if steep { (sy, sx, ey, ex) } else { (sx, sy, ex, ey) };
    // Lines that run right to left are traced mirrored.
    let mirror = fex < fsx;
    let (nsx, nex) = if mirror { (-fsx, -fex) } else { (fsx, fex) };
    let n: i128 = nex - nsx;
    let dy: i128 = fey - fsy;
    let sg: i128 = if dy > 0 { 1 } else if dy < 0 { -1 } else { 0 };
    let mut r: Vec<(i32, i32)> = Vec::new();
    let mut k: i128 = 0;
    while k < n
        invariant
            0 <= k <= n,
            n == line_len(as_int_pair(start), as_int_pair(end)),
            n <= 0x1_0000_0000,
            -0x8000_0000 <= fsy < 0x8000_0000,
            -0x8000_0000 <= fey < 0x8000_0000,
            -0x8000_0000 <= fsx < 0x8000_0000,
            -0x8000_0000 <= fex < 0x8000_0000,
            abs(dy as int) <= n,
            dy == fey - fsy,
            sg == sign(dy as int),
            nsx == (if mirror { -fsx } else { fsx as int }),
            nex == (if mirror { -fex } else { fex as int }),
            mirror == (fex < fsx),
            n == nex - nsx,
            steep == (abs(ex - sx) < abs(ey - sy)),
            (fsx, fsy, fex, fey) == (if steep { (sy, sx, ey, ex) } else { (sx, sy, ex, ey) }),
            sx == start.0,
            sy == start.1,
            ex == end.0,
            ey == end.1,
            r@.len() == k,
            forall|j: int|
                0 <= j < k ==> as_int_pair(#[trigger] r@[j]) == line_point(
                    as_int_pair(start),
                    as_int_pair(end),
                    j,
                ),
        decreases n - k,
    {
        let w: i128 = 2 * n - 1;
        assert(-0x8000_0000 * w <= fsy * w <= 0x8000_0000 * w) by (nonlinear_arith)
            requires -0x8000_0000 <= fsy < 0x8000_0000, 0 < w <= 0x2_0000_0000;
        assert(-0x2_0000_0000 * 0x2_0000_0001 <= k * (2 * dy - sg) <= 0x2_0000_0000 * 0x2_0000_0001)
            by (nonlinear_arith)
            requires 0 <= k <= 0x1_0000_0000, -0x2_0000_0001 <= 2 * dy - sg <= 0x2_0000_0001;
        let num: i128 = 2 * (fsy * w) + 2 * (k * (2 * dy - sg)) + w;
        let den: i128 = 2 * w;
        let row: i128 = if num >= 0 { num / den } else { -((-num) / den) };
        proof {
            lemma_right_row_bounds(nsx as int, fsy as int, nex as int, fey as int, k as int);
        }
        assert(num == 2 * fsy * (2 * (nex - nsx) - 1) + 2 * k * (2 * (fey - fsy) - sign(dy as int))
            + (2 * (nex - nsx) - 1)) by (nonlinear_arith)
            requires
                num == 2 * (fsy * w) + 2 * (k * (2 * dy - sg)) + w,
                w == 2 * n - 1,
                n == nex - nsx,
                dy == fey - fsy,
                sg == sign(dy as int);
        assert(row == right_row(nsx as int, fsy as int, nex as int, fey as int, k as int));
        let col: i128 = if mirror { -(nsx + k) } else { nsx + k };
        let p: (i32, i32) = if steep { (row as i32, col as i32) } else { (col as i32, row as i32) };
        r.push(p);
        k = k + 1;
    }
    r
}

/// A map over cells that accepts every cell and gives each one result.
pub open spec fn map_is_function<T, F: Fn((i32, i32)) -> T>(f: F) -> bool {
    &&& forall|p: (i32, i32)| f.requires((p,))
    &&& forall|p: (i32, i32), a: T, b: T| f.ensures((p,), a) && f.ensures((p,), b) ==> a == b
}

/// The cells that `cell_map` calls transparent.
pub open spec fn clear_in<F: Fn((i32, i32)) -> CellVisibility>(cell_map: F) -> spec_fn((i32, i32)) -> bool {
    |p: (i32, i32)| cell_map.ensures((p,), CellVisibility::Transparent)
}

/// The cells for which `cell_map` gives nothing but transparent.
pub open spec fn only_clear_in<F: Fn((i32, i32)) -> CellVisibility>(cell_map: F) -> spec_fn((i32, i32)) -> bool {
    |p: (i32, i32)| forall|v: CellVisibility| cell_map.ensures((p,), v) ==> v == CellVisibility::Transparent
}

/// The cells for which `light_map` gives nothing but lit.
pub open spec fn only_lit_in<F: Fn((i32, i32)) -> Lighting>(light_map: F) -> spec_fn((i32, i32)) -> bool {
    |p: (i32, i32)| forall|v: Lighting| light_map.ensures((p,), v) ==> v == Lighting::Lit
}

/// The cells that `light_map` calls lit.
pub open spec fn lit_in<F: Fn((i32, i32)) -> Lighting>(light_map: F) -> spec_fn((i32, i32)) -> bool {
    |p: (i32, i32)| light_map.ensures((p,), Lighting::Lit)
}

/// Whether an observer standing at `origin` sees the contents of `cell`:
/// `radius` bounds how far it sees (`None` for no bound), `cell_map` tells
/// whether a cell lets light through, and `light_map` how well lit it is.
pub fn visible(
    origin: (i32, i32),
    cell: (i32, i32),
    radius: Option<i32>,
    cell_map: impl Fn((i32, i32)) -> CellVisibility,
    light_map: impl Fn((i32, i32)) -> Lighting,
) -> (r: bool)
    requires
        (radius matches Some(rad) ==> rad >= 0),
        map_is_function(cell_map),
        map_is_function(light_map),
    ensures
        r == sees(origin, cell, radius, clear_in(cell_map), lit_in(light_map)),
        r == sees(origin, cell, radius, only_clear_in(cell_map), only_lit_in(light_map)),
{
    let ghost clear = clear_in(cell_map);
    let ghost only_clear = only_clear_in(cell_map);
    if let Some(rad) = radius {
        let dx = cell.0 as i128 - origin.0 as i128;
        let dy = cell.1 as i128 - origin.1 as i128;
        assert(0 <= dx * dx <= 0x1_0000_0000 * 0x1_0000_0000) by (nonlinear_arith)
            requires -0x1_0000_0000 <= dx <= 0x1_0000_0000;
        assert(0 <= dy * dy <= 0x1_0000_0000 * 0x1_0000_0000) by (nonlinear_arith)
            requires -0x1_0000_0000 <= dy <= 0x1_0000_0000;
        assert(0 <= (rad as i128) * (rad as i128) <= 0x8000_0000 * 0x8000_0000) by (nonlinear_arith)
            requires 0 <= rad <= 0x8000_0000;
        if !(dx * dx + dy * dy < (rad as i128) * (rad as i128)) {
            return false;
        }
    }
    let light = light_map(cell);
    if !(light == Lighting::Lit) {
        assert(!only_lit_in(light_map)(cell));
        return false;
    }
    assert(only_lit_in(light_map)(cell));
    let cells = line(origin, cell);
    let mut i: usize = 0;
    while i < cells.len()
        invariant
            0 <= i <= cells@.len(),
            cells@.len() == line_len(as_int_pair(origin), as_int_pair(cell)),
            forall|k: int|
                0 <= k < cells@.len() ==> as_int_pair(#[trigger] cells@[k]) == line_point(
                    as_int_pair(origin),
                    as_int_pair(cell),
                    k,
                ),
            forall|k: int| 0 <= k < i ==> #[trigger] clear(as_i32_pair(line_point(as_int_pair(origin), as_int_pair(cell), k))),
            forall|k: int| 0 <= k < i ==> #[trigger] only_clear(as_i32_pair(line_point(as_int_pair(origin), as_int_pair(cell), k))),
            only_clear == only_clear_in(cell_map),
            map_is_function(cell_map),
            clear == clear_in(cell_map),
        decreases cells@.len() - i,
    {
        let p = cells[i];
        assert(as_i32_pair(line_point(as_int_pair(origin), as_int_pair(cell), i as int)) == p);
        let v = cell_map(p);
        if !(v == CellVisibility::Transparent) {
            assert(!clear(as_i32_pair(line_point(as_int_pair(origin), as_int_pair(cell), i as int))));
            assert(!only_clear(as_i32_pair(line_point(as_int_pair(origin), as_int_pair(cell), i as int))));
            return false;
        }
        assert(only_clear(as_i32_pair(line_point(as_int_pair(origin), as_int_pair(cell), i as int))));
        i = i + 1;
    }
    true
}

/// Bounds on a row of a left-to-right line: it stays between the rows of
/// its ends, but that rounding toward zero may lift a negative row by one.
proof fn lemma_right_row_bounds(sx: int, sy: int, ex: int, ey: int, k: int)
    requires
        0 <= k < ex - sx,
        abs(ey - sy) <= ex - sx,
    ensures
        ({
            let y = right_row(sx, sy, ex, ey, k);
            &&& (if sy < ey { sy } else { ey }) <= y
            &&& y <= (if sy < ey && ey > 0 { ey } else if sy >= ey && sy > 0 { sy } else { 0 })
        }),
{
    let dx = ex - sx;
    let dy = ey - sy;
    let den = 2 * (2 * dx - 1);
    let num = 2 * sy * (2 * dx - 1) + 2 * k * (2 * dy - sign(dy)) + (2 * dx - 1);
    let lo = if sy < ey { sy } else { ey };
    let hi = if sy < ey { ey } else { sy };
    assert(den > 0);
    if dy > 0 {
        assert(num - sy * den == 2 * k * (2 * dy - 1) + (2 * dx - 1)) by (nonlinear_arith)
            requires den == 2 * (2 * dx - 1),
                num == 2 * sy * (2 * dx - 1) + 2 * k * (2 * dy - 1) + (2 * dx - 1);
        assert(2 * k * (2 * dy - 1) >= 0) by (nonlinear_arith)
            requires k >= 0, dy > 0;
        assert(ey * den - num == (2 * dy - 1) * (2 * dx - 1 - 2 * k)) by (nonlinear_arith)
            requires ey == sy + dy, den == 2 * (2 * dx - 1),
                num == 2 * sy * (2 * dx - 1) + 2 * k * (2 * dy - 1) + (2 * dx - 1);
        assert((2 * dy - 1) * (2 * dx - 1 - 2 * k) >= 0) by (nonlinear_arith)
            requires dy > 0, 2 * dx - 1 - 2 * k >= 0;
    } else if dy == 0 {
        assert(num - sy * den == 2 * dx - 1) by (nonlinear_arith)
            requires num == 2 * sy * (2 * dx - 1) + 2 * k * 0 + (2 * dx - 1), den == 2 * (2 * dx - 1);
    } else {
        assert(num - ey * den == (2 * dx - 1) * (1 - 2 * dy) + 2 * k * (2 * dy + 1)) by (nonlinear_arith)
            requires ey == sy + dy, den == 2 * (2 * dx - 1),
                num == 2 * sy * (2 * dx - 1) + 2 * k * (2 * dy + 1) + (2 * dx - 1);
        assert(2 * k * (2 * dy + 1) >= 2 * (dx - 1) * (2 * dy + 1)) by (nonlinear_arith)
            requires k <= dx - 1, 2 * dy + 1 < 0;
        assert((2 * dx - 1) * (1 - 2 * dy) + 2 * (dx - 1) * (2 * dy + 1) == 4 * dx - 2 * dy - 3)
            by (nonlinear_arith);
        assert(num - sy * den == 2 * k * (2 * dy + 1) + (2 * dx - 1)) by (nonlinear_arith)
            requires num == 2 * sy * (2 * dx - 1) + 2 * k * (2 * dy + 1) + (2 * dx - 1), den == 2 * (2 * dx - 1);
        assert(2 * k * (2 * dy + 1) <= 0) by (nonlinear_arith)
            requires k >= 0, 2 * dy + 1 < 0;
    }
    // Now lo * den <= num, and num <= hi * den + (den / 2).
    assert(lo * den <= num);
    assert(num <= hi * den + (2 * dx - 1));
    assert(den / 2 == 2 * dx - 1);
    lemma_div_toward_zero_bounds(num, den, lo, hi);
}

/// If `lo <= n / d <= hi + 1/2` then rounding toward zero lands in `lo ..= max(hi, 0)`.
proof fn lemma_div_toward_zero_bounds(n: int, d: int, lo: int, hi: int)
    requires
        d > 0,
        d % 2 == 0,
        lo * d <= n,
        n <= hi * d + d / 2,
    ensures
        lo <= div_toward_zero(n, d),
        div_toward_zero(n, d) <= (if hi > 0 { hi } else { 0 }),
{
    if n >= 0 {
        assert(lo <= n / d) by (nonlinear_arith)
            requires lo * d <= n, d > 0;
        assert(n / d <= hi || hi < 0) by (nonlinear_arith)
            requires n <= hi * d + d / 2, d > 0, n >= 0;
        if hi < 0 {
            assert(n / d == 0) by (nonlinear_arith)
                requires n <= hi * d + d / 2, d > 0, n >= 0, hi < 0;
        }
    } else {
        let m = -n;
        assert(m / d <= -lo) by (nonlinear_arith)
            requires lo * d <= n, m == -n, d > 0, m > 0;
        assert(m / d >= 0) by (nonlinear_arith)
            requires d > 0, m > 0;
    }
}

} // verus!
