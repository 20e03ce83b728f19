use vstd::prelude::*;
use vstd::arithmetic::div_mod::{lemma_div_is_ordered, lemma_div_multiples_vanish};
use vstd::arithmetic::mul::{lemma_mul_inequality, lemma_mul_is_distributive_add_other_way};

use crate::geometry::GapConfig;
use crate::geometry::Rect;

verus! {

// The master-stack tiling algorithm. Given the ordered list of visible,
// non-floating clients of a monitor, the monitor's usable rectangle, the
// master-area fraction (in permille, to keep all arithmetic exact) and the
// gap settings, it assigns one rectangle per client: the first client fills
// a master column, the rest are stacked vertically in the remaining column.
//
// The spec functions below give each coordinate in exact integer
// arithmetic; `tile`'s postcondition pins every returned rectangle to them,
// so the layout is a function of its inputs alone (identical inputs always
// give identical output). Gap values too large for the usable rectangle
// fall back to zero, which keeps the functions total over every
// non-negative gap configuration.

/// Inner horizontal gap actually applied (zero when gaps are disabled).
pub open spec fn eff_inner_h(g: GapConfig) -> int {
    if g.enabled {
        g.inner_horizontal as int
    } else {
        0
    }
}

/// Inner vertical gap actually applied (zero when gaps are disabled).
pub open spec fn eff_inner_v(g: GapConfig) -> int {
    if g.enabled {
        g.inner_vertical as int
    } else {
        0
    }
}

/// Outer horizontal gap actually applied (zero when gaps are disabled).
pub open spec fn eff_outer_h(g: GapConfig) -> int {
    if g.enabled {
        g.outer_horizontal as int
    } else {
        0
    }
}

/// Outer vertical gap actually applied (zero when gaps are disabled).
pub open spec fn eff_outer_v(g: GapConfig) -> int {
    if g.enabled {
        g.outer_vertical as int
    } else {
        0
    }
}

/// Outer horizontal gap, dropped to zero when a pair of them would not fit.
pub open spec fn fit_outer_h(u: Rect, g: GapConfig) -> int {
    if 2 * eff_outer_h(g) <= u.width {
        eff_outer_h(g)
    } else {
        0
    }
}

/// Outer vertical gap, dropped to zero when a pair of them would not fit.
pub open spec fn fit_outer_v(u: Rect, g: GapConfig) -> int {
    if 2 * eff_outer_v(g) <= u.height {
        eff_outer_v(g)
    } else {
        0
    }
}

/// Left edge of the work area: the usable rectangle minus outer gaps.
pub open spec fn work_x(u: Rect, g: GapConfig) -> int {
    u.x + fit_outer_h(u, g)
}

/// Top edge of the work area.
pub open spec fn work_y(u: Rect, g: GapConfig) -> int {
    u.y + fit_outer_v(u, g)
}

/// Width of the work area.
pub open spec fn work_w(u: Rect, g: GapConfig) -> int {
    u.width - 2 * fit_outer_h(u, g)
}

/// Height of the work area.
pub open spec fn work_h(u: Rect, g: GapConfig) -> int {
    u.height - 2 * fit_outer_v(u, g)
}

/// Inner horizontal gap between master and stack columns, dropped to zero
/// when it would not fit in the work area.
pub open spec fn fit_inner_h(u: Rect, g: GapConfig) -> int {
    if eff_inner_h(g) <= work_w(u, g) {
        eff_inner_h(g)
    } else {
        0
    }
}

/// Width of the master column: the given permille fraction of the work
/// width that remains after the column gap.
pub open spec fn master_width(u: Rect, mf: u32, g: GapConfig) -> int {
    ((work_w(u, g) - fit_inner_h(u, g)) * mf) / 1000
}

/// Left edge of the stack column.
pub open spec fn stack_x(u: Rect, mf: u32, g: GapConfig) -> int {
    work_x(u, g) + master_width(u, mf, g) + fit_inner_h(u, g)
}

/// Width of the stack column.
pub open spec fn stack_width(u: Rect, mf: u32, g: GapConfig) -> int {
    work_w(u, g) - master_width(u, mf, g) - fit_inner_h(u, g)
}

/// Inner vertical gap between stacked rows (`k` rows in the stack),
/// dropped to zero when the gaps alone would exceed the work height.
pub open spec fn fit_inner_v(u: Rect, g: GapConfig, k: int) -> int {
    if (k - 1) * eff_inner_v(g) <= work_h(u, g) {
        eff_inner_v(g)
    } else {
        0
    }
}

/// Total height shared by the `k` stacked rows, gaps excluded.
pub open spec fn stack_total_h(u: Rect, g: GapConfig, k: int) -> int {
    work_h(u, g) - (k - 1) * fit_inner_v(u, g, k)
}

/// Vertical offset of stacked row `j` (0-based) within the stack column.
/// Rows split the shared height evenly, with rounding spread so that the
/// rows tile it without remainder.
pub open spec fn row_y_off(u: Rect, g: GapConfig, k: int, j: int) -> int {
    (j * stack_total_h(u, g, k)) / k + j * fit_inner_v(u, g, k)
}

/// Height of stacked row `j` (0-based).
pub open spec fn row_h(u: Rect, g: GapConfig, k: int, j: int) -> int {
    ((j + 1) * stack_total_h(u, g, k)) / k - (j * stack_total_h(u, g, k)) / k
}

/// X coordinate of the rectangle for client `i` of `n`.
pub open spec fn tiled_x(i: int, n: int, u: Rect, mf: u32, g: GapConfig) -> int {
    if n <= 1 || i == 0 {
        work_x(u, g)
    } else {
        stack_x(u, mf, g)
    }
}

/// Y coordinate of the rectangle for client `i` of `n`.
pub open spec fn tiled_y(i: int, n: int, u: Rect, mf: u32, g: GapConfig) -> int {
    if n <= 1 || i == 0 {
        work_y(u, g)
    } else {
        work_y(u, g) + row_y_off(u, g, n - 1, i - 1)
    }
}

/// Width of the rectangle for client `i` of `n`.
pub open spec fn tiled_w(i: int, n: int, u: Rect, mf: u32, g: GapConfig) -> int {
    if n <= 1 {
        work_w(u, g)
    } else if i == 0 {
        master_width(u, mf, g)
    } else {
        stack_width(u, mf, g)
    }
}

/// Height of the rectangle for client `i` of `n`.
pub open spec fn tiled_h(i: int, n: int, u: Rect, mf: u32, g: GapConfig) -> int {
    if n <= 1 || i == 0 {
        work_h(u, g)
    } else {
        row_h(u, g, n - 1, i - 1)
    }
}

/// The master fraction never exceeds the whole: the master column fits in
/// the work area beside the column gap.
proof fn lemma_master_width_fits(u: Rect, mf: u32, g: GapConfig)
    requires
        mf <= 1000,
    ensures
        0 <= master_width(u, mf, g) <= work_w(u, g) - fit_inner_h(u, g),
{
    let a = work_w(u, g) - fit_inner_h(u, g);
    assert(a >= 0);
    lemma_mul_inequality(mf as int, 1000, a);
    assert(a * mf == mf * a) by (nonlinear_arith);
    assert(a * 1000 == 1000 * a) by (nonlinear_arith);
    lemma_div_is_ordered(a * mf, a * 1000, 1000);
    lemma_div_multiples_vanish(a, 1000);
    assert((a * mf) / 1000 >= 0) by {
        assert(a * mf >= 0) by (nonlinear_arith)
            requires a >= 0 && mf >= 0;
    }
}

/// Each stacked row has non-negative height, rows are laid out top to
/// bottom inside the stack column, and together with the configured gaps
/// they span exactly the work height.
proof fn lemma_rows_tile(u: Rect, g: GapConfig, k: int)
    requires
        1 <= k,
    ensures
        forall|j: int| 0 <= j < k ==> #[trigger] row_h(u, g, k, j) >= 0,
        forall|j: int|
            0 <= j < k ==> #[trigger] row_y_off(u, g, k, j) + row_h(u, g, k, j) + fit_inner_v(
                u,
                g,
                k,
            ) == row_y_off(u, g, k, j + 1),
        row_y_off(u, g, k, 0) == 0,
        row_y_off(u, g, k, k - 1) + row_h(u, g, k, k - 1) == work_h(u, g),
        forall|j: int|
            0 <= j < k ==> #[trigger] row_y_off(u, g, k, j) + row_h(u, g, k, j) <= work_h(u, g) - (
            k - 1 - j) * fit_inner_v(u, g, k),
{
    let sh = stack_total_h(u, g, k);
    let iv = fit_inner_v(u, g, k);
    assert(sh >= 0) by {
        if (k - 1) * eff_inner_v(g) <= work_h(u, g) {
        } else {
            assert((k - 1) * 0 == 0) by (nonlinear_arith);
        }
    }
    assert(iv >= 0);
    assert forall|j: int| 0 <= j < k implies #[trigger] row_h(u, g, k, j) >= 0 by {
        lemma_mul_is_distributive_add_other_way(sh, j, 1);
        lemma_div_is_ordered(j * sh, (j + 1) * sh, k);
    }
    assert forall|j: int|
        0 <= j < k implies #[trigger] row_y_off(u, g, k, j) + row_h(u, g, k, j) + iv == row_y_off(
        u,
        g,
        k,
        j + 1,
    ) by {
        lemma_mul_is_distributive_add_other_way(iv, j, 1);
    }
    assert(row_y_off(u, g, k, 0) == 0) by {
        assert(0 * sh == 0 && 0 * iv == 0) by (nonlinear_arith);
    }
    assert((k * sh) / k == sh) by {
        lemma_div_multiples_vanish(sh, k);
        assert(k * sh == sh * k) by (nonlinear_arith);
    }
    assert(row_y_off(u, g, k, k - 1) + row_h(u, g, k, k - 1) == sh + (k - 1) * iv) by {
        lemma_mul_is_distributive_add_other_way(sh, k - 1, 1);
    }
    assert(sh + (k - 1) * iv == work_h(u, g)) by {
        if (k - 1) * eff_inner_v(g) <= work_h(u, g) {
        } else {
            assert((k - 1) * 0 == 0) by (nonlinear_arith);
        }
    }
    assert forall|j: int|
        0 <= j < k implies #[trigger] row_y_off(u, g, k, j) + row_h(u, g, k, j) <= work_h(u, g) - (
    k - 1 - j) * iv by {
        lemma_mul_is_distributive_add_other_way(sh, j, 1);
        assert((j + 1) * sh <= k * sh) by {
            lemma_mul_inequality(j + 1, k, sh);
            assert((j + 1) * sh == sh * (j + 1) && k * sh == sh * k) by (nonlinear_arith);
        }
        lemma_div_is_ordered((j + 1) * sh, k * sh, k);
        assert(row_y_off(u, g, k, j) + row_h(u, g, k, j) == ((j + 1) * sh) / k + j * iv);
        assert(j * iv + (k - 1 - j) * iv == (k - 1) * iv) by (nonlinear_arith);
    }
}

/// Compute the tiled rectangle of every client. `count` is the number of
/// visible, non-floating clients, in monitor list order; entry `i` of the
/// result is the geometry of client `i`. `master_permille` is the master
/// column fraction in thousandths of the work width.
#[verifier::rlimit(100)]
pub fn tile(count: usize, usable: &Rect, master_permille: u32, gaps: &GapConfig) -> (r: Vec<Rect>)
    requires
        master_permille <= 1000,
        usable.x + usable.width <= i32::MAX,
        usable.y + usable.height <= i32::MAX,
        count <= u32::MAX,
    ensures
        r@.len() == count,
        forall|i: int|
            0 <= i < count ==> (#[trigger] r@[i]).x == tiled_x(i, count as int, *usable,
            master_permille, *gaps),
        forall|i: int|
            0 <= i < count ==> (#[trigger] r@[i]).y == tiled_y(i, count as int, *usable,
            master_permille, *gaps),
        forall|i: int|
            0 <= i < count ==> (#[trigger] r@[i]).width == tiled_w(i, count as int, *usable,
            master_permille, *gaps),
        forall|i: int|
            0 <= i < count ==> (#[trigger] r@[i]).height == tiled_h(i, count as int, *usable,
            master_permille, *gaps),
        matches_tiling(r@, count as int, *usable, master_permille, *gaps),
{
    let u = *usable;
    let g = *gaps;
    let mut out: Vec<Rect> = Vec::new();
    if count == 0 {
        return out;
    }
    let goh: u32 = if g.enabled {
        g.outer_horizontal
    } else {
        0
    };
    let gov: u32 = if g.enabled {
        g.outer_vertical
    } else {
        0
    };
    let gih: u32 = if g.enabled {
        g.inner_horizontal
    } else {
        0
    };
    let giv: u32 = if g.enabled {
        g.inner_vertical
    } else {
        0
    };
    let oh: u32 = if 2 * (goh as u64) <= u.width as u64 {
        goh
    } else {
        0
    };
    let ov: u32 = if 2 * (gov as u64) <= u.height as u64 {
        gov
    } else {
        0
    };
    assert(oh as int == fit_outer_h(u, g));
    assert(ov as int == fit_outer_v(u, g));
    let wx: i32 = ((u.x as i64) + (oh as i64)) as i32;
    let wy: i32 = ((u.y as i64) + (ov as i64)) as i32;
    let ww: u32 = u.width - 2 * oh;
    let wh: u32 = u.height - 2 * ov;
    assert(wx as int == work_x(u, g) && wy as int == work_y(u, g));
    assert(ww as int == work_w(u, g) && wh as int == work_h(u, g));
    if count == 1 {
        out.push(Rect { x: wx, y: wy, width: ww, height: wh });
        proof {
            assert(out@[0].x == tiled_x(0, 1, u, master_permille, g));
            assert(out@[0].y == tiled_y(0, 1, u, master_permille, g));
            assert(out@[0].width == tiled_w(0, 1, u, master_permille, g));
            assert(out@[0].height == tiled_h(0, 1, u, master_permille, g));
        }
        return out;
    }
    let ihf: u32 = if gih <= ww {
        gih
    } else {
        0
    };
    assert(ihf as int == fit_inner_h(u, g));
    proof {
        assert((ww - ihf) as int * master_permille as int <= 0xFFFF_FFFF * 1000) by (
        nonlinear_arith)
            requires (ww - ihf) as int <= 0xFFFF_FFFF && master_permille <= 1000;
    }
    let mw: u32 = (((ww - ihf) as u64 * master_permille as u64) / 1000) as u32;
    proof {
        lemma_master_width_fits(u, master_permille, g);
        assert(mw as int == master_width(u, master_permille, g));
    }
    let sx: i32 = ((wx as i64) + (mw as i64) + (ihf as i64)) as i32;
    let sw: u32 = ww - mw - ihf;
    assert(sx as int == stack_x(u, master_permille, g));
    assert(sw as int == stack_width(u, master_permille, g));
    let k: u32 = (count - 1) as u32;
    proof {
        assert((k as int - 1) * (giv as int) <= 0xFFFF_FFFF * 0xFFFF_FFFF) by (nonlinear_arith)
            requires 0 <= k as int - 1 <= 0xFFFF_FFFF && giv as int <= 0xFFFF_FFFF;
    }
    let ivf: u32 = if (k as u64 - 1) * (giv as u64) <= wh as u64 {
        giv
    } else {
        0
    };
    assert(ivf as int == fit_inner_v(u, g, k as int));
    let sh: u32 = wh - ((k - 1) as u64 * ivf as u64) as u32;
    proof {
        if (k as int - 1) * eff_inner_v(g) <= work_h(u, g) {
        } else {
            assert((k as int - 1) * 0 == 0) by (nonlinear_arith);
        }
        assert(sh as int == stack_total_h(u, g, k as int));
        lemma_rows_tile(u, g, k as int);
    }
    out.push(Rect { x: wx, y: wy, width: mw, height: wh });
    let mut j: u32 = 0;
    while j < k
        invariant
            j <= k,
            2 <= count <= u32::MAX,
            k == count - 1,
            u.y + u.height <= i32::MAX,
            sx as int == stack_x(u, master_permille, g),
            sw as int == stack_width(u, master_permille, g),
            wy as int == work_y(u, g),
            wh as int == work_h(u, g),
            ivf as int == fit_inner_v(u, g, k as int),
            sh as int == stack_total_h(u, g, k as int),
            wy + wh <= i32::MAX,
            out@.len() == j + 1,
            out@[0].x == tiled_x(0, count as int, u, master_permille, g),
            out@[0].y == tiled_y(0, count as int, u, master_permille, g),
            out@[0].width == tiled_w(0, count as int, u, master_permille, g),
            out@[0].height == tiled_h(0, count as int, u, master_permille, g),
            forall|i: int|
                1 <= i < j + 1 ==> #[trigger] out@[i].x == tiled_x(i, count as int, u,
                master_permille, g) && out@[i].y == tiled_y(i, count as int, u, master_permille, g)
                    && out@[i].width == tiled_w(i, count as int, u, master_permille, g)
                    && out@[i].height == tiled_h(i, count as int, u, master_permille, g),
        decreases k - j,
    {
        proof {
            assert((j as int + 1) * (sh as int) <= 0x1_0000_0000 * 0xFFFF_FFFF) by (
            nonlinear_arith)
                requires 0 <= j as int + 1 <= 0x1_0000_0000 && sh as int <= 0xFFFF_FFFF;
            assert(0 <= (j as int) * (sh as int) <= (j as int + 1) * (sh as int)) by (
            nonlinear_arith)
                requires 0 <= j as int && 0 <= sh as int;
        }
        let num: u64 = (j as u64) * (sh as u64);
        let next_num: u64 = ((j + 1) as u64) * (sh as u64);
        let cur_div: u64 = num / (k as u64);
        let next_div: u64 = next_num / (k as u64);
        proof {
            lemma_rows_tile(u, g, k as int);
            assert(cur_div as int == (j as int * sh as int) / (k as int));
            assert(next_div as int == ((j as int + 1) * sh as int) / (k as int));
            assert(row_h(u, g, k as int, j as int) >= 0);
            assert(row_y_off(u, g, k as int, j as int) + row_h(u, g, k as int, j as int) <= work_h(
                u,
                g,
            ) - (k as int - 1 - j as int) * fit_inner_v(u, g, k as int));
            assert((k as int - 1 - j as int) * fit_inner_v(u, g, k as int) >= 0) by (
            nonlinear_arith)
                requires k as int - 1 - j as int >= 0 && fit_inner_v(u, g, k as int) >= 0;
            assert((j as int) * (ivf as int) >= 0) by (nonlinear_arith)
                requires j as int >= 0 && ivf as int >= 0;
            lemma_div_is_ordered(0, j as int * sh as int, k as int);
            assert(row_y_off(u, g, k as int, j as int) <= work_h(u, g));
        }
        let y_off: u64 = cur_div + (j as u64) * (ivf as u64);
        let hh: u64 = next_div - cur_div;
        proof {
            assert(y_off as int == row_y_off(u, g, k as int, j as int));
            assert(hh as int == row_h(u, g, k as int, j as int));
            assert(y_off + hh <= wh);
        }
        let ry: i32 = ((wy as i64) + (y_off as i64)) as i32;
        out.push(Rect { x: sx, y: ry, width: sw, height: hh as u32 });
        proof {
            let n = count as int;
            assert forall|i: int|
                1 <= i < j + 2 implies #[trigger] out@[i].x == tiled_x(i, n, u, master_permille, g)
                && out@[i].y == tiled_y(i, n, u, master_permille, g)
                && out@[i].width == tiled_w(i, n, u, master_permille, g)
                && out@[i].height == tiled_h(i, n, u, master_permille, g) by {
                if i < j + 1 {
                    assert(out@[i].x == tiled_x(i, n, u, master_permille, g));
                } else {
                    assert(out@[i].y == tiled_y(i, n, u, master_permille, g));
                }
            }
        }
        j = j + 1;
    }
    proof {
        let n = count as int;
        assert forall|i: int|
            0 <= i < n implies (#[trigger] out@[i]).x == tiled_x(i, n, u, master_permille, g)
            && out@[i].y == tiled_y(i, n, u, master_permille, g)
            && out@[i].width == tiled_w(i, n, u, master_permille, g)
            && out@[i].height == tiled_h(i, n, u, master_permille, g) by {
            if i == 0 {
                assert(out@[0].x == tiled_x(0, n, u, master_permille, g));
            } else {
                assert(out@[i].x == tiled_x(i, n, u, master_permille, g));
            }
        }
    }
    out
}

/// True when `r` is the tiling that the spec functions assign to `n`
/// clients in the given usable rectangle.
pub open spec fn matches_tiling(r: Seq<Rect>, n: int, u: Rect, mf: u32, g: GapConfig) -> bool {
    r.len() == n && forall|i: int|
        0 <= i < n ==> (#[trigger] r[i]).x == tiled_x(i, n, u, mf, g) && r[i].y == tiled_y(
            i,
            n,
            u,
            mf,
            g,
        ) && r[i].width == tiled_w(i, n, u, mf, g) && r[i].height == tiled_h(i, n, u, mf, g)
}

/// The layout is deterministic and idempotent: any two results for the
/// same inputs are identical, because `tile`'s postcondition pins every
/// coordinate of every rectangle to the spec functions.
pub proof fn lemma_tile_deterministic(
    r1: Seq<Rect>,
    r2: Seq<Rect>,
    n: int,
    u: Rect,
    mf: u32,
    g: GapConfig,
)
    requires
        matches_tiling(r1, n, u, mf, g),
        matches_tiling(r2, n, u, mf, g),
    ensures
        r1 == r2,
{
    assert forall|i: int| 0 <= i < n implies r1[i] == r2[i] by {
        assert(r1[i].x == r2[i].x && r1[i].y == r2[i].y && r1[i].width == r2[i].width && r1[i].height
            == r2[i].height);
    }
    assert(r1 =~= r2);
}

/// With any gap configuration, the rectangles respect the configured
/// spacing exactly: the master column starts at the work area's corner
/// and spans its height, the stack column sits one inner gap to its
/// right, consecutive stack rows are separated by exactly one inner
/// vertical gap (so they never overlap), the first row starts at the top
/// of the work area, and the last ends at its bottom edge.
pub proof fn lemma_tile_spacing(n: int, u: Rect, mf: u32, g: GapConfig)
    requires
        2 <= n,
        mf <= 1000,
    ensures
        tiled_x(0, n, u, mf, g) == work_x(u, g),
        tiled_y(0, n, u, mf, g) == work_y(u, g),
        tiled_h(0, n, u, mf, g) == work_h(u, g),
        0 <= tiled_w(0, n, u, mf, g) <= work_w(u, g) - fit_inner_h(u, g),
        forall|i: int|
            1 <= i < n ==> #[trigger] tiled_x(i, n, u, mf, g) == work_x(u, g) + master_width(
                u,
                mf,
                g,
            ) + fit_inner_h(u, g) && tiled_w(i, n, u, mf, g) == work_w(u, g) - master_width(u, mf, g)
                - fit_inner_h(u, g),
        tiled_y(1, n, u, mf, g) == work_y(u, g),
        forall|i: int|
            1 <= i < n - 1 ==> #[trigger] tiled_y(i, n, u, mf, g) + tiled_h(i, n, u, mf, g)
                + fit_inner_v(u, g, n - 1) == tiled_y(i + 1, n, u, mf, g),
        tiled_y(n - 1, n, u, mf, g) + tiled_h(n - 1, n, u, mf, g) == work_y(u, g) + work_h(u, g),
        forall|i: int| 0 <= i < n ==> #[trigger] tiled_h(i, n, u, mf, g) >= 0,
{
    lemma_master_width_fits(u, mf, g);
    let k = n - 1;
    lemma_rows_tile(u, g, k);
    assert forall|i: int|
        1 <= i < n - 1 implies #[trigger] tiled_y(i, n, u, mf, g) + tiled_h(i, n, u, mf, g)
        + fit_inner_v(u, g, k) == tiled_y(i + 1, n, u, mf, g) by {
        assert(row_y_off(u, g, k, i - 1) + row_h(u, g, k, i - 1) + fit_inner_v(u, g, k)
            == row_y_off(u, g, k, i));
    }
}

/// The master-stack layout tiles the usable rectangle exactly when gaps
/// are off (or all configured as zero): the master column spans the full
/// height on the left, the stack column fills the remaining width, its
/// rows are contiguous from the top edge to the bottom edge, and no
/// rectangle has negative extent. Together with `tile`'s postcondition,
/// which pins every rectangle to these spec functions, this shows the
/// returned rectangles cover the usable area with no overlap and no gap.
pub proof fn lemma_tile_partitions_without_gaps(n: int, u: Rect, mf: u32, g: GapConfig)
    requires
        1 <= n,
        mf <= 1000,
        eff_inner_h(g) == 0,
        eff_inner_v(g) == 0,
        eff_outer_h(g) == 0,
        eff_outer_v(g) == 0,
    ensures
        tiled_x(0, n, u, mf, g) == u.x,
        tiled_y(0, n, u, mf, g) == u.y,
        tiled_h(0, n, u, mf, g) == u.height,
        n == 1 ==> tiled_w(0, n, u, mf, g) == u.width,
        n > 1 ==> tiled_w(0, n, u, mf, g) == master_width(u, mf, g),
        forall|i: int|
            1 <= i < n ==> #[trigger] tiled_x(i, n, u, mf, g) == u.x + master_width(u, mf, g)
                && tiled_w(i, n, u, mf, g) == u.width - master_width(u, mf, g),
        n > 1 ==> tiled_y(1, n, u, mf, g) == u.y,
        forall|i: int|
            1 <= i < n - 1 ==> #[trigger] tiled_y(i, n, u, mf, g) + tiled_h(i, n, u, mf, g)
                == tiled_y(i + 1, n, u, mf, g),
        n > 1 ==> tiled_y(n - 1, n, u, mf, g) + tiled_h(n - 1, n, u, mf, g) == u.y + u.height,
        forall|i: int| 0 <= i < n ==> #[trigger] tiled_h(i, n, u, mf, g) >= 0,
        forall|i: int| 0 <= i < n ==> #[trigger] tiled_w(i, n, u, mf, g) >= 0,
        0 <= master_width(u, mf, g) <= u.width,
{
    lemma_master_width_fits(u, mf, g);
    if n > 1 {
        let k = n - 1;
        lemma_rows_tile(u, g, k);
        assert((k - 1) * fit_inner_v(u, g, k) == 0) by (nonlinear_arith)
            requires fit_inner_v(u, g, k) == 0;
        assert forall|i: int|
            1 <= i < n - 1 implies #[trigger] tiled_y(i, n, u, mf, g) + tiled_h(i, n, u, mf, g)
            == tiled_y(i + 1, n, u, mf, g) by {
            assert(row_y_off(u, g, k, i - 1) + row_h(u, g, k, i - 1) + fit_inner_v(u, g, k)
                == row_y_off(u, g, k, i));
        }
    }
}

} // verus!
