//! The deterministic diamond-subdivision traversal. For each refinement level
//! it yields the coordinates whose residuals that level stores, in the one
//! fixed order both codec passes must follow: the order *is* the encoding,
//! since no coordinates are written to the archive.

use vstd::arithmetic::power2::{lemma2_to64, lemma_pow2_strictly_increases, pow2};
use vstd::prelude::*;

verus! {

/// One row of visits: columns `col`, `col + stride`, ... strictly below
/// `end`, all on line `line`.
pub open spec fn row_coords(col: int, line: int, end: int, stride: int) -> Seq<(u32, u32)>
    decreases end + stride - col
        when stride >= 1
{
    if col < end {
        seq![(col as u32, line as u32)] + row_coords(col + stride, line, end, stride)
    } else {
        Seq::empty()
    }
}

/// The rows a refinement level visits, from `line` on: on each line at a
/// multiple of `step` the columns offset by `substep`, and on each line
/// offset by `substep` every column at a multiple of `substep`. Together
/// with the points already present at spacing `step`, this fills the grid
/// at spacing `substep`.
pub open spec fn rows(line: int, width: int, height: int, step: int, substep: int) -> Seq<
    (u32, u32),
>
    decreases height + step - line
        when substep >= 1 && step == 2 * substep
{
    if line < height {
        let row_a = row_coords(substep, line, width, step);
        let row_b = if line + substep < height {
            row_coords(0, line + substep, width, substep)
        } else {
            Seq::empty()
        };
        row_a + row_b + rows(line + step, width, height, step, substep)
    } else {
        Seq::empty()
    }
}

/// The rows of the coarsest level: every column and line at a multiple of
/// `step`.
pub open spec fn base_rows(line: int, width: int, height: int, step: int) -> Seq<(u32, u32)>
    decreases height + step - line
        when step >= 1
{
    if line < height {
        row_coords(0, line, width, step) + base_rows(line + step, width, height, step)
    } else {
        Seq::empty()
    }
}

/// The coordinate sequence of refinement level `level` (0-based) out of
/// `levels` total, over a `width` × `height` image.
pub open spec fn level_coords(levels: nat, level: nat, width: u32, height: u32) -> Seq<(u32, u32)>
    recommends
        level < levels,
{
    rows(
        0,
        width as int,
        height as int,
        pow2((levels - level) as nat) as int,
        pow2((levels - level - 1) as nat) as int,
    )
}

/// The coordinate sequence of the coarsest level: row-major over the grid at
/// spacing `2^levels`.
pub open spec fn base_coords(levels: nat, width: u32, height: u32) -> Seq<(u32, u32)> {
    base_rows(0, width as int, height as int, pow2(levels) as int)
}

/// Two raised to the `e`-th power, computed by repeated doubling.
pub fn pow2_u64(e: usize) -> (r: u64)
    requires
        e <= 31,
    ensures
        r == pow2(e as nat),
        1 <= r <= 0x8000_0000u64,
{
    proof {
        lemma2_to64();
    }
    let mut r: u64 = 1;
    let mut i: usize = 0;
    while i < e
        invariant
            i <= e,
            e <= 31,
            r == pow2(i as nat),
            r <= 0x8000_0000u64,
        decreases e - i,
    {
        proof {
            lemma2_to64();
            if ((i + 1) as nat) < 31 {
                lemma_pow2_strictly_increases((i + 1) as nat, 31);
            }
        }
        r = r * 2;
        i = i + 1;
    }
    proof {
        lemma2_to64();
        if ((e as nat)) < 31 {
            lemma_pow2_strictly_increases(e as nat, 31);
        }
    }
    r
}

/// Append one row of visits to `out`.
fn push_row(out: &mut Vec<(u32, u32)>, col0: u64, line: u64, end: u64, stride: u64)
    requires
        1 <= stride <= 0x8000_0000u64,
        line <= u32::MAX,
        end <= u32::MAX,
        col0 <= 0x1_0000_0000u64,
    ensures
        final(out)@ == old(out)@ + row_coords(col0 as int, line as int, end as int, stride as int),
{
    let ghost start = out@;
    let mut col: u64 = col0;
    while col < end
        invariant
            1 <= stride <= 0x8000_0000u64,
            col <= 0x2_0000_0000u64,
            line <= u32::MAX,
            end <= u32::MAX,
            out@ + row_coords(col as int, line as int, end as int, stride as int) == start
                + row_coords(col0 as int, line as int, end as int, stride as int),
        decreases end + stride - col,
    {
        out.push((col as u32, line as u32));
        proof {
            assert(out@ + row_coords((col + stride) as int, line as int, end as int, stride as int)
                =~= start + row_coords(col0 as int, line as int, end as int, stride as int));
        }
        col = col + stride;
    }
    proof {
        assert(out@ =~= start + row_coords(
            col0 as int,
            line as int,
            end as int,
            stride as int,
        ));
    }
}

/// The coordinates refinement level `level` visits, in traversal order.
pub fn traverse_level(level: usize, levels: usize, width: u32, height: u32) -> (r: Vec<(u32, u32)>)
    requires
        level < levels,
        levels <= 31,
    ensures
        r@ == level_coords(levels as nat, level as nat, width, height),
{
    let e = levels - level;
    let step = pow2_u64(e);
    let substep = pow2_u64(e - 1);
    proof {
        vstd::arithmetic::power2::lemma_pow2_unfold(e as nat);
    }
    let w = width as u64;
    let h = height as u64;
    let mut out: Vec<(u32, u32)> = Vec::new();
    let mut line: u64 = 0;
    while line < h
        invariant
            substep >= 1,
            step == 2 * substep,
            step <= 0x8000_0000u64,
            w == width,
            h == height,
            out@ + rows(line as int, w as int, h as int, step as int, substep as int) == rows(
                0,
                w as int,
                h as int,
                step as int,
                substep as int,
            ),
        decreases h + step - line,
    {
        let ghost before = out@;
        push_row(&mut out, substep, line, w, step);
        if line + substep < h {
            push_row(&mut out, 0, line + substep, w, substep);
        }
        proof {
            assert(out@ + rows(
                (line + step) as int,
                w as int,
                h as int,
                step as int,
                substep as int,
            ) =~= before + rows(line as int, w as int, h as int, step as int, substep as int));
        }
        line = line + step;
    }
    proof {
        assert(out@ =~= rows(0, w as int, h as int, step as int, substep as int));
    }
    out
}

/// The coordinates of the coarsest level, in traversal order.
pub fn traverse_base(levels: usize, width: u32, height: u32) -> (r: Vec<(u32, u32)>)
    requires
        1 <= levels <= 31,
    ensures
        r@ == base_coords(levels as nat, width, height),
{
    let step = pow2_u64(levels);
    let w = width as u64;
    let h = height as u64;
    let mut out: Vec<(u32, u32)> = Vec::new();
    let mut line: u64 = 0;
    while line < h
        invariant
            1 <= step <= 0x8000_0000u64,
            w == width,
            h == height,
            out@ + base_rows(line as int, w as int, h as int, step as int) == base_rows(
                0,
                w as int,
                h as int,
                step as int,
            ),
        decreases h + step - line,
    {
        let ghost before = out@;
        push_row(&mut out, 0, line, w, step);
        proof {
            assert(out@ + base_rows((line + step) as int, w as int, h as int, step as int)
                =~= before + base_rows(line as int, w as int, h as int, step as int));
        }
        line = line + step;
    }
    proof {
        assert(out@ =~= base_rows(0, w as int, h as int, step as int));
    }
    out
}

} // verus!
// The lemmas below characterize the traversal sequences; the codec passes
// rely on them to know every visit lands inside the image.

verus! {

/// Every visit in one row lies on that row, left of `end`.
pub proof fn lemma_row_coords_bounds(col0: int, line: int, end: int, stride: int)
    requires
        stride >= 1,
        0 <= col0,
        0 <= line <= u32::MAX,
        end <= u32::MAX,
    ensures
        forall|j: int|
            0 <= j < row_coords(col0, line, end, stride).len() ==> (
            #[trigger] row_coords(col0, line, end, stride)[j]).0 < end && row_coords(
                col0,
                line,
                end,
                stride,
            )[j].1 == line,
    decreases end + stride - col0,
{
    if col0 < end {
        lemma_row_coords_bounds(col0 + stride, line, end, stride);
        let s = row_coords(col0, line, end, stride);
        let rest = row_coords(col0 + stride, line, end, stride);
        assert forall|j: int| 0 <= j < s.len() implies (#[trigger] s[j]).0 < end && s[j].1
            == line by {
            if j >= 1 {
                assert(s[j] == rest[j - 1]);
            }
        }
    }
}

/// Every visit of one refinement level lies inside the image.
pub proof fn lemma_rows_bounds(line0: int, width: int, height: int, step: int, substep: int)
    requires
        substep >= 1,
        step == 2 * substep,
        0 <= line0,
        width <= u32::MAX,
        height <= u32::MAX,
    ensures
        forall|j: int|
            0 <= j < rows(line0, width, height, step, substep).len() ==> (
            #[trigger] rows(line0, width, height, step, substep)[j]).0 < width && rows(
                line0,
                width,
                height,
                step,
                substep,
            )[j].1 < height,
    decreases height + step - line0,
{
    if line0 < height {
        let s = rows(line0, width, height, step, substep);
        let row_a = row_coords(substep, line0, width, step);
        let row_b = if line0 + substep < height {
            row_coords(0, line0 + substep, width, substep)
        } else {
            Seq::<(u32, u32)>::empty()
        };
        let rest = rows(line0 + step, width, height, step, substep);
        lemma_row_coords_bounds(substep, line0, width, step);
        if line0 + substep < height {
            lemma_row_coords_bounds(0, line0 + substep, width, substep);
        }
        lemma_rows_bounds(line0 + step, width, height, step, substep);
        assert forall|j: int| 0 <= j < s.len() implies (#[trigger] s[j]).0 < width && s[j].1
            < height by {
            if j < row_a.len() {
                assert(s[j] == row_a[j]);
            } else if j < row_a.len() + row_b.len() {
                assert(s[j] == row_b[j - row_a.len()]);
            } else {
                assert(s[j] == rest[j - row_a.len() - row_b.len()]);
            }
        }
    }
}

/// Every visit of the coarsest level lies inside the image.
pub proof fn lemma_base_rows_bounds(line0: int, width: int, height: int, step: int)
    requires
        step >= 1,
        0 <= line0,
        width <= u32::MAX,
        height <= u32::MAX,
    ensures
        forall|j: int|
            0 <= j < base_rows(line0, width, height, step).len() ==> (
            #[trigger] base_rows(line0, width, height, step)[j]).0 < width && base_rows(
                line0,
                width,
                height,
                step,
            )[j].1 < height,
    decreases height + step - line0,
{
    if line0 < height {
        let s = base_rows(line0, width, height, step);
        let row = row_coords(0, line0, width, step);
        let rest = base_rows(line0 + step, width, height, step);
        lemma_row_coords_bounds(0, line0, width, step);
        lemma_base_rows_bounds(line0 + step, width, height, step);
        assert forall|j: int| 0 <= j < s.len() implies (#[trigger] s[j]).0 < width && s[j].1
            < height by {
            if j >= row.len() {
                assert(s[j] == rest[j - row.len()]);
            }
        }
    }
}

/// Every coordinate of a refinement level is in bounds.
pub proof fn lemma_level_coords_bounds(levels: nat, level: nat, width: u32, height: u32)
    requires
        level < levels,
    ensures
        forall|j: int|
            0 <= j < level_coords(levels, level, width, height).len() ==> (
            #[trigger] level_coords(levels, level, width, height)[j]).0 < width && level_coords(
                levels,
                level,
                width,
                height,
            )[j].1 < height,
{
    vstd::arithmetic::power2::lemma_pow2_unfold((levels - level) as nat);
    vstd::arithmetic::power2::lemma_pow2_pos((levels - level - 1) as nat);
    lemma_rows_bounds(
        0,
        width as int,
        height as int,
        pow2((levels - level) as nat) as int,
        pow2((levels - level - 1) as nat) as int,
    );
}

/// Every coordinate of the coarsest level is in bounds.
pub proof fn lemma_base_coords_bounds(levels: nat, width: u32, height: u32)
    ensures
        forall|j: int|
            0 <= j < base_coords(levels, width, height).len() ==> (
            #[trigger] base_coords(levels, width, height)[j]).0 < width && base_coords(
                levels,
                width,
                height,
            )[j].1 < height,
{
    vstd::arithmetic::power2::lemma_pow2_pos(levels);
    lemma_base_rows_bounds(0, width as int, height as int, pow2(levels) as int);
}

} // verus!
// Completeness: together with the coarsest grid, the refinement levels reach
// every coordinate of the image.

verus! {

use vstd::arithmetic::div_mod::{
    lemma_fundamental_div_mod, lemma_mod_bound, lemma_mod_multiples_vanish,
};
use vstd::arithmetic::mul::lemma_mul_is_commutative;
use vstd::arithmetic::power2::{lemma_pow2_pos, lemma_pow2_unfold};

/// A row contains its `j`-th visit.
pub proof fn lemma_row_coords_contains(col0: int, line: int, end: int, stride: int, j: int)
    requires
        stride >= 1,
        0 <= col0,
        0 <= line <= u32::MAX,
        end <= u32::MAX,
        j >= 0,
        col0 + j * stride < end,
    ensures
        row_coords(col0, line, end, stride).contains(
            (((col0 + j * stride) as u32), (line as u32)),
        ),
    decreases j,
{
    if j == 0 {
        assert(j * stride == 0) by (nonlinear_arith)
            requires
                j == 0,
        ;
        assert(row_coords(col0, line, end, stride)[0] == (((col0 + j * stride) as u32), (
        line as u32)));
        assert(row_coords(col0, line, end, stride).contains(
            (((col0 + j * stride) as u32), (line as u32)),
        ));
    } else {
        assert((j - 1) * stride == j * stride - stride) by (nonlinear_arith);
        assert(j * stride >= stride) by (nonlinear_arith)
            requires
                j >= 1,
                stride >= 1,
        ;
        lemma_row_coords_contains(col0 + stride, line, end, stride, j - 1);
        let e = (((col0 + j * stride) as u32), (line as u32));
        let rest = row_coords(col0 + stride, line, end, stride);
        assert((col0 + stride) + (j - 1) * stride == col0 + j * stride);
        assert(rest.contains(e));
        assert(col0 < end);
        assert(row_coords(col0, line, end, stride) == seq![((col0 as u32), (line as u32))]
            + rest);
        let i = choose|i: int| 0 <= i < rest.len() && rest[i] == e;
        assert((seq![((col0 as u32), (line as u32))] + rest)[i + 1] == rest[i]);
        assert(row_coords(col0, line, end, stride)[i + 1] == e);
        assert(row_coords(col0, line, end, stride).contains(e));
    }
}

/// A refinement level contains every in-bounds point that lies on the
/// `substep` grid but not on the `step` grid.
pub proof fn lemma_rows_contains(
    line0: int,
    width: int,
    height: int,
    step: int,
    substep: int,
    x: int,
    y: int,
)
    requires
        substep >= 1,
        step == 2 * substep,
        0 <= line0 <= y,
        line0 % step == 0,
        y % substep == 0,
        y < height <= u32::MAX,
        0 <= x < width <= u32::MAX,
        x % substep == 0,
        !(x % step == 0 && y % step == 0),
    ensures
        rows(line0, width, height, step, substep).contains(((x as u32), (y as u32))),
    decreases height - line0,
{
    let s = rows(line0, width, height, step, substep);
    let row_a = row_coords(substep, line0, width, step);
    let row_b: Seq<(u32, u32)> = if line0 + substep < height {
        row_coords(0, line0 + substep, width, substep)
    } else {
        Seq::empty()
    };
    let e = ((x as u32), (y as u32));
    if y >= line0 + step {
        lemma_mod_multiples_vanish(1, line0, step);
        lemma_rows_contains(line0 + step, width, height, step, substep, x, y);
        let rest = rows(line0 + step, width, height, step, substep);
        let i = choose|i: int| 0 <= i < rest.len() && rest[i] == e;
        assert(s[row_a.len() + row_b.len() + i] == e);
    } else {
        lemma_fundamental_div_mod(y, substep);
        lemma_fundamental_div_mod(line0, substep);
        let qy = y / substep;
        let q0 = line0 / substep;
        assert(line0 % substep == 0) by {
            lemma_fundamental_div_mod(line0, step);
            let q = line0 / step;
            assert(line0 == substep * (2 * q)) by (nonlinear_arith)
                requires
                    line0 == step * q,
                    step == 2 * substep,
            ;
            lemma_mod_multiples_vanish(2 * q, 0, substep);
        }
        assert(y - line0 == substep * (qy - q0)) by (nonlinear_arith)
            requires
                y == substep * qy + y % substep,
                line0 == substep * q0 + line0 % substep,
                y % substep == 0,
                line0 % substep == 0,
        ;
        assert(qy == q0 || qy == q0 + 1) by (nonlinear_arith)
            requires
                y - line0 == substep * (qy - q0),
                0 <= y - line0 < 2 * substep,
                substep >= 1,
        ;
        if qy == q0 {
            // y == line0: the phase-A row.
            assert(y == line0) by (nonlinear_arith)
                requires
                    y - line0 == substep * (qy - q0),
                    qy == q0,
            ;
            assert(x % step != 0);
            // x is an odd multiple of substep: offset substep on the step grid.
            lemma_fundamental_div_mod(x, substep);
            let a = x / substep;
            lemma_fundamental_div_mod(a, 2);
            lemma_mod_bound(a, 2);
            let b = a / 2;
            let r = a % 2;
            assert(x == step * b + substep * r) by (nonlinear_arith)
                requires
                    x == substep * a + x % substep,
                    x % substep == 0,
                    a == 2 * b + r,
                    step == 2 * substep,
            ;
            lemma_mod_multiples_vanish(b, substep * r, step);
            if r == 0 {
                assert(x % step == (substep * 0) % step);
                assert((0int) % step == 0);
                assert(false);
            }
            assert(x == substep + b * step) by (nonlinear_arith)
                requires
                    x == step * b + substep * r,
                    r == 1,
        ;
            assert(b >= 0) by (nonlinear_arith)
                requires
                    x == substep + b * step,
                    x >= 0,
                    substep >= 1,
                    step >= 2,
                    x >= substep + b * step,
                    2 * substep == step,
                    0 <= x < width,
            ;
            lemma_row_coords_contains(substep, line0, width, step, b);
            let i = choose|i: int| 0 <= i < row_a.len() && row_a[i] == e;
            assert(s[i] == e);
        } else {
            // y == line0 + substep: the phase-B row.
            assert(y == line0 + substep) by (nonlinear_arith)
                requires
                    y - line0 == substep * (qy - q0),
                    qy == q0 + 1,
            ;
            lemma_fundamental_div_mod(x, substep);
            let j = x / substep;
            assert(x == 0 + j * substep) by (nonlinear_arith)
                requires
                    x == substep * j + x % substep,
                    x % substep == 0,
            ;
            assert(j >= 0) by (nonlinear_arith)
                requires
                    x == j * substep,
                    x >= 0,
                    substep >= 1,
            ;
            lemma_row_coords_contains(0, y, width, substep, j);
            let i = choose|i: int| 0 <= i < row_b.len() && row_b[i] == e;
            assert(s[row_a.len() + i] == e);
        }
    }
}

/// The coarsest level contains every in-bounds point of the `step` grid.
pub proof fn lemma_base_rows_contains(
    line0: int,
    width: int,
    height: int,
    step: int,
    x: int,
    y: int,
)
    requires
        step >= 1,
        0 <= line0 <= y,
        line0 % step == 0,
        x % step == 0,
        y % step == 0,
        y < height <= u32::MAX,
        0 <= x < width <= u32::MAX,
    ensures
        base_rows(line0, width, height, step).contains(((x as u32), (y as u32))),
    decreases height - line0,
{
    let s = base_rows(line0, width, height, step);
    let row = row_coords(0, line0, width, step);
    let e = ((x as u32), (y as u32));
    if y >= line0 + step {
        lemma_mod_multiples_vanish(1, line0, step);
        lemma_base_rows_contains(line0 + step, width, height, step, x, y);
        let rest = base_rows(line0 + step, width, height, step);
        let i = choose|i: int| 0 <= i < rest.len() && rest[i] == e;
        assert(s[row.len() + i] == e);
    } else {
        lemma_fundamental_div_mod(y, step);
        lemma_fundamental_div_mod(line0, step);
        let qy = y / step;
        let q0 = line0 / step;
        assert(y == line0) by (nonlinear_arith)
            requires
                y == step * qy + y % step,
                line0 == step * q0 + line0 % step,
                y % step == 0,
                line0 % step == 0,
                0 <= y - line0 < step,
                step >= 1,
        ;
        lemma_fundamental_div_mod(x, step);
        let j = x / step;
        assert(x == 0 + j * step) by (nonlinear_arith)
            requires
                x == step * j + x % step,
                x % step == 0,
        ;
        assert(j >= 0) by (nonlinear_arith)
            requires
                x == j * step,
                x >= 0,
                step >= 1,
        ;
        lemma_row_coords_contains(0, line0, width, step, j);
        let i = choose|i: int| 0 <= i < row.len() && row[i] == e;
        assert(s[i] == e);
    }
}

proof fn lemma_covers_at(levels: nat, width: u32, height: u32, x: u32, y: u32, k: nat)
    requires
        1 <= levels <= 31,
        x < width,
        y < height,
        k <= levels,
        (x as int) % (pow2(k) as int) == 0,
        (y as int) % (pow2(k) as int) == 0,
    ensures
        base_coords(levels, width, height).contains((x, y)) || exists|l: int|
            0 <= l < levels && #[trigger] level_coords(levels, l as nat, width, height).contains(
                (x, y),
            ),
    decreases levels - k,
{
    lemma_pow2_pos(k);
    if k == levels {
        lemma_base_rows_contains(
            0,
            width as int,
            height as int,
            pow2(levels) as int,
            x as int,
            y as int,
        );
    } else {
        lemma_pow2_unfold((k + 1) as nat);
        lemma_pow2_pos((k + 1) as nat);
        if (x as int) % (pow2((k + 1) as nat) as int) == 0 && (y as int) % (pow2(
            (k + 1) as nat,
        ) as int) == 0 {
            lemma_covers_at(levels, width, height, x, y, (k + 1) as nat);
        } else {
            let l = (levels - k - 1) as nat;
            lemma_rows_contains(
                0,
                width as int,
                height as int,
                pow2((k + 1) as nat) as int,
                pow2(k) as int,
                x as int,
                y as int,
            );
            assert((levels - l) as nat == (k + 1) as nat);
            assert((levels - l - 1) as nat == k);
            assert(level_coords(levels, l, width, height).contains((x, y)));
            assert(0 <= l < levels);
        }
    }
}

/// Law: the coarsest grid together with the refinement levels reaches every
/// coordinate of the image.
pub proof fn lemma_traversal_covers(levels: nat, width: u32, height: u32, x: u32, y: u32)
    requires
        1 <= levels <= 31,
        x < width,
        y < height,
    ensures
        base_coords(levels, width, height).contains((x, y)) || exists|l: int|
            0 <= l < levels && #[trigger] level_coords(levels, l as nat, width, height).contains(
                (x, y),
            ),
{
    assert(pow2(0) == 1) by {
        lemma2_to64();
    }
    lemma_covers_at(levels, width, height, x, y, 0);
}

} // verus!
// Exactly-once: no level visits a coordinate twice, no two levels visit the
// same coordinate, and the coarsest grid is disjoint from all of them. With
// completeness this makes the traversal a partition of the image.

verus! {

use vstd::arithmetic::div_mod::lemma_mod_multiples_basic;
use vstd::arithmetic::mul::lemma_mul_strict_inequality;

/// Whether a coordinate lies on the grid of spacing `s`.
pub open spec fn on_grid(c: (u32, u32), s: int) -> bool {
    c.0 as int % s == 0 && c.1 as int % s == 0
}

/// No coordinate appears twice.
pub open spec fn distinct_coords(s: Seq<(u32, u32)>) -> bool {
    forall|i: int, j: int| 0 <= i < j < s.len() ==> s[i] != s[j]
}

/// Each visit of a row, by position: column `col0 + j * stride` on `line`.
pub proof fn lemma_row_coords_index(col0: int, line: int, end: int, stride: int)
    requires
        stride >= 1,
        0 <= col0,
        0 <= line <= u32::MAX,
        end <= u32::MAX,
    ensures
        forall|j: int|
            0 <= j < row_coords(col0, line, end, stride).len() ==> (
            #[trigger] row_coords(col0, line, end, stride)[j]).0 == col0 + j * stride
                && row_coords(col0, line, end, stride)[j].1 == line && col0 + j * stride < end,
    decreases end + stride - col0,
{
    let s = row_coords(col0, line, end, stride);
    if col0 < end {
        lemma_row_coords_index(col0 + stride, line, end, stride);
        let rest = row_coords(col0 + stride, line, end, stride);
        assert forall|j: int| 0 <= j < s.len() implies (#[trigger] s[j]).0 == col0 + j * stride
            && s[j].1 == line && col0 + j * stride < end by {
            if j == 0 {
                assert(j * stride == 0) by (nonlinear_arith)
                    requires
                        j == 0,
                ;
            } else {
                assert(s[j] == rest[j - 1]);
                assert((j - 1) * stride == j * stride - stride) by (nonlinear_arith);
            }
        }
    }
}

/// No row visits a column twice.
pub proof fn lemma_row_coords_distinct(col0: int, line: int, end: int, stride: int)
    requires
        stride >= 1,
        0 <= col0,
        0 <= line <= u32::MAX,
        end <= u32::MAX,
    ensures
        distinct_coords(row_coords(col0, line, end, stride)),
{
    let s = row_coords(col0, line, end, stride);
    lemma_row_coords_index(col0, line, end, stride);
    assert forall|i: int, j: int| 0 <= i < j < s.len() implies s[i] != s[j] by {
        lemma_mul_strict_inequality(i, j, stride);
        assert(s[i].0 == col0 + i * stride);
        assert(s[j].0 == col0 + j * stride);
    }
}

/// Every visit of a refinement level lies on the `substep` grid but not on
/// the `step` grid, at or below its starting line.
pub proof fn lemma_rows_elems(line0: int, width: int, height: int, step: int, substep: int)
    requires
        substep >= 1,
        step == 2 * substep,
        0 <= line0,
        line0 % step == 0,
        width <= u32::MAX,
        height <= u32::MAX,
    ensures
        forall|j: int|
            0 <= j < rows(line0, width, height, step, substep).len() ==> (
            #[trigger] rows(line0, width, height, step, substep)[j]).1 >= line0 && on_grid(
                rows(line0, width, height, step, substep)[j],
                substep,
            ) && !on_grid(rows(line0, width, height, step, substep)[j], step),
    decreases height + step - line0,
{
    let s = rows(line0, width, height, step, substep);
    if line0 < height {
        let row_a = row_coords(substep, line0, width, step);
        let row_b: Seq<(u32, u32)> = if line0 + substep < height {
            row_coords(0, line0 + substep, width, substep)
        } else {
            Seq::empty()
        };
        let rest = rows(line0 + step, width, height, step, substep);
        lemma_row_coords_index(substep, line0, width, step);
        if line0 + substep < height {
            lemma_row_coords_index(0, line0 + substep, width, substep);
        }
        lemma_mod_multiples_vanish(1, line0, step);
        lemma_rows_elems(line0 + step, width, height, step, substep);
        // The starting line itself is on the substep grid.
        let q = line0 / step;
        lemma_fundamental_div_mod(line0, step);
        assert(line0 == substep * (2 * q)) by (nonlinear_arith)
            requires
                line0 == step * q + line0 % step,
                line0 % step == 0,
                step == 2 * substep,
        ;
        lemma_mod_multiples_basic(2 * q, substep);
        assert(line0 % substep == 0);
        assert((line0 + substep) % substep == 0) by {
            lemma_mod_multiples_vanish(2 * q + 1, 0, substep);
            assert(line0 + substep == substep * (2 * q + 1) + 0) by (nonlinear_arith)
                requires
                    line0 == substep * (2 * q),
            ;
            assert((0int) % substep == 0);
        }
        assert((line0 + substep) % step == substep) by {
            lemma_mod_multiples_vanish(q, substep, step);
            assert(line0 + substep == step * q + substep);
            vstd::arithmetic::div_mod::lemma_small_mod(substep as nat, step as nat);
        }
        assert forall|j: int| 0 <= j < s.len() implies (#[trigger] s[j]).1 >= line0 && on_grid(
            s[j],
            substep,
        ) && !on_grid(s[j], step) by {
            if j < row_a.len() {
                let e = s[j];
                assert(e == row_a[j]);
                let x = substep + j * step;
                assert(e.0 == x);
                assert(x == substep * (2 * j + 1)) by (nonlinear_arith)
                    requires
                        step == 2 * substep,
                        x == substep + j * step,
                ;
                lemma_mod_multiples_basic(2 * j + 1, substep);
                assert(substep * (2 * j + 1) == (2 * j + 1) * substep) by (nonlinear_arith);
                assert(x % substep == 0);
                assert(x % step == substep) by {
                    lemma_mod_multiples_vanish(j, substep, step);
                    vstd::arithmetic::div_mod::lemma_small_mod(substep as nat, step as nat);
                }
            } else if j < row_a.len() + row_b.len() {
                let e = s[j];
                assert(e == row_b[j - row_a.len()]);
                let k = j - row_a.len();
                let x = 0 + k * substep;
                assert(e.0 == x);
                assert(x == k * substep);
                assert(k * substep == substep * k) by (nonlinear_arith);
                lemma_mod_multiples_basic(k, substep);
                assert(x % substep == 0);
                assert(e.1 == line0 + substep);
            } else {
                assert(s[j] == rest[j - row_a.len() - row_b.len()]);
            }
        }
    }
}

/// No refinement level visits a coordinate twice.
pub proof fn lemma_rows_distinct(line0: int, width: int, height: int, step: int, substep: int)
    requires
        substep >= 1,
        step == 2 * substep,
        0 <= line0,
        line0 % step == 0,
        width <= u32::MAX,
        height <= u32::MAX,
    ensures
        distinct_coords(rows(line0, width, height, step, substep)),
    decreases height + step - line0,
{
    let s = rows(line0, width, height, step, substep);
    if line0 < height {
        let row_a = row_coords(substep, line0, width, step);
        let row_b: Seq<(u32, u32)> = if line0 + substep < height {
            row_coords(0, line0 + substep, width, substep)
        } else {
            Seq::empty()
        };
        let rest = rows(line0 + step, width, height, step, substep);
        lemma_row_coords_index(substep, line0, width, step);
        lemma_row_coords_distinct(substep, line0, width, step);
        if line0 + substep < height {
            lemma_row_coords_index(0, line0 + substep, width, substep);
            lemma_row_coords_distinct(0, line0 + substep, width, substep);
        }
        lemma_mod_multiples_vanish(1, line0, step);
        lemma_rows_distinct(line0 + step, width, height, step, substep);
        lemma_rows_elems(line0 + step, width, height, step, substep);
        assert forall|i: int, j: int| 0 <= i < j < s.len() implies s[i] != s[j] by {
            let na = row_a.len() as int;
            let nb = row_b.len() as int;
            if j < na {
                assert(s[i] == row_a[i] && s[j] == row_a[j]);
            } else if i < na && j < na + nb {
                assert(s[i] == row_a[i] && s[j] == row_b[j - na]);
                assert(s[i].1 == line0 && s[j].1 == line0 + substep);
            } else if j < na + nb {
                assert(s[i] == row_b[i - na] && s[j] == row_b[j - na]);
            } else if i < na {
                assert(s[i] == row_a[i] && s[j] == rest[j - na - nb]);
                assert(s[i].1 == line0 && s[j].1 >= line0 + step);
            } else if i < na + nb {
                assert(s[i] == row_b[i - na] && s[j] == rest[j - na - nb]);
                assert(s[i].1 == line0 + substep && s[j].1 >= line0 + step);
            } else {
                assert(s[i] == rest[i - na - nb] && s[j] == rest[j - na - nb]);
            }
        }
    }
}

/// Every visit of the coarsest level lies on its grid.
pub proof fn lemma_base_rows_elems(line0: int, width: int, height: int, step: int)
    requires
        step >= 1,
        0 <= line0,
        line0 % step == 0,
        width <= u32::MAX,
        height <= u32::MAX,
    ensures
        forall|j: int|
            0 <= j < base_rows(line0, width, height, step).len() ==> (
            #[trigger] base_rows(line0, width, height, step)[j]).1 >= line0 && on_grid(
                base_rows(line0, width, height, step)[j],
                step,
            ),
    decreases height + step - line0,
{
    let s = base_rows(line0, width, height, step);
    if line0 < height {
        let row = row_coords(0, line0, width, step);
        let rest = base_rows(line0 + step, width, height, step);
        lemma_row_coords_index(0, line0, width, step);
        lemma_mod_multiples_vanish(1, line0, step);
        lemma_base_rows_elems(line0 + step, width, height, step);
        assert forall|j: int| 0 <= j < s.len() implies (#[trigger] s[j]).1 >= line0 && on_grid(
            s[j],
            step,
        ) by {
            if j < row.len() {
                let e = s[j];
                assert(e == row[j]);
                let x = 0 + j * step;
                assert(e.0 == x);
                assert(j * step == step * j) by (nonlinear_arith);
                lemma_mod_multiples_basic(j, step);
            } else {
                assert(s[j] == rest[j - row.len()]);
            }
        }
    }
}

/// The coarsest level visits no coordinate twice.
pub proof fn lemma_base_rows_distinct(line0: int, width: int, height: int, step: int)
    requires
        step >= 1,
        0 <= line0,
        line0 % step == 0,
        width <= u32::MAX,
        height <= u32::MAX,
    ensures
        distinct_coords(base_rows(line0, width, height, step)),
    decreases height + step - line0,
{
    let s = base_rows(line0, width, height, step);
    if line0 < height {
        let row = row_coords(0, line0, width, step);
        let rest = base_rows(line0 + step, width, height, step);
        lemma_row_coords_index(0, line0, width, step);
        lemma_row_coords_distinct(0, line0, width, step);
        lemma_mod_multiples_vanish(1, line0, step);
        lemma_base_rows_distinct(line0 + step, width, height, step);
        lemma_base_rows_elems(line0 + step, width, height, step);
        assert forall|i: int, j: int| 0 <= i < j < s.len() implies s[i] != s[j] by {
            let nr = row.len() as int;
            if j < nr {
                assert(s[i] == row[i] && s[j] == row[j]);
            } else if i < nr {
                assert(s[i] == row[i] && s[j] == rest[j - nr]);
                assert(s[i].1 == line0 && s[j].1 >= line0 + step);
            } else {
                assert(s[i] == rest[i - nr] && s[j] == rest[j - nr]);
            }
        }
    }
}

} // verus!
verus! {

/// All refinement levels from `level` on, concatenated in codec order.
pub open spec fn levels_concat(levels: nat, level: nat, width: u32, height: u32) -> Seq<(u32, u32)>
    decreases levels - level,
{
    if level >= levels {
        Seq::empty()
    } else {
        level_coords(levels, level, width, height) + levels_concat(
            levels,
            (level + 1) as nat,
            width,
            height,
        )
    }
}

/// Every coordinate visit the codec makes, coarsest level first.
pub open spec fn all_coords(levels: nat, width: u32, height: u32) -> Seq<(u32, u32)> {
    base_coords(levels, width, height) + levels_concat(levels, 0, width, height)
}

/// A point on the grid of spacing `2^(a+1)` is on the grid of spacing `2^a`.
proof fn lemma_on_grid_halves(c: (u32, u32), a: nat)
    requires
        on_grid(c, pow2((a + 1) as nat) as int),
    ensures
        on_grid(c, pow2(a) as int),
{
    lemma_pow2_pos(a);
    lemma_pow2_unfold((a + 1) as nat);
    let d = pow2(a) as int;
    lemma_fundamental_div_mod(c.0 as int, 2 * d);
    lemma_fundamental_div_mod(c.1 as int, 2 * d);
    let qx = (c.0 as int) / (2 * d);
    let qy = (c.1 as int) / (2 * d);
    assert(c.0 as int == (2 * qx) * d) by (nonlinear_arith)
        requires
            c.0 as int == (2 * d) * qx + (c.0 as int) % (2 * d),
            (c.0 as int) % (2 * d) == 0,
    ;
    assert(c.1 as int == (2 * qy) * d) by (nonlinear_arith)
        requires
            c.1 as int == (2 * d) * qy + (c.1 as int) % (2 * d),
            (c.1 as int) % (2 * d) == 0,
    ;
    lemma_mod_multiples_basic(2 * qx, d);
    lemma_mod_multiples_basic(2 * qy, d);
}

/// Every visit of one refinement level is on its fine grid but off its
/// coarse grid, and in bounds.
proof fn lemma_level_coords_elems(levels: nat, level: nat, width: u32, height: u32)
    requires
        level < levels <= 31,
    ensures
        forall|j: int|
            0 <= j < level_coords(levels, level, width, height).len() ==> on_grid(
                #[trigger] level_coords(levels, level, width, height)[j],
                pow2((levels - level - 1) as nat) as int,
            ) && !on_grid(
                level_coords(levels, level, width, height)[j],
                pow2((levels - level) as nat) as int,
            ),
        distinct_coords(level_coords(levels, level, width, height)),
{
    lemma_pow2_unfold((levels - level) as nat);
    lemma_pow2_pos((levels - level - 1) as nat);
    lemma_rows_elems(
        0,
        width as int,
        height as int,
        pow2((levels - level) as nat) as int,
        pow2((levels - level - 1) as nat) as int,
    );
    lemma_rows_distinct(
        0,
        width as int,
        height as int,
        pow2((levels - level) as nat) as int,
        pow2((levels - level - 1) as nat) as int,
    );
}

/// No visit at or beyond refinement level `level` lies on that level's
/// coarse grid.
proof fn lemma_concat_off_grid(levels: nat, level: nat, width: u32, height: u32)
    requires
        level <= levels <= 31,
    ensures
        forall|j: int|
            0 <= j < levels_concat(levels, level, width, height).len() ==> !on_grid(
                #[trigger] levels_concat(levels, level, width, height)[j],
                pow2((levels - level) as nat) as int,
            ),
    decreases levels - level,
{
    if level < levels {
        let s = levels_concat(levels, level, width, height);
        let head = level_coords(levels, level, width, height);
        let rest = levels_concat(levels, (level + 1) as nat, width, height);
        lemma_level_coords_elems(levels, level, width, height);
        lemma_concat_off_grid(levels, (level + 1) as nat, width, height);
        assert forall|j: int| 0 <= j < s.len() implies !on_grid(
            #[trigger] s[j],
            pow2((levels - level) as nat) as int,
        ) by {
            if j < head.len() {
                assert(s[j] == head[j]);
            } else {
                assert(s[j] == rest[j - head.len()]);
                assert(!on_grid(s[j], pow2((levels - level - 1) as nat) as int));
                if on_grid(s[j], pow2((levels - level) as nat) as int) {
                    lemma_on_grid_halves(s[j], (levels - level - 1) as nat);
                }
            }
        }
    }
}

/// The refinement levels together visit no coordinate twice, and stay in
/// bounds.
proof fn lemma_concat_distinct(levels: nat, level: nat, width: u32, height: u32)
    requires
        level <= levels <= 31,
    ensures
        distinct_coords(levels_concat(levels, level, width, height)),
        forall|j: int|
            0 <= j < levels_concat(levels, level, width, height).len() ==> (
            #[trigger] levels_concat(levels, level, width, height)[j]).0 < width && levels_concat(
                levels,
                level,
                width,
                height,
            )[j].1 < height,
    decreases levels - level,
{
    if level < levels {
        let s = levels_concat(levels, level, width, height);
        let head = level_coords(levels, level, width, height);
        let rest = levels_concat(levels, (level + 1) as nat, width, height);
        lemma_level_coords_elems(levels, level, width, height);
        lemma_level_coords_bounds(levels, level, width, height);
        lemma_concat_distinct(levels, (level + 1) as nat, width, height);
        lemma_concat_off_grid(levels, (level + 1) as nat, width, height);
        assert forall|i: int, j: int| 0 <= i < j < s.len() implies s[i] != s[j] by {
            let nh = head.len() as int;
            if j < nh {
                assert(s[i] == head[i] && s[j] == head[j]);
            } else if i < nh {
                assert(s[i] == head[i] && s[j] == rest[j - nh]);
                assert(on_grid(s[i], pow2((levels - level - 1) as nat) as int));
                assert(!on_grid(s[j], pow2((levels - level - 1) as nat) as int));
            } else {
                assert(s[i] == rest[i - nh] && s[j] == rest[j - nh]);
            }
        }
        assert forall|j: int| 0 <= j < s.len() implies (#[trigger] s[j]).0 < width && s[j].1
            < height by {
            if j < head.len() {
                assert(s[j] == head[j]);
            } else {
                assert(s[j] == rest[j - head.len()]);
            }
        }
    }
}

/// A coordinate some level at or beyond `level` visits is in the
/// concatenation.
proof fn lemma_concat_contains(levels: nat, level: nat, width: u32, height: u32, l: int, c: (u32, u32))
    requires
        level <= l < levels,
        level_coords(levels, l as nat, width, height).contains(c),
    ensures
        levels_concat(levels, level, width, height).contains(c),
    decreases levels - level,
{
    let s = levels_concat(levels, level, width, height);
    let head = level_coords(levels, level, width, height);
    let rest = levels_concat(levels, (level + 1) as nat, width, height);
    if l == level {
        let i = choose|i: int| 0 <= i < head.len() && head[i] == c;
        assert(s[i] == c);
    } else {
        lemma_concat_contains(levels, (level + 1) as nat, width, height, l, c);
        let i = choose|i: int| 0 <= i < rest.len() && rest[i] == c;
        assert(s[head.len() + i] == c);
    }
}

/// Law (traversal completeness): across the coarsest level and every
/// refinement level, each coordinate of the image is visited exactly once —
/// no omissions, no duplicates, nothing out of bounds.
pub proof fn lemma_traversal_complete(levels: nat, width: u32, height: u32)
    requires
        1 <= levels <= 31,
    ensures
        forall|x: u32, y: u32|
            x < width && y < height ==> all_coords(levels, width, height).contains((x, y)),
        forall|j: int|
            0 <= j < all_coords(levels, width, height).len() ==> (#[trigger] all_coords(
                levels,
                width,
                height,
            )[j]).0 < width && all_coords(levels, width, height)[j].1 < height,
        distinct_coords(all_coords(levels, width, height)),
{
    let s = all_coords(levels, width, height);
    let base = base_coords(levels, width, height);
    let rest = levels_concat(levels, 0, width, height);
    lemma_pow2_pos(levels);
    lemma_base_coords_bounds(levels, width, height);
    lemma_base_rows_elems(0, width as int, height as int, pow2(levels) as int);
    lemma_base_rows_distinct(0, width as int, height as int, pow2(levels) as int);
    lemma_concat_distinct(levels, 0, width, height);
    lemma_concat_off_grid(levels, 0, width, height);
    assert forall|x: u32, y: u32| x < width && y < height implies s.contains((x, y)) by {
        lemma_traversal_covers(levels, width, height, x, y);
        if base.contains((x, y)) {
            let i = choose|i: int| 0 <= i < base.len() && base[i] == (x, y);
            assert(s[i] == (x, y));
        } else {
            let l = choose|l: int|
                0 <= l < levels && #[trigger] level_coords(
                    levels,
                    l as nat,
                    width,
                    height,
                ).contains((x, y));
            lemma_concat_contains(levels, 0, width, height, l, (x, y));
            let i = choose|i: int| 0 <= i < rest.len() && rest[i] == (x, y);
            assert(s[base.len() + i] == (x, y));
        }
    }
    assert forall|j: int| 0 <= j < s.len() implies (#[trigger] s[j]).0 < width && s[j].1
        < height by {
        if j < base.len() {
            assert(s[j] == base[j]);
        } else {
            assert(s[j] == rest[j - base.len()]);
        }
    }
    assert forall|i: int, j: int| 0 <= i < j < s.len() implies s[i] != s[j] by {
        let nb = base.len() as int;
        if j < nb {
            assert(s[i] == base[i] && s[j] == base[j]);
        } else if i < nb {
            assert(s[i] == base[i] && s[j] == rest[j - nb]);
            assert(on_grid(s[i], pow2(levels) as int));
            assert(!on_grid(s[j], pow2(levels) as int));
        } else {
            assert(s[i] == rest[i - nb] && s[j] == rest[j - nb]);
        }
    }
}

} // verus!
