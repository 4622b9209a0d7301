//! Computing a whole frame of memberships, band by band.
//!
//! The rows of the grid are cut into bands of `height / threads + 1` rows
//! (the last one shorter), each with its own upper-left point. A band is
//! computed on its own into a buffer of its own, so bands can be handed to
//! separate workers; `render` computes them one after the other and gives the
//! same frame whatever the number of bands.
use vstd::prelude::*;
use crate::complex::Complex;
use crate::member::{calculate, membership, Membership};
use crate::viewport::{pixel_to_point, point_at, point_fits};

verus! {

/// A run of consecutive rows of the grid, with the point of its first pixel.
#[derive(Debug, PartialEq, Eq, Structural, Copy, Clone)]
pub struct Band {
    /// The index of the band's first row in the grid.
    pub top: usize,
    /// How many rows the band holds.
    pub height: usize,
    /// The point of the band's upper-left pixel.
    pub upper_left: Complex<i64>,
}

/// Why a frame could not be computed.
#[derive(Debug, PartialEq, Eq, Structural, Copy, Clone)]
pub enum RenderError {
    /// The buffer does not hold one value per pixel, or the grid is empty.
    InvalidDimensions,
}

/// The number of rows of every band but the last.
pub open spec fn band_rows(height: nat, threads: nat) -> nat {
    height / threads + 1
}

/// The number of bands: enough to cover every row.
pub open spec fn band_count(height: nat, threads: nat) -> nat {
    let rows = band_rows(height, threads);
    ((height + rows - 1) / rows as int) as nat
}

/// The first row of band `k`.
pub open spec fn band_top(height: nat, threads: nat, k: nat) -> nat {
    k * band_rows(height, threads)
}

/// The number of rows of band `k`.
pub open spec fn band_height(height: nat, threads: nat, k: nat) -> nat {
    let rows = band_rows(height, threads);
    let rest = height - band_top(height, threads, k);
    if rest < rows {
        rest as nat
    } else {
        rows
    }
}

/// The band that holds row `row`.
pub open spec fn band_of_row(height: nat, threads: nat, row: nat) -> nat {
    row / band_rows(height, threads)
}

/// The memberships of every pixel of a grid, row after row.
pub open spec fn frame(bounds: (usize, usize), upper_left: Complex<int>, delta: int, limit: u32) -> Seq<
    Membership,
> {
    Seq::new(
        (bounds.0 * bounds.1) as nat,
        |i: int| membership(point_at(upper_left, delta, i % bounds.0 as int, i / bounds.0 as int), limit as nat),
    )
}

/// Whether the point of every pixel of the grid fits in an `i64`; checking
/// two opposite corners is enough.
pub open spec fn pixels_fit(bounds: (usize, usize), upper_left: Complex<int>, delta: int) -> bool {
    &&& point_fits(upper_left, delta, 0, 0)
    &&& point_fits(upper_left, delta, bounds.0 - 1, bounds.1 - 1)
}

/// The bands cover the rows `[0, height)` exactly: each row lies in a band
/// (`band_of_row`),
/// no band is empty or reaches past the grid, and the bands follow one
/// another without overlap, however `height` divides by `threads`.
pub proof fn lemma_bands_partition(height: nat, threads: nat)
    requires
        threads >= 1,
    ensures
        forall|row: nat| row < height ==> {
            let k = #[trigger] band_of_row(height, threads, row);
            k < band_count(height, threads) && band_top(height, threads, k) <= row < band_top(
                height,
                threads,
                k,
            ) + band_height(height, threads, k)
        },
        forall|k: nat| k < band_count(height, threads) ==> {
            &&& band_height(height, threads, k) > 0
            &&& band_top(height, threads, k) + band_height(height, threads, k) <= height
        },
        forall|k1: nat, k2: nat| k1 < k2 < band_count(height, threads) ==> band_top(height, threads, k1)
            + band_height(height, threads, k1) <= #[trigger] band_top(height, threads, k2)
            && #[trigger] band_top(height, threads, k1) < band_top(height, threads, k2),
{
    let rows = band_rows(height, threads);
    let count = band_count(height, threads);
    lemma_count_covers(height, rows);
    assert forall|row: nat| row < height implies {
        let k = #[trigger] band_of_row(height, threads, row);
        k < count && band_top(height, threads, k) <= row < band_top(height, threads, k)
            + band_height(height, threads, k)
    } by {
        let k = row / rows;
        vstd::arithmetic::div_mod::lemma_fundamental_div_mod(row as int, rows as int);
        vstd::arithmetic::div_mod::lemma_div_is_ordered(row as int, (count * rows) as int, rows as int);
        vstd::arithmetic::div_mod::lemma_div_multiples_vanish(count as int, rows as int);
        assert(k * rows <= row < k * rows + rows) by (nonlinear_arith)
            requires row == rows * k + row % rows, 0 <= row % rows < rows;
        assert(rows * count == count * rows) by (nonlinear_arith);
        assert(k < count);
    }
    assert forall|k: nat| k < count implies {
        &&& band_height(height, threads, k) > 0
        &&& band_top(height, threads, k) + band_height(height, threads, k) <= height
    } by {
        assert(k * rows <= (count - 1) * rows) by (nonlinear_arith)
            requires k < count;
    }
    assert forall|k1: nat, k2: nat| k1 < k2 < count implies band_top(height, threads, k1)
        + band_height(height, threads, k1) <= #[trigger] band_top(height, threads, k2)
        && #[trigger] band_top(height, threads, k1) < band_top(height, threads, k2) by {
        assert(k1 * rows + rows <= k2 * rows) by (nonlinear_arith)
            requires k1 < k2, rows >= 1;
    }
}

/// Every row below `height` falls before `count · rows`, and the last band
/// starts below `height`.
proof fn lemma_count_covers(height: nat, rows: nat)
    requires
        rows >= 1,
    ensures
        height_fits(height, rows),
{
    let n: int = height + rows - 1;
    let r: int = rows as int;
    let count = n / r;
    vstd::arithmetic::div_mod::lemma_fundamental_div_mod(n, r);
    assert(height <= count * r) by (nonlinear_arith)
        requires n == r * count + n % r, n % r < r, n == height + r - 1;
    assert(count >= 1 ==> (count - 1) * r < height) by (nonlinear_arith)
        requires n == r * count + n % r, n % r >= 0, n == height + r - 1;
}

/// Every pixel of a grid whose two opposite corners stand for points that fit
/// in an `i64` stands for such a point too.
pub proof fn lemma_pixels_fit(bounds: (usize, usize), upper_left: Complex<int>, delta: int, x: int, y: int)
    requires
        pixels_fit(bounds, upper_left, delta),
        0 <= x < bounds.0,
        0 <= y < bounds.1,
    ensures
        point_fits(upper_left, delta, x, y),
{
    let w = bounds.0 - 1;
    let h = bounds.1 - 1;
    assert(delta >= 0 ==> 0 <= delta * x <= delta * w) by (nonlinear_arith)
        requires 0 <= x <= w;
    assert(delta < 0 ==> delta * w <= delta * x <= 0) by (nonlinear_arith)
        requires 0 <= x <= w;
    assert(delta >= 0 ==> 0 <= delta * y <= delta * h) by (nonlinear_arith)
        requires 0 <= y <= h;
    assert(delta < 0 ==> delta * h <= delta * y <= 0) by (nonlinear_arith)
        requires 0 <= y <= h;
}

/// Stepping from the first pixel of row `top` is stepping from the grid's
/// upper-left point past `top` more rows.
pub proof fn lemma_point_from_row(upper_left: Complex<int>, delta: int, top: int, x: int, y: int)
    ensures
        point_at(point_at(upper_left, delta, 0, top), delta, x, y) == point_at(upper_left, delta, x, top + y),
{
    assert(delta * 0 == 0);
    assert(delta * top + delta * y == delta * (top + y)) by (nonlinear_arith);
}

/// Index `top · width + j` of a frame is pixel `(j % width, top + j / width)`.
proof fn lemma_index_in_rows(width: int, top: int, j: int)
    requires
        width > 0,
        top >= 0,
        j >= 0,
    ensures
        (top * width + j) % width == j % width,
        (top * width + j) / width == top + j / width,
{
    vstd::arithmetic::div_mod::lemma_fundamental_div_mod(j, width);
    assert(top * width + j == (top + j / width) * width + j % width) by (nonlinear_arith)
        requires j == width * (j / width) + j % width;
    vstd::arithmetic::div_mod::lemma_fundamental_div_mod_converse(
        top * width + j,
        width,
        top + j / width,
        j % width,
    );
}

/// A band computed on its own, from its own upper-left point, holds exactly
/// the values that the whole frame holds for the band's rows. So however the
/// rows are cut into bands, the bands together give the same frame.
pub proof fn lemma_band_matches_frame(
    bounds: (usize, usize),
    upper_left: Complex<int>,
    delta: int,
    limit: u32,
    top: usize,
    height: usize,
)
    requires
        bounds.0 > 0,
        top + height <= bounds.1,
    ensures
        frame((bounds.0, height), point_at(upper_left, delta, 0, top as int), delta, limit) =~= frame(
            bounds,
            upper_left,
            delta,
            limit,
        ).subrange(top * bounds.0, (top + height) * bounds.0),
{
    let w = bounds.0 as int;
    let band = frame((bounds.0, height), point_at(upper_left, delta, 0, top as int), delta, limit);
    let whole = frame(bounds, upper_left, delta, limit);
    assert((top + height) * w <= bounds.1 * w) by (nonlinear_arith)
        requires top + height <= bounds.1, w > 0;
    assert((top + height) * w == top * w + height * w) by (nonlinear_arith);
    assert(top * w >= 0) by (nonlinear_arith)
        requires top >= 0, w > 0;
    assert(band.len() == w * height);
    assert(whole.len() == w * bounds.1);
    assert(w * height + top * w <= w * bounds.1) by (nonlinear_arith)
        requires top + height <= bounds.1, w > 0;
    assert forall|j: int| 0 <= j < band.len() implies band[j] == whole[top * w + j] by {
        assert(top * w + j < w * bounds.1);
        lemma_index_in_rows(w, top as int, j);
        lemma_point_from_row(upper_left, delta, top as int, j % w, j / w);
    }
    assert(w * height == height * w) by (nonlinear_arith);
    assert(w * bounds.1 == bounds.1 * w) by (nonlinear_arith);
    let rows = whole.subrange(top * w, (top + height) * w);
    assert(rows.len() == band.len());
}

/// The frame as the bands for `threads` workers compute it: each pixel from
/// the upper-left point of the band that holds its row.
pub open spec fn banded_frame(
    bounds: (usize, usize),
    upper_left: Complex<int>,
    delta: int,
    limit: u32,
    threads: nat,
) -> Seq<Membership> {
    Seq::new(
        (bounds.0 * bounds.1) as nat,
        |i: int|
            {
                let row = i / bounds.0 as int;
                let top = band_top(bounds.1 as nat, threads, band_of_row(bounds.1 as nat, threads, row as nat))
                    as int;
                membership(
                    point_at(point_at(upper_left, delta, 0, top), delta, i % bounds.0 as int, row - top),
                    limit as nat,
                )
            },
    )
}

/// Whatever the number of workers, the bands together compute the same frame
/// as one pass over the whole grid.
pub proof fn lemma_banded_frame_is_frame(
    bounds: (usize, usize),
    upper_left: Complex<int>,
    delta: int,
    limit: u32,
    threads: nat,
)
    requires
        threads >= 1,
    ensures
        banded_frame(bounds, upper_left, delta, limit, threads) == frame(bounds, upper_left, delta, limit),
{
    let banded = banded_frame(bounds, upper_left, delta, limit, threads);
    let whole = frame(bounds, upper_left, delta, limit);
    assert forall|i: int| 0 <= i < banded.len() implies banded[i] == whole[i] by {
        let w = bounds.0 as int;
        let row = i / w;
        let top = band_top(bounds.1 as nat, threads, band_of_row(bounds.1 as nat, threads, row as nat)) as int;
        lemma_point_from_row(upper_left, delta, top, i % w, row - top);
    }
    assert(banded =~= whole);
}

/// Computing a frame with `threads1` workers or with `threads2` workers gives
/// the same memberships, pixel for pixel.
pub proof fn lemma_frame_independent_of_threads(
    bounds: (usize, usize),
    upper_left: Complex<int>,
    delta: int,
    limit: u32,
    threads1: nat,
    threads2: nat,
)
    requires
        threads1 >= 1,
        threads2 >= 1,
    ensures
        banded_frame(bounds, upper_left, delta, limit, threads1) == banded_frame(
            bounds,
            upper_left,
            delta,
            limit,
            threads2,
        ),
{
    lemma_banded_frame_is_frame(bounds, upper_left, delta, limit, threads1);
    lemma_banded_frame_is_frame(bounds, upper_left, delta, limit, threads2);
}

/// The number of rows of every band but the last: `height / threads + 1`.
pub fn rows_per_band(height: usize, threads: usize) -> (r: usize)
    requires
        threads >= 1,
        height < usize::MAX,
    ensures
        r == band_rows(height as nat, threads as nat),
{
    height / threads + 1
}

/// Cuts the rows of a grid into bands for `threads` workers, each with the
/// point of its upper-left pixel.
pub fn bands(bounds: (usize, usize), upper_left: Complex<i64>, pixel_delta: i64, threads: usize) -> (r: Vec<Band>)
    requires
        threads >= 1,
        bounds.0 > 0,
        bounds.1 < usize::MAX,
        bounds.1 > 0 ==> pixels_fit(bounds, upper_left@, pixel_delta as int),
    ensures
        r@.len() == band_count(bounds.1 as nat, threads as nat),
        forall|k: int|
            0 <= k < r@.len() ==> {
                &&& #[trigger] r@[k].top == band_top(bounds.1 as nat, threads as nat, k as nat)
                &&& r@[k].height == band_height(bounds.1 as nat, threads as nat, k as nat)
                &&& r@[k].upper_left@ == point_at(upper_left@, pixel_delta as int, 0, r@[k].top as int)
            },
{
    let ghost h = bounds.1 as nat;
    let ghost t = threads as nat;
    let rows = rows_per_band(bounds.1, threads);
    let ghost count = band_count(h, t);
    proof {
        lemma_count_covers(h, rows as nat);
        vstd::arithmetic::div_mod::lemma_div_pos_is_pos(h + rows - 1, rows as int);
        assert(count == (h + rows - 1) / rows as int);
        if h > 0 {
            assert(count > 0) by (nonlinear_arith)
                requires h <= count * rows, h > 0;
        }
    }
    let mut plan: Vec<Band> = Vec::new();
    let mut top: usize = 0;
    assert(top == plan@.len() * rows && (top < bounds.1 ==> plan@.len() < count));
    while top < bounds.1
        invariant
            threads >= 1,
            bounds.0 > 0,
            h == bounds.1,
            t == threads,
            rows == band_rows(h, t),
            count == band_count(h, t),
            height_fits(h, rows as nat),
            bounds.1 > 0 ==> pixels_fit(bounds, upper_left@, pixel_delta as int),
            top <= bounds.1,
            top < bounds.1 ==> top == plan@.len() * rows && plan@.len() < count,
            top == bounds.1 ==> plan@.len() == count,
            forall|k: int|
                0 <= k < plan@.len() ==> {
                    &&& #[trigger] plan@[k].top == band_top(h, t, k as nat)
                    &&& plan@[k].height == band_height(h, t, k as nat)
                    &&& plan@[k].upper_left@ == point_at(upper_left@, pixel_delta as int, 0, plan@[k].top as int)
                },
        decreases bounds.1 - top,
    {
        let rest = bounds.1 - top;
        let height = if rest < rows {
            rest
        } else {
            rows
        };
        proof {
            lemma_pixels_fit(bounds, upper_left@, pixel_delta as int, 0, top as int);
        }
        let upper = pixel_to_point(bounds, (0, top), upper_left, pixel_delta);
        let ghost k = plan@.len();
        let ghost old_plan = plan@;
        plan.push(Band { top, height, upper_left: upper });
        proof {
            assert(plan@[k as int].top == band_top(h, t, k));
            assert forall|i: int|
                0 <= i < plan@.len() implies {
                    &&& #[trigger] plan@[i].top == band_top(h, t, i as nat)
                    &&& plan@[i].height == band_height(h, t, i as nat)
                    &&& plan@[i].upper_left@ == point_at(upper_left@, pixel_delta as int, 0, plan@[i].top as int)
                } by {
                if i < k {
                    assert(plan@[i] == old_plan[i]);
                }
            }
        }
        if rest <= rows {
            proof {
                assert(k + 1 >= count) by (nonlinear_arith)
                    requires count >= 1 ==> (count - 1) * rows < h, h <= top + rows, top == k * rows,
                        k < count;
            }
            top = bounds.1;
        } else {
            proof {
                assert(k + 1 < count) by (nonlinear_arith)
                    requires h <= count * rows, top + rows < h, top == k * rows, rows >= 1;
                assert(top + rows == (k + 1) * rows) by (nonlinear_arith)
                    requires top == k * rows;
            }
            top = top + rows;
        }
    }
    proof {
        if h == 0 {
            assert(count == 0) by (nonlinear_arith)
                requires count >= 1 ==> (count - 1) * rows < h, h == 0, rows >= 1;
        }
    }
    plan
}

/// What `lemma_count_covers` says of `height` and `rows`.
spec fn height_fits(height: nat, rows: nat) -> bool {
    let count = (height + rows - 1) / rows as int;
    &&& rows >= 1
    &&& height <= count * rows
    &&& count >= 1 ==> (count - 1) * rows < height
}

/// Fills `memberships`, row after row, with the membership of every pixel
/// of a grid of `bounds` whose upper-left pixel stands for `upper_left` and
/// whose neighbouring pixels lie `pixel_delta` apart.
pub fn map_membership(
    memberships: &mut [Membership],
    bounds: (usize, usize),
    upper_left: Complex<i64>,
    pixel_delta: i64,
    limit: u32,
)
    requires
        old(memberships)@.len() == bounds.0 * bounds.1,
        bounds.0 > 0 && bounds.1 > 0 ==> pixels_fit(bounds, upper_left@, pixel_delta as int),
    ensures
        final(memberships)@ == frame(bounds, upper_left@, pixel_delta as int, limit),
{
    let ghost whole = frame(bounds, upper_left@, pixel_delta as int, limit);
    let width = bounds.0;
    let total = memberships.len();
    let mut row: usize = 0;
    while row < bounds.1
        invariant
            row <= bounds.1,
            width == bounds.0,
            memberships@.len() == bounds.0 * bounds.1,
            total == memberships@.len(),
            whole == frame(bounds, upper_left@, pixel_delta as int, limit),
            bounds.0 > 0 && bounds.1 > 0 ==> pixels_fit(bounds, upper_left@, pixel_delta as int),
            forall|i: int| 0 <= i < row * width ==> memberships@[i] == #[trigger] whole[i],
        decreases bounds.1 - row,
    {
        let mut column: usize = 0;
        while column < width
            invariant
                row < bounds.1,
                column <= width,
                width == bounds.0,
                memberships@.len() == bounds.0 * bounds.1,
                total == memberships@.len(),
                whole == frame(bounds, upper_left@, pixel_delta as int, limit),
                bounds.0 > 0 && bounds.1 > 0 ==> pixels_fit(bounds, upper_left@, pixel_delta as int),
                forall|i: int| 0 <= i < row * width + column ==> memberships@[i] == #[trigger] whole[i],
            decreases width - column,
        {
            proof {
                lemma_pixels_fit(bounds, upper_left@, pixel_delta as int, column as int, row as int);
                assert(row * width + column < width * bounds.1) by (nonlinear_arith)
                    requires row < bounds.1, column < width;
                vstd::arithmetic::div_mod::lemma_fundamental_div_mod_converse(
                    row * width + column,
                    width as int,
                    row as int,
                    column as int,
                );
            }
            let point = pixel_to_point(bounds, (column, row), upper_left, pixel_delta);
            let index = row * width + column;
            memberships[index] = calculate(point, limit);
            column = column + 1;
        }
        proof {
            assert(row * width + width == (row + 1) * width) by (nonlinear_arith);
        }
        row = row + 1;
    }
    proof {
        assert(bounds.1 * width == width * bounds.1) by (nonlinear_arith);
        assert(memberships@ =~= whole);
    }
}

/// Computes every pixel's membership into `memberships`, cutting the rows
/// into bands as for `threads` workers. The result does not depend on
/// `threads`. Fails, leaving `memberships` as it was, when it does not hold
/// exactly one value per pixel or the grid is empty. The grid's height must
/// stay below `usize::MAX`, so that a band can hold one row more than its
/// share.
pub fn render(
    memberships: &mut Vec<Membership>,
    bounds: (usize, usize),
    upper_left: Complex<i64>,
    pixel_delta: i64,
    limit: u32,
    threads: usize,
) -> (r: Result<(), RenderError>)
    requires
        threads >= 1,
        bounds.1 < usize::MAX,
        bounds.0 > 0 && bounds.1 > 0 ==> pixels_fit(bounds, upper_left@, pixel_delta as int),
    ensures
        r is Err <==> (old(memberships)@.len() != bounds.0 * bounds.1 || bounds.0 == 0 || bounds.1 == 0),
        r is Err ==> r == Err::<(), RenderError>(RenderError::InvalidDimensions) && final(memberships)@
            == old(memberships)@,
        r is Ok ==> final(memberships)@ == frame(bounds, upper_left@, pixel_delta as int, limit),
        r is Ok ==> final(memberships)@ == banded_frame(
            bounds,
            upper_left@,
            pixel_delta as int,
            limit,
            threads as nat,
        ),
{
    let total = memberships.len();
    if bounds.0 == 0 || bounds.1 == 0 {
        return Err(RenderError::InvalidDimensions);
    }
    match bounds.0.checked_mul(bounds.1) {
        None => {
            return Err(RenderError::InvalidDimensions);
        },
        Some(n) => {
            if n != total {
                return Err(RenderError::InvalidDimensions);
            }
        },
    }
    let ghost h = bounds.1 as nat;
    let ghost t = threads as nat;
    let ghost whole = frame(bounds, upper_left@, pixel_delta as int, limit);
    let width = bounds.0;
    let plan = bands(bounds, upper_left, pixel_delta, threads);
    proof {
        lemma_bands_partition(h, t);
        assert(band_of_row(h, t, 0) < band_count(h, t));
    }
    let mut k: usize = 0;
    let mut done: usize = 0;
    while k < plan.len()
        invariant
            width == bounds.0,
            width > 0,
            bounds.1 > 0,
            memberships@.len() == width * bounds.1,
            total == memberships@.len(),
            whole == frame(bounds, upper_left@, pixel_delta as int, limit),
            pixels_fit(bounds, upper_left@, pixel_delta as int),
            k <= plan@.len(),
            plan@.len() == band_count(h, t),
            h == bounds.1,
            t == threads,
            t >= 1,
            forall|b: int|
                0 <= b < plan@.len() ==> {
                    &&& #[trigger] plan@[b].top == band_top(h, t, b as nat)
                    &&& plan@[b].height == band_height(h, t, b as nat)
                    &&& plan@[b].upper_left@ == point_at(upper_left@, pixel_delta as int, 0, plan@[b].top as int)
                },
            forall|b: nat| b < band_count(h, t) ==> {
                &&& band_height(h, t, b) > 0
                &&& band_top(h, t, b) + band_height(h, t, b) <= h
            },
            forall|b1: nat, b2: nat| b1 < b2 < band_count(h, t) ==> band_top(h, t, b1)
                + band_height(h, t, b1) <= #[trigger] band_top(h, t, b2)
                && #[trigger] band_top(h, t, b1) < band_top(h, t, b2),
            k < plan@.len() ==> done == plan@[k as int].top,
            k == plan@.len() ==> done == bounds.1,
            done <= bounds.1,
            done * width <= width * bounds.1,
            forall|i: int| 0 <= i < done * width ==> memberships@[i] == #[trigger] whole[i],
        decreases plan@.len() - k,
    {
        let band = plan[k];
        proof {
            lemma_band_fits(bounds, upper_left@, pixel_delta as int, band.top, band.height);
            lemma_band_matches_frame(bounds, upper_left@, pixel_delta as int, limit, band.top, band.height);
        }
        let size = width * band.height;
        let mut buffer: Vec<Membership> = vec![Membership::No(0); size];
        map_membership(buffer.as_mut_slice(), (width, band.height), band.upper_left, pixel_delta, limit);
        let base = band.top * width;
        let ghost part = frame((width, band.height), band.upper_left@, pixel_delta as int, limit);
        proof {
            assert(plan@[k as int].top == band_top(h, t, k as nat));
            assert((band.top + band.height) * width == base + size) by (nonlinear_arith)
                requires base == band.top * width, size == width * band.height;
        }
        let mut j: usize = 0;
        while j < size
            invariant
                j <= size,
                size == width * band.height,
                base == band.top * width,
                base + size <= width * bounds.1,
                buffer@ == part,
                part =~= whole.subrange(base as int, base + size),
                memberships@.len() == width * bounds.1,
                total == memberships@.len(),
                whole.len() == width * bounds.1,
                done == band.top,
                forall|i: int| 0 <= i < base + j ==> memberships@[i] == #[trigger] whole[i],
            decreases size - j,
        {
            memberships.set(base + j, buffer[j]);
            j = j + 1;
        }
        proof {
            let b = k as nat;
            if b + 1 < band_count(h, t) {
                assert(band_top(h, t, b) < band_top(h, t, b + 1));
                assert(band_top(h, t, b + 1) == band_top(h, t, b) + band_rows(h, t)) by (nonlinear_arith)
                    requires band_top(h, t, b + 1) == (b + 1) * band_rows(h, t), band_top(h, t, b) == b
                        * band_rows(h, t);
                assert(band_top(h, t, b) + band_height(h, t, b) == band_top(h, t, b + 1));
            } else {
                let rows = band_rows(h, t);
                lemma_count_covers(h, rows);
                assert(h <= b * rows + rows) by (nonlinear_arith)
                    requires h <= band_count(h, t) * rows, b + 1 == band_count(h, t);
            }
        }
        done = band.top + band.height;
        proof {
            assert(done * width == base + size) by (nonlinear_arith)
                requires done == band.top + band.height, base == band.top * width, size == width * band.height;
        }
        k = k + 1;
    }
    proof {
        assert(bounds.1 * width == width * bounds.1) by (nonlinear_arith);
        assert(memberships@ =~= whole);
        lemma_banded_frame_is_frame(bounds, upper_left@, pixel_delta as int, limit, t);
    }
    Ok(())
}

/// A band that the grid holds fits in memory, and its pixels' points fit in
/// an `i64`.
proof fn lemma_band_fits(bounds: (usize, usize), upper_left: Complex<int>, delta: int, top: usize, height: usize)
    requires
        bounds.0 > 0,
        height > 0,
        top + height <= bounds.1,
        pixels_fit(bounds, upper_left, delta),
    ensures
        top * bounds.0 + bounds.0 * height <= bounds.0 * bounds.1,
        pixels_fit((bounds.0, height), point_at(upper_left, delta, 0, top as int), delta),
{
    let w = bounds.0 as int;
    assert(top * w + w * height <= w * bounds.1) by (nonlinear_arith)
        requires top + height <= bounds.1, w > 0;
    lemma_pixels_fit(bounds, upper_left, delta, 0, top as int);
    lemma_pixels_fit(bounds, upper_left, delta, w - 1, top + height - 1);
    lemma_point_from_row(upper_left, delta, top as int, 0, 0);
    lemma_point_from_row(upper_left, delta, top as int, w - 1, height - 1);
}

} // verus!
