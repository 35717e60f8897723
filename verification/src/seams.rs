//! What a tiling guarantees: tiles stay inside the image, leave no gap, overlap
//! at least as much as asked, and carry weights that add up to one.

use vstd::arithmetic::div_mod::*;
use vstd::prelude::*;

use crate::axis;
use crate::tiling;
use crate::tiling::{AxisWeight, Grid};

verus! {

/// Whether span `i` of an axis covers output position `x` once scaled.
pub open spec fn covers(
    extent: int,
    tile: int,
    overlap: int,
    scale: int,
    i: int,
    x: int,
) -> bool {
    &&& 0 <= i < axis::span_count(extent, tile, overlap)
    &&& axis::span_origin(extent, tile, overlap, i) * scale <= x
    &&& x < (axis::span_origin(extent, tile, overlap, i) + axis::span_extent(extent, tile)) * scale
}

/// The weight that span `i` gives output position `x`.
pub open spec fn weight_in_span(
    extent: int,
    tile: int,
    overlap: int,
    scale: int,
    i: int,
    x: int,
) -> AxisWeight {
    let s = axis::span_at(extent, tile, overlap, i);
    tiling::axis_weight_at(
        x - s.origin * scale,
        s.extent * scale,
        s.lead_overlap * scale,
        s.trail_overlap * scale,
    )
}

/// Products with a positive factor keep their order.
proof fn lemma_scale_order(a: int, b: int, scale: int)
    requires
        scale >= 1,
    ensures
        a < b ==> a * scale + scale <= b * scale,
        a <= b ==> a * scale <= b * scale,
        (a + b) * scale == a * scale + b * scale,
        (a - b) * scale == a * scale - b * scale,
{
    assert(a < b ==> a * scale + scale <= b * scale) by (nonlinear_arith)
        requires
            scale >= 1,
    ;
    assert(a <= b ==> a * scale <= b * scale) by (nonlinear_arith)
        requires
            scale >= 1,
    ;
    assert((a + b) * scale == a * scale + b * scale) by (nonlinear_arith);
    assert((a - b) * scale == a * scale - b * scale) by (nonlinear_arith);
}

/// Every output position on an axis lies in some span.
pub proof fn law_axis_has_no_gap(extent: int, tile: int, overlap: int, scale: int, x: int)
    requires
        0 <= overlap < tile,
        scale >= 1,
        0 <= x < extent * scale,
    ensures
        exists|i: int| covers(extent, tile, overlap, scale, i, x),
{
    assert(extent >= 1) by (nonlinear_arith)
        requires
            0 < extent * scale,
            scale >= 1,
    ;
    let last: int = axis::span_count(extent, tile, overlap) - 1;
    if tile < extent {
        axis::lemma_origins(extent, tile, overlap, 0);
    }
    axis::lemma_span(extent, tile, overlap, 0);
    axis::lemma_span(extent, tile, overlap, last);
    assert(0int * scale == 0) by (nonlinear_arith);
    lemma_no_gap_up_to(extent, tile, overlap, scale, x, last);
}

/// Every output position before the end of span `n` lies in some span.
proof fn lemma_no_gap_up_to(extent: int, tile: int, overlap: int, scale: int, x: int, n: int)
    requires
        0 <= overlap < tile,
        scale >= 1,
        0 <= x,
        0 < extent,
        0 <= n < axis::span_count(extent, tile, overlap),
        x < (axis::span_origin(extent, tile, overlap, n) + axis::span_extent(extent, tile)) * scale,
    ensures
        exists|i: int| covers(extent, tile, overlap, scale, i, x),
    decreases n,
{
    axis::lemma_span(extent, tile, overlap, n);
    if axis::span_origin(extent, tile, overlap, n) * scale <= x {
        assert(covers(extent, tile, overlap, scale, n, x));
    } else {
        assert(0int * scale == 0) by (nonlinear_arith);
        assert(n > 0);
        axis::lemma_span(extent, tile, overlap, n - 1);
        lemma_scale_order(
            axis::span_origin(extent, tile, overlap, n),
            axis::span_origin(extent, tile, overlap, n - 1) + axis::span_extent(extent, tile),
            scale,
        );
        lemma_no_gap_up_to(extent, tile, overlap, scale, x, n - 1);
    }
}

/// Neighbouring spans share at least the overlap that was asked for, and both
/// sides of the cross-fade measure it alike.
pub proof fn law_overlap_is_at_least_requested(extent: int, tile: int, overlap: int, i: int)
    requires
        0 <= extent <= u32::MAX,
        1 <= tile <= u32::MAX,
        0 <= overlap < tile,
        0 <= i,
        i + 1 < axis::span_count(extent, tile, overlap),
    ensures
        axis::span_at(extent, tile, overlap, i).trail_overlap >= overlap,
        axis::span_at(extent, tile, overlap, i).trail_overlap == axis::span_at(
            extent,
            tile,
            overlap,
            i + 1,
        ).lead_overlap,
        axis::span_at(extent, tile, overlap, i).trail_overlap == axis::span_at(
            extent,
            tile,
            overlap,
            i,
        ).origin + tile - axis::span_at(extent, tile, overlap, i + 1).origin,
{
    axis::lemma_span(extent, tile, overlap, i);
    axis::lemma_span(extent, tile, overlap, i + 1);
}

/// Overlaps on one axis differ by at most one pixel: the spread is even.
pub proof fn law_overlaps_are_even(extent: int, tile: int, overlap: int, i: int, j: int)
    requires
        0 <= overlap < tile,
        0 <= i,
        i + 1 < axis::span_count(extent, tile, overlap),
        0 <= j,
        j + 1 < axis::span_count(extent, tile, overlap),
    ensures
        axis::shared(extent, tile, overlap, i) <= axis::shared(extent, tile, overlap, j) + 1,
{
    let n: int = axis::span_count(extent, tile, overlap) - 1;
    let travel: int = extent - tile;
    let a0: int = travel * i;
    let a1: int = travel * (i + 1);
    let b0: int = travel * j;
    let b1: int = travel * (j + 1);
    lemma_fundamental_div_mod(a0, n);
    lemma_fundamental_div_mod(a1, n);
    lemma_fundamental_div_mod(b0, n);
    lemma_fundamental_div_mod(b1, n);
    assert(a1 == a0 + travel && b1 == b0 + travel) by (nonlinear_arith)
        requires
            a0 == travel * i,
            a1 == travel * (i + 1),
            b0 == travel * j,
            b1 == travel * (j + 1),
    ;
    let da: int = a1 / n - a0 / n;
    let db: int = b1 / n - b0 / n;
    assert(n * da == n * (a1 / n) - n * (a0 / n)) by (nonlinear_arith)
        requires
            da == a1 / n - a0 / n,
    ;
    assert(n * db == n * (b1 / n) - n * (b0 / n)) by (nonlinear_arith)
        requires
            db == b1 / n - b0 / n,
    ;
    assert(travel - n < n * da && n * db < travel + n);
    assert(db <= da + 1) by (nonlinear_arith)
        requires
            travel - n < n * da,
            n * db < travel + n,
            n >= 1,
    ;
}

/// Whether no three spans of the axis cover `x`.
pub open spec fn at_most_two(
    extent: int,
    tile: int,
    overlap: int,
    scale: int,
    x: int,
) -> bool {
    forall|i: int, j: int|
        covers(extent, tile, overlap, scale, i, x) && covers(extent, tile, overlap, scale, j, x)
            ==> j <= i + 1
}

/// Whether the two fades of a span never run into each other: what it shares with the
/// span before it and with the one after it is together no more than its length.
pub open spec fn fades_apart(extent: int, tile: int, overlap: int) -> bool {
    forall|i: int|
        0 < i < axis::span_count(extent, tile, overlap) - 1 ==> axis::shared(
            extent,
            tile,
            overlap,
            i - 1,
        ) + #[trigger] axis::shared(extent, tile, overlap, i) <= axis::span_extent(extent, tile)
}

/// Spans start one after the other.
proof fn lemma_origins_in_order(extent: int, tile: int, overlap: int, i: int, j: int)
    requires
        0 <= overlap < tile < extent,
        0 <= i <= j < axis::span_count(extent, tile, overlap),
    ensures
        axis::span_origin(extent, tile, overlap, i) <= axis::span_origin(extent, tile, overlap, j),
    decreases j - i,
{
    if i < j {
        axis::lemma_origins(extent, tile, overlap, j - 1);
        lemma_origins_in_order(extent, tile, overlap, i, j - 1);
    }
}

/// No output position lies in more than two spans exactly where the fades of every
/// span stay apart.
pub proof fn law_fades_apart(extent: int, tile: int, overlap: int, scale: int)
    requires
        0 <= extent,
        0 <= overlap < tile,
        scale >= 1,
    ensures
        fades_apart(extent, tile, overlap) <==> forall|x: int|
            0 <= x < extent * scale ==> #[trigger] at_most_two(extent, tile, overlap, scale, x),
{
    let e: int = axis::span_extent(extent, tile);
    let count: int = axis::span_count(extent, tile, overlap);
    if fades_apart(extent, tile, overlap) {
        assert forall|x: int| 0 <= x < extent * scale implies #[trigger] at_most_two(
            extent,
            tile,
            overlap,
            scale,
            x,
        ) by {
            assert forall|i: int, j: int|
                covers(extent, tile, overlap, scale, i, x) && covers(
                    extent,
                    tile,
                    overlap,
                    scale,
                    j,
                    x,
                ) implies j <= i + 1 by {
                if j > i + 1 {
                    lemma_origins_in_order(extent, tile, overlap, i + 2, j);
                    assert(axis::shared(extent, tile, overlap, (i + 1) - 1) + axis::shared(
                        extent,
                        tile,
                        overlap,
                        i + 1,
                    ) <= e);
                    let a: int = axis::span_origin(extent, tile, overlap, i) + e;
                    let b: int = axis::span_origin(extent, tile, overlap, j);
                    assert(a <= b);
                    lemma_scale_order(a, b, scale);
                }
            }
        }
    }
    if forall|x: int|
        0 <= x < extent * scale ==> #[trigger] at_most_two(extent, tile, overlap, scale, x) {
        assert forall|i: int| 0 < i < count - 1 implies axis::shared(extent, tile, overlap, i - 1)
            + #[trigger] axis::shared(extent, tile, overlap, i) <= e by {
            axis::lemma_span(extent, tile, overlap, i - 1);
            axis::lemma_span(extent, tile, overlap, i + 1);
            lemma_origins_in_order(extent, tile, overlap, i - 1, i + 1);
            let a: int = axis::span_origin(extent, tile, overlap, i - 1);
            let b: int = axis::span_origin(extent, tile, overlap, i + 1);
            if b < a + e {
                let x: int = b * scale;
                assert(0 <= x && a * scale <= x && x < (a + e) * scale && x < (b + e) * scale && x
                    < extent * scale) by (nonlinear_arith)
                    requires
                        x == b * scale,
                        0 <= a <= b,
                        b < a + e,
                        e >= 1,
                        b + e <= extent,
                        scale >= 1,
                ;
                assert(at_most_two(extent, tile, overlap, scale, x));
                assert(covers(extent, tile, overlap, scale, i - 1, x));
                assert(covers(extent, tile, overlap, scale, i + 1, x));
            }
        }
    }
}

/// Span `i` alone covers `x`.
pub open spec fn lone(extent: int, tile: int, overlap: int, scale: int, i: int, x: int) -> bool {
    &&& covers(extent, tile, overlap, scale, i, x)
    &&& forall|j: int| covers(extent, tile, overlap, scale, j, x) ==> j == i
}

/// Spans `i` and `i + 1`, and no others, cover `x`.
pub open spec fn pair(extent: int, tile: int, overlap: int, scale: int, i: int, x: int) -> bool {
    &&& covers(extent, tile, overlap, scale, i, x)
    &&& covers(extent, tile, overlap, scale, i + 1, x)
    &&& forall|j: int| covers(extent, tile, overlap, scale, j, x) ==> j == i || j == i + 1
}

/// The spans that cover `x`, starting from span `i`, are one or two in number, and
/// the weights they give `x` add up to one: alone at full weight, or as two
/// fractions of one denominator.
pub open spec fn sum_to_one(
    extent: int,
    tile: int,
    overlap: int,
    scale: int,
    i: int,
    x: int,
) -> bool {
    let a = weight_in_span(extent, tile, overlap, scale, i, x);
    let b = weight_in_span(extent, tile, overlap, scale, i + 1, x);
    &&& a.denom() > 0
    &&& {
        ||| lone(extent, tile, overlap, scale, i, x) && a.numer() == a.denom()
        ||| pair(extent, tile, overlap, scale, i, x) && a.denom() == b.denom() && a.numer()
            + b.numer() == a.denom()
    }
}

/// A position that one span alone covers is taken from it at full weight.
proof fn lemma_lone_weight(extent: int, tile: int, overlap: int, scale: int, i: int, x: int)
    requires
        0 <= extent <= u32::MAX,
        1 <= tile <= u32::MAX,
        0 <= overlap < tile,
        scale >= 1,
        extent * scale <= u32::MAX,
        lone(extent, tile, overlap, scale, i, x),
    ensures
        weight_in_span(extent, tile, overlap, scale, i, x).numer() == 1,
        weight_in_span(extent, tile, overlap, scale, i, x).denom() == 1,
{
    axis::lemma_span(extent, tile, overlap, i);
    let s = axis::span_at(extent, tile, overlap, i);
    let e: int = axis::span_extent(extent, tile);
    assert(0int * scale == 0) by (nonlinear_arith);
    if i > 0 {
        axis::lemma_span(extent, tile, overlap, i - 1);
        let p: int = axis::span_origin(extent, tile, overlap, i - 1);
        lemma_scale_order(p + e, s.origin as int, scale);
        lemma_scale_order(p, s.origin as int, scale);
        assert(!covers(extent, tile, overlap, scale, i - 1, x));
    }
    if i + 1 < axis::span_count(extent, tile, overlap) {
        axis::lemma_span(extent, tile, overlap, i + 1);
        let q: int = axis::span_origin(extent, tile, overlap, i + 1);
        lemma_scale_order(s.origin as int, e, scale);
        lemma_scale_order(s.origin + e, q, scale);
        lemma_scale_order(s.origin + e, q + e, scale);
        assert(!covers(extent, tile, overlap, scale, i + 1, x));
    }
    let w = weight_in_span(extent, tile, overlap, scale, i, x);
    assert(w.lead is None);
    assert(w.trail is None);
}

/// Where two spans meet, their weights have one denominator and add up to it.
proof fn lemma_pair_weight(extent: int, tile: int, overlap: int, scale: int, i: int, x: int)
    requires
        0 <= extent <= u32::MAX,
        1 <= tile <= u32::MAX,
        0 <= overlap < tile,
        scale >= 1,
        extent * scale <= u32::MAX,
        pair(extent, tile, overlap, scale, i, x),
    ensures
        ({
            let a = weight_in_span(extent, tile, overlap, scale, i, x);
            let b = weight_in_span(extent, tile, overlap, scale, i + 1, x);
            &&& a.denom() == b.denom()
            &&& a.denom() > 0
            &&& a.numer() + b.numer() == a.denom()
        }),
{
    axis::lemma_span(extent, tile, overlap, i);
    axis::lemma_span(extent, tile, overlap, i + 1);
    let s = axis::span_at(extent, tile, overlap, i);
    let t = axis::span_at(extent, tile, overlap, i + 1);
    let e: int = axis::span_extent(extent, tile);
    assert(0int * scale == 0) by (nonlinear_arith);
    lemma_scale_order(s.origin as int, e, scale);
    lemma_scale_order(t.origin as int, e, scale);
    lemma_scale_order(s.origin + e, t.origin as int, scale);
    lemma_scale_order(t.origin + e, extent, scale);
    lemma_scale_order(s.origin as int, t.origin as int, scale);
    let o: int = s.trail_overlap * scale;
    assert(o == s.origin * scale + e * scale - t.origin * scale);
    if i > 0 {
        axis::lemma_span(extent, tile, overlap, i - 1);
        let p: int = axis::span_origin(extent, tile, overlap, i - 1);
        lemma_scale_order(p + e, s.origin as int, scale);
        lemma_scale_order(p, s.origin as int, scale);
        assert(!covers(extent, tile, overlap, scale, i - 1, x));
    }
    if i + 2 < axis::span_count(extent, tile, overlap) {
        axis::lemma_span(extent, tile, overlap, i + 2);
        let q: int = axis::span_origin(extent, tile, overlap, i + 2);
        lemma_scale_order(t.origin + e, q, scale);
        lemma_scale_order(t.origin + e, q + e, scale);
        assert(!covers(extent, tile, overlap, scale, i + 2, x));
    }
    let a = weight_in_span(extent, tile, overlap, scale, i, x);
    let b = weight_in_span(extent, tile, overlap, scale, i + 1, x);
    assert(a.lead is None);
    assert(b.trail is None);
    assert(a.trail == Some(
        tiling::Ramp {
            step: (s.origin * scale + e * scale - 1 - x) as u32,
            width: o as u32,
        },
    ));
    assert(b.lead == Some(tiling::Ramp { step: (x - t.origin * scale) as u32, width: o as u32 }));
}

/// Weights along an axis add up to one. A position that is covered by one span is
/// taken from it alone at full weight; where two spans meet, their weights have
/// one denominator and their numerators add up to it.
///
/// Positions that three or more spans cover are left out: there the two fades of a
/// span run into each other, and the total is brought back to one by dividing by it.
/// [`law_fades_apart`] tells which tilings have none.
pub proof fn law_axis_weights_sum_to_one(
    extent: int,
    tile: int,
    overlap: int,
    scale: int,
    x: int,
)
    requires
        0 <= extent <= u32::MAX,
        1 <= tile <= u32::MAX,
        0 <= overlap < tile,
        scale >= 1,
        extent * scale <= u32::MAX,
        0 <= x < extent * scale,
        at_most_two(extent, tile, overlap, scale, x),
    ensures
        exists|i: int| sum_to_one(extent, tile, overlap, scale, i, x),
{
    law_axis_has_no_gap(extent, tile, overlap, scale, x);
    let i = choose|i: int| covers(extent, tile, overlap, scale, i, x);
    if covers(extent, tile, overlap, scale, i + 1, x) {
        assert(pair(extent, tile, overlap, scale, i, x));
        lemma_pair_weight(extent, tile, overlap, scale, i, x);
        assert(sum_to_one(extent, tile, overlap, scale, i, x));
    } else if covers(extent, tile, overlap, scale, i - 1, x) {
        assert(covers(extent, tile, overlap, scale, (i - 1) + 1, x));
        assert(pair(extent, tile, overlap, scale, i - 1, x));
        lemma_pair_weight(extent, tile, overlap, scale, i - 1, x);
        assert(sum_to_one(extent, tile, overlap, scale, i - 1, x));
    } else {
        assert(lone(extent, tile, overlap, scale, i, x));
        lemma_lone_weight(extent, tile, overlap, scale, i, x);
        assert(sum_to_one(extent, tile, overlap, scale, i, x));
    }
}

/// What the tile in row `r` and column `c` of a grid is made of.
pub proof fn lemma_tile(g: Grid, r: int, c: int)
    requires
        g.valid(),
        g.fits(),
        0 <= r < g.rows(),
        0 <= c < g.cols(),
    ensures
        ({
            let t = g.tile(r, c);
            &&& t.src.x == g.col(c).origin && t.src.y == g.row(r).origin
            &&& t.src.w == axis::span_extent(g.width, g.tile)
            &&& t.src.h == axis::span_extent(g.height, g.tile)
            &&& t.src.w >= 1 && t.src.h >= 1
            &&& t.src.x + t.src.w <= g.width
            &&& t.src.y + t.src.h <= g.height
            &&& t.dst.x == t.src.x * g.scale && t.dst.y == t.src.y * g.scale
            &&& t.dst.w == t.src.w * g.scale && t.dst.h == t.src.h * g.scale
            &&& t.dst.w >= 1 && t.dst.h >= 1
            &&& t.dst.x + t.dst.w == (t.src.x + t.src.w) * g.scale
            &&& t.dst.y + t.dst.h == (t.src.y + t.src.h) * g.scale
            &&& t.dst.x + t.dst.w <= g.width * g.scale
            &&& t.dst.y + t.dst.h <= g.height * g.scale
            &&& t.feather.left == g.col(c).lead_overlap * g.scale
            &&& t.feather.right == g.col(c).trail_overlap * g.scale
            &&& t.feather.top == g.row(r).lead_overlap * g.scale
            &&& t.feather.bottom == g.row(r).trail_overlap * g.scale
            &&& t.feather.left <= t.dst.w && t.feather.right <= t.dst.w
            &&& t.feather.top <= t.dst.h && t.feather.bottom <= t.dst.h
        }),
{
    let ov: int = tiling::clamped(g.overlap, g.tile);
    axis::lemma_span(g.width, g.tile, ov, c);
    axis::lemma_span(g.height, g.tile, ov, r);
    lemma_scaled_parts(g.col(c), g.width, g.scale);
    lemma_scaled_parts(g.row(r), g.height, g.scale);
}

/// Scaled parts of a span that lies in an axis stay within the scaled axis.
proof fn lemma_scaled_parts(s: axis::Span, extent: int, scale: int)
    requires
        s.origin + s.extent <= extent,
        s.extent >= 1,
        s.lead_overlap <= s.extent,
        s.trail_overlap <= s.extent,
        scale >= 1,
    ensures
        1 <= s.extent * scale <= extent * scale,
        0 <= s.origin * scale <= extent * scale,
        0 <= s.lead_overlap * scale <= s.extent * scale,
        0 <= s.trail_overlap * scale <= s.extent * scale,
        (s.origin + s.extent) * scale == s.origin * scale + s.extent * scale,
        (s.origin + s.extent) * scale <= extent * scale,
{
    lemma_scale_order(s.origin as int, s.extent as int, scale);
    lemma_scale_order(s.origin + s.extent, extent, scale);
    lemma_scale_order(s.lead_overlap as int, s.extent as int, scale);
    lemma_scale_order(s.trail_overlap as int, s.extent as int, scale);
    lemma_scale_order(1, s.extent as int, scale);
    lemma_scale_order(0, s.origin as int, scale);
    lemma_scale_order(0, s.lead_overlap as int, scale);
    lemma_scale_order(0, s.trail_overlap as int, scale);
    lemma_scale_order(s.extent as int, extent, scale);
    lemma_scale_order(s.origin as int, extent, scale);
}

/// The tile in row `r` and column `c` stands at `r * cols + c`.
pub proof fn lemma_tile_position(g: Grid, r: int, c: int)
    requires
        g.cols() >= 0,
        0 <= r < g.rows(),
        0 <= c < g.cols(),
    ensures
        0 <= r * g.cols() + c < g.tiles().len(),
        g.tiles()[r * g.cols() + c] == g.tile(r, c),
{
    let k: int = r * g.cols() + c;
    assert(0 <= k < g.rows() * g.cols()) by (nonlinear_arith)
        requires
            k == r * g.cols() + c,
            0 <= r < g.rows(),
            0 <= c < g.cols(),
    ;
    assert(g.cols() * r == r * g.cols()) by (nonlinear_arith);
    lemma_fundamental_div_mod_converse(k, g.cols(), r, c);
}

/// Every position in the list of tiles is that of some row and column.
pub proof fn lemma_tile_row_col(g: Grid, k: int)
    requires
        0 <= k < g.tiles().len(),
        g.cols() >= 0,
        g.rows() >= 0,
    ensures
        0 <= k / g.cols() < g.rows(),
        0 <= k % g.cols() < g.cols(),
        k == (k / g.cols()) * g.cols() + k % g.cols(),
        g.tiles()[k] == g.tile(k / g.cols(), k % g.cols()),
{
    assert(g.cols() > 0 && g.rows() * g.cols() > k) by (nonlinear_arith)
        requires
            g.rows() * g.cols() > k,
            k >= 0,
            g.cols() >= 0,
            g.rows() >= 0,
    ;
    lemma_fundamental_div_mod(k, g.cols());
    let q: int = k / g.cols();
    assert(g.cols() * q == q * g.cols()) by (nonlinear_arith);
    assert(0 <= q < g.rows()) by (nonlinear_arith)
        requires
            q * g.cols() <= k,
            k < q * g.cols() + g.cols(),
            k < g.rows() * g.cols(),
            k >= 0,
            g.cols() > 0,
    ;
}

/// The counts of rows and columns are never negative, and neither exceeds the
/// side it divides.
pub proof fn lemma_grid_counts(g: Grid)
    requires
        g.valid(),
    ensures
        0 <= g.cols() <= g.width,
        0 <= g.rows() <= g.height,
        g.width > 0 ==> g.cols() >= 1,
        g.height > 0 ==> g.rows() >= 1,
{
    let ov: int = tiling::clamped(g.overlap, g.tile);
    if g.tile < g.width {
        axis::lemma_origins(g.width, g.tile, ov, 0);
    }
    if g.tile < g.height {
        axis::lemma_origins(g.height, g.tile, ov, 0);
    }
}

/// Tiles stay inside the image: each reads a non-empty part of the source, and
/// lands on the part of the output that the magnification makes of it.
pub proof fn law_tiles_stay_inside(g: Grid, k: int)
    requires
        g.valid(),
        g.fits(),
        0 <= k < g.tiles().len(),
    ensures
        ({
            let t = g.tiles()[k];
            &&& t.src.w >= 1 && t.src.h >= 1
            &&& t.src.x + t.src.w <= g.width
            &&& t.src.y + t.src.h <= g.height
            &&& t.dst.x == t.src.x * g.scale && t.dst.y == t.src.y * g.scale
            &&& t.dst.w == t.src.w * g.scale && t.dst.h == t.src.h * g.scale
            &&& t.dst.x + t.dst.w <= g.width * g.scale
            &&& t.dst.y + t.dst.h <= g.height * g.scale
        }),
{
    lemma_grid_counts(g);
    lemma_tile_row_col(g, k);
    lemma_tile(g, k / g.cols(), k % g.cols());
}

/// A tile covers an output pixel exactly when its row and its column do.
proof fn lemma_tile_covers(g: Grid, r: int, c: int, x: int, y: int)
    requires
        g.valid(),
        g.fits(),
        0 <= r < g.rows(),
        0 <= c < g.cols(),
    ensures
        g.tile(r, c).dst.contains(x, y) <==> {
            &&& g.col_covers(c, x)
            &&& g.row_covers(r, y)
        },
        g.tile(r, c).weight(x - g.tile(r, c).dst.x, y - g.tile(r, c).dst.y).x == weight_in_span(
            g.width,
            g.tile,
            tiling::clamped(g.overlap, g.tile),
            g.scale,
            c,
            x,
        ),
        g.tile(r, c).weight(x - g.tile(r, c).dst.x, y - g.tile(r, c).dst.y).y == weight_in_span(
            g.height,
            g.tile,
            tiling::clamped(g.overlap, g.tile),
            g.scale,
            r,
            y,
        ),
{
    lemma_tile(g, r, c);
    let ov: int = tiling::clamped(g.overlap, g.tile);
    axis::lemma_span(g.width, g.tile, ov, c);
    axis::lemma_span(g.height, g.tile, ov, r);
}

impl Grid {
    /// Whether column `c` covers output position `x`.
    pub open spec fn col_covers(self, c: int, x: int) -> bool {
        covers(self.width, self.tile, tiling::clamped(self.overlap, self.tile), self.scale, c, x)
    }

    /// Whether row `r` covers output position `y`.
    pub open spec fn row_covers(self, r: int, y: int) -> bool {
        covers(self.height, self.tile, tiling::clamped(self.overlap, self.tile), self.scale, r, y)
    }

    /// The numerator of the weight that the tile in row `r` and column `c` gives
    /// the output pixel (`x`, `y`), and 0 where it does not cover it.
    pub open spec fn share(self, r: int, c: int, x: int, y: int) -> int {
        let t = self.tile(r, c);
        if 0 <= r < self.rows() && 0 <= c < self.cols() && t.dst.contains(x, y) {
            t.weight(x - t.dst.x, y - t.dst.y).numer()
        } else {
            0
        }
    }

    /// The tiles that cover (`x`, `y`) are among the four at rows `r`, `r + 1` and
    /// columns `c`, `c + 1`; their weights have one denominator, and add up to it.
    pub open spec fn shares_sum_to_one(self, r: int, c: int, x: int, y: int) -> bool {
        let t = self.tile(r, c);
        let denom = t.weight(x - t.dst.x, y - t.dst.y).denom();
        &&& denom > 0
        &&& forall|i: int, j: int|
            0 <= i < self.rows() && 0 <= j < self.cols() && (#[trigger] self.tile(
                i,
                j,
            )).dst.contains(x, y) ==> {
                &&& i == r || i == r + 1
                &&& j == c || j == c + 1
                &&& self.tile(i, j).weight(
                    x - self.tile(i, j).dst.x,
                    y - self.tile(i, j).dst.y,
                ).denom() == denom
            }
        &&& self.share(r, c, x, y) + self.share(r, c + 1, x, y) + self.share(r + 1, c, x, y)
            + self.share(r + 1, c + 1, x, y) == denom
    }
}

/// Tiles leave no gap: every output pixel lies in some tile, and that tile gives
/// it a weight above zero.
pub proof fn law_every_output_pixel_has_weight(g: Grid, x: int, y: int)
    requires
        g.valid(),
        g.fits(),
        0 <= x < g.width * g.scale,
        0 <= y < g.height * g.scale,
    ensures
        exists|k: int|
            0 <= k < g.tiles().len() && {
                let t = #[trigger] g.tiles()[k];
                &&& t.dst.contains(x, y)
                &&& t.weight(x - t.dst.x, y - t.dst.y).numer() > 0
                &&& t.weight(x - t.dst.x, y - t.dst.y).denom() > 0
            },
{
    let ov: int = tiling::clamped(g.overlap, g.tile);
    law_axis_has_no_gap(g.width, g.tile, ov, g.scale, x);
    law_axis_has_no_gap(g.height, g.tile, ov, g.scale, y);
    let c = choose|c: int| covers(g.width, g.tile, ov, g.scale, c, x);
    let r = choose|r: int| covers(g.height, g.tile, ov, g.scale, r, y);
    lemma_tile_covers(g, r, c, x, y);
    lemma_grid_counts(g);
    lemma_tile_position(g, r, c);
    lemma_tile(g, r, c);
    let t = g.tile(r, c);
    let w = t.weight(x - t.dst.x, y - t.dst.y);
    lemma_weight_is_positive(w.x);
    lemma_weight_is_positive(w.y);
    assert(w.numer() > 0 && w.denom() > 0) by (nonlinear_arith)
        requires
            w.numer() == w.x.numer() * w.y.numer(),
            w.denom() == w.x.denom() * w.y.denom(),
            w.x.numer() > 0,
            w.y.numer() > 0,
            w.x.denom() > 0,
            w.y.denom() > 0,
    ;
    assert(g.tiles()[r * g.cols() + c] == t);
}

/// A weight whose fades have a width is a positive fraction.
proof fn lemma_weight_is_positive(w: AxisWeight)
    requires
        w.lead matches Some(r) ==> r.width > 0,
        w.trail matches Some(r) ==> r.width > 0,
    ensures
        w.numer() > 0,
        w.denom() > 0,
{
    let a: int = match w.lead {
        Some(r) => r.numer(),
        None => 1,
    };
    let b: int = match w.trail {
        Some(r) => r.numer(),
        None => 1,
    };
    let c: int = match w.lead {
        Some(r) => r.denom(),
        None => 1,
    };
    let d: int = match w.trail {
        Some(r) => r.denom(),
        None => 1,
    };
    assert(a * b > 0 && c * d > 0) by (nonlinear_arith)
        requires
            a > 0,
            b > 0,
            c > 0,
            d > 0,
    ;
}

/// Every source pixel is read by some tile.
pub proof fn law_every_source_pixel_is_read(g: Grid, x: int, y: int)
    requires
        g.valid(),
        0 <= x < g.width,
        0 <= y < g.height,
    ensures
        exists|k: int| 0 <= k < g.tiles().len() && (#[trigger] g.tiles()[k]).src.contains(x, y),
{
    let ov: int = tiling::clamped(g.overlap, g.tile);
    assert(g.width * 1 == g.width && g.height * 1 == g.height);
    law_axis_has_no_gap(g.width, g.tile, ov, 1, x);
    law_axis_has_no_gap(g.height, g.tile, ov, 1, y);
    let c = choose|c: int| covers(g.width, g.tile, ov, 1, c, x);
    let r = choose|r: int| covers(g.height, g.tile, ov, 1, r, y);
    axis::lemma_span(g.width, g.tile, ov, c);
    axis::lemma_span(g.height, g.tile, ov, r);
    lemma_grid_counts(g);
    lemma_tile_position(g, r, c);
    assert(g.tiles()[r * g.cols() + c].src.contains(x, y));
}

/// The cross-fade reconstructs: at every output pixel that at most two columns and
/// at most two rows of tiles cover, the weights of the tiles that cover it add up
/// to exactly one.
pub proof fn law_blend_weights_sum_to_one(g: Grid, x: int, y: int)
    requires
        g.valid(),
        g.fits(),
        0 <= x < g.width * g.scale,
        0 <= y < g.height * g.scale,
        at_most_two(g.width, g.tile, tiling::clamped(g.overlap, g.tile), g.scale, x),
        at_most_two(g.height, g.tile, tiling::clamped(g.overlap, g.tile), g.scale, y),
    ensures
        exists|r: int, c: int| g.shares_sum_to_one(r, c, x, y),
{
    let ov: int = tiling::clamped(g.overlap, g.tile);
    law_axis_weights_sum_to_one(g.width, g.tile, ov, g.scale, x);
    law_axis_weights_sum_to_one(g.height, g.tile, ov, g.scale, y);
    let c = choose|c: int| sum_to_one(g.width, g.tile, ov, g.scale, c, x);
    let r = choose|r: int| sum_to_one(g.height, g.tile, ov, g.scale, r, y);
    let xa = weight_in_span(g.width, g.tile, ov, g.scale, c, x);
    let xb = weight_in_span(g.width, g.tile, ov, g.scale, c + 1, x);
    let ya = weight_in_span(g.height, g.tile, ov, g.scale, r, y);
    let yb = weight_in_span(g.height, g.tile, ov, g.scale, r + 1, y);
    let dx: int = xa.denom();
    let dy: int = ya.denom();
    assert(dx * dy > 0) by (nonlinear_arith)
        requires
            dx > 0,
            dy > 0,
    ;
    assert forall|i: int, j: int|
        0 <= i < g.rows() && 0 <= j < g.cols() && (#[trigger] g.tile(i, j)).dst.contains(
            x,
            y,
        ) implies {
        &&& i == r || i == r + 1
        &&& j == c || j == c + 1
        &&& g.tile(i, j).weight(x - g.tile(i, j).dst.x, y - g.tile(i, j).dst.y).denom() == dx * dy
    } by {
        lemma_tile_covers(g, i, j, x, y);
    }
    lemma_tile_covers(g, r, c, x, y);
    if c + 1 < g.cols() {
        lemma_tile_covers(g, r, c + 1, x, y);
    }
    if r + 1 < g.rows() {
        lemma_tile_covers(g, r + 1, c, x, y);
    }
    if c + 1 < g.cols() && r + 1 < g.rows() {
        lemma_tile_covers(g, r + 1, c + 1, x, y);
    }
    let na: int = xa.numer();
    let nb: int = if g.col_covers(c + 1, x) {
        xb.numer()
    } else {
        0
    };
    let ma: int = ya.numer();
    let mb: int = if g.row_covers(r + 1, y) {
        yb.numer()
    } else {
        0
    };
    assert(g.share(r, c, x, y) == na * ma);
    assert(g.share(r, c + 1, x, y) == nb * ma) by {
        assert(0 * ma == 0);
    }
    assert(g.share(r + 1, c, x, y) == na * mb) by {
        assert(na * 0 == 0);
    }
    assert(g.share(r + 1, c + 1, x, y) == nb * mb) by {
        assert(nb * 0 == 0 && 0 * mb == 0);
    }
    assert(na + nb == dx && ma + mb == dy);
    assert(na * ma + nb * ma + na * mb + nb * mb == dx * dy) by (nonlinear_arith)
        requires
            na + nb == dx,
            ma + mb == dy,
    ;
    assert(g.shares_sum_to_one(r, c, x, y));
}

/// Neighbouring tiles agree about the cross-fade between them: it spans exactly
/// the output columns, or rows, that both cover.
pub proof fn law_feathers_agree(g: Grid, r: int, c: int)
    requires
        g.valid(),
        g.fits(),
        0 <= r < g.rows(),
        0 <= c < g.cols(),
    ensures
        c + 1 < g.cols() ==> {
            let a = g.tile(r, c);
            let b = g.tile(r, c + 1);
            &&& a.feather.right == b.feather.left
            &&& a.feather.right == a.dst.x + a.dst.w - b.dst.x
        },
        r + 1 < g.rows() ==> {
            let a = g.tile(r, c);
            let b = g.tile(r + 1, c);
            &&& a.feather.bottom == b.feather.top
            &&& a.feather.bottom == a.dst.y + a.dst.h - b.dst.y
        },
        c == 0 ==> g.tile(r, c).feather.left == 0,
        c + 1 == g.cols() ==> g.tile(r, c).feather.right == 0,
        r == 0 ==> g.tile(r, c).feather.top == 0,
        r + 1 == g.rows() ==> g.tile(r, c).feather.bottom == 0,
{
    let ov: int = tiling::clamped(g.overlap, g.tile);
    lemma_tile(g, r, c);
    assert(0int * g.scale == 0) by (nonlinear_arith);
    if c + 1 < g.cols() {
        lemma_tile(g, r, c + 1);
        law_overlap_is_at_least_requested(g.width, g.tile, ov, c);
        let a = g.col(c);
        let b = g.col(c + 1);
        lemma_scale_order(a.origin as int, a.extent as int, g.scale);
        lemma_scale_order(a.origin + a.extent, b.origin as int, g.scale);
        axis::lemma_span(g.width, g.tile, ov, c);
    }
    if r + 1 < g.rows() {
        lemma_tile(g, r + 1, c);
        law_overlap_is_at_least_requested(g.height, g.tile, ov, r);
        let a = g.row(r);
        let b = g.row(r + 1);
        lemma_scale_order(a.origin as int, a.extent as int, g.scale);
        lemma_scale_order(a.origin + a.extent, b.origin as int, g.scale);
        axis::lemma_span(g.height, g.tile, ov, r);
    }
}

/// An image that fits in one tile is one tile, without a cross-fade; an image
/// without pixels has no tiles.
pub proof fn law_small_images(g: Grid)
    requires
        g.valid(),
        g.fits(),
        g.width <= g.tile,
        g.height <= g.tile,
    ensures
        g.width == 0 || g.height == 0 ==> g.tiles().len() == 0,
        g.width > 0 && g.height > 0 ==> {
            &&& g.tiles().len() == 1
            &&& g.tiles()[0].src == (tiling::Rect {
                x: 0,
                y: 0,
                w: g.width as u32,
                h: g.height as u32,
            })
            &&& g.tiles()[0].dst == (tiling::Rect {
                x: 0,
                y: 0,
                w: (g.width * g.scale) as u32,
                h: (g.height * g.scale) as u32,
            })
            &&& g.tiles()[0].feather == (tiling::Feather { left: 0, top: 0, right: 0, bottom: 0 })
        },
{
    assert(0int * g.scale == 0) by (nonlinear_arith);
    assert(0 * g.cols() == 0 && g.rows() * 0 == 0);
    if g.width > 0 && g.height > 0 {
        lemma_tile_position(g, 0, 0);
        lemma_tile(g, 0, 0);
    }
}

} // verus!
