//! Where tiles stand along a single axis.
//!
//! Positions are spread evenly rather than stepped at a fixed stride with a
//! short final step, so no pair of tiles overlaps far more than the rest. Each
//! overlap is measured from the actual neighbour, not taken from the request,
//! so a cross-fade always spans exactly the shared region.

use vstd::arithmetic::div_mod::*;
use vstd::prelude::*;

verus! {

/// One tile position along a single axis.
#[derive(Debug, Clone, Copy, PartialEq, Eq, Structural)]
pub struct Span {
    pub origin: u32,
    pub extent: u32,
    /// Pixels shared with the previous span.
    pub lead_overlap: u32,
    /// Pixels shared with the next span.
    pub trail_overlap: u32,
}

/// Quotient of two non-negative integers, rounded up.
pub open spec fn ceil_div(a: int, b: int) -> int {
    if a <= 0 {
        0
    } else {
        (a - 1) / b + 1
    }
}

/// How many tiles of side `tile` cover an axis of length `extent` when
/// neighbours are to share at least `overlap` pixels.
pub open spec fn span_count(extent: int, tile: int, overlap: int) -> int {
    if extent <= 0 {
        0
    } else if extent <= tile {
        1
    } else {
        ceil_div(extent - tile, tile - overlap) + 1
    }
}

/// Length of every span on the axis.
pub open spec fn span_extent(extent: int, tile: int) -> int {
    if extent <= tile {
        extent
    } else {
        tile
    }
}

/// First pixel of span `i`: the window travels `extent - tile` pixels in equal
/// steps, rounded down.
pub open spec fn span_origin(extent: int, tile: int, overlap: int, i: int) -> int {
    if extent <= tile {
        0
    } else {
        (extent - tile) * i / (span_count(extent, tile, overlap) - 1)
    }
}

/// Pixels that spans `i` and `i + 1` share.
pub open spec fn shared(extent: int, tile: int, overlap: int, i: int) -> int {
    span_origin(extent, tile, overlap, i) + tile - span_origin(extent, tile, overlap, i + 1)
}

/// Span `i` of the axis, with each neighbour overlap measured.
pub open spec fn span_at(extent: int, tile: int, overlap: int, i: int) -> Span {
    let count = span_count(extent, tile, overlap);
    Span {
        origin: span_origin(extent, tile, overlap, i) as u32,
        extent: span_extent(extent, tile) as u32,
        lead_overlap: if i > 0 {
            shared(extent, tile, overlap, i - 1) as u32
        } else {
            0
        },
        trail_overlap: if i + 1 < count {
            shared(extent, tile, overlap, i) as u32
        } else {
            0
        },
    }
}

/// All spans of the axis, in order.
pub open spec fn spans_of(extent: int, tile: int, overlap: int) -> Seq<Span> {
    Seq::new(
        span_count(extent, tile, overlap) as nat,
        |i: int| span_at(extent, tile, overlap, i),
    )
}

/// Rounding `a / b` up gives the least `q` with `a <= q * b`.
proof fn lemma_ceil_div(a: int, b: int)
    requires
        a >= 1,
        b >= 1,
    ensures
        1 <= ceil_div(a, b) <= a,
        a <= ceil_div(a, b) * b,
        (ceil_div(a, b) - 1) * b < a,
{
    let q: int = (a - 1) / b;
    lemma_fundamental_div_mod(a - 1, b);
    assert(b * q == q * b) by (nonlinear_arith);
    assert((q + 1) * b == q * b + b) by (nonlinear_arith);
    assert(q >= 0 && q <= a - 1) by (nonlinear_arith)
        requires
            q * b <= a - 1,
            a - 1 < q * b + b,
            b >= 1,
            a >= 1,
    ;
}

/// Multiplying by `n` brackets a quotient by `n`.
proof fn lemma_quotient_bounds(a: int, n: int)
    requires
        n >= 1,
    ensures
        (a / n) * n <= a < (a / n) * n + n,
{
    lemma_fundamental_div_mod(a, n);
    assert(n * (a / n) == (a / n) * n) by (nonlinear_arith);
}

/// The origins on an axis longer than one tile start at 0, end where the last
/// tile touches the far edge, advance by at least one pixel each time, and never
/// by more than `tile - overlap`.
pub proof fn lemma_origins(extent: int, tile: int, overlap: int, i: int)
    requires
        0 <= overlap < tile < extent,
        0 <= i < span_count(extent, tile, overlap),
    ensures
        2 <= span_count(extent, tile, overlap) <= extent - tile + 1,
        span_origin(extent, tile, overlap, 0) == 0,
        span_origin(
            extent,
            tile,
            overlap,
            span_count(extent, tile, overlap) - 1,
        ) == extent - tile,
        0 <= span_origin(extent, tile, overlap, i) <= extent - tile,
        i + 1 < span_count(extent, tile, overlap) ==> {
            &&& span_origin(extent, tile, overlap, i) < span_origin(extent, tile, overlap, i + 1)
            &&& span_origin(extent, tile, overlap, i + 1) <= span_origin(extent, tile, overlap, i)
                + tile - overlap
        },
{
    let travel: int = extent - tile;
    let step: int = tile - overlap;
    lemma_ceil_div(travel, step);
    let n: int = span_count(extent, tile, overlap) - 1;
    assert(n == ceil_div(travel, step));
    lemma_fundamental_div_mod_converse(travel * 0, n, 0, 0);
    assert(travel * n == n * travel) by (nonlinear_arith);
    lemma_fundamental_div_mod_converse(travel * n, n, travel, 0);
    let lo: int = travel * i / n;
    lemma_quotient_bounds(travel * i, n);
    assert(0 <= lo) by (nonlinear_arith)
        requires
            travel * i < lo * n + n,
            travel >= 1,
            i >= 0,
            n >= 1,
    ;
    assert(lo <= travel) by (nonlinear_arith)
        requires
            lo * n <= travel * i,
            i <= n,
            n >= 1,
            travel >= 1,
    ;
    if i + 1 < span_count(extent, tile, overlap) {
        let hi: int = travel * (i + 1) / n;
        lemma_quotient_bounds(travel * (i + 1), n);
        assert(travel * (i + 1) == travel * i + travel) by (nonlinear_arith);
        assert(lo < hi) by (nonlinear_arith)
            requires
                lo * n <= travel * i,
                travel * i + travel < hi * n + n,
                travel >= n,
                n >= 1,
        ;
        assert(hi <= lo + step) by (nonlinear_arith)
            requires
                travel * i < lo * n + n,
                hi * n <= travel * i + travel,
                travel <= n * step,
                n >= 1,
        ;
    }
}

/// No fewer spans would do: one less leaves a step longer than `tile - overlap`.
pub proof fn lemma_count(extent: int, tile: int, overlap: int)
    requires
        0 <= overlap < tile < extent,
    ensures
        span_count(extent, tile, overlap) >= 2,
        (span_count(extent, tile, overlap) - 2) * (tile - overlap) < extent - tile,
        extent - tile <= (span_count(extent, tile, overlap) - 1) * (tile - overlap),
{
    lemma_ceil_div(extent - tile, tile - overlap);
}

/// The part of an axis that `tile`-sized windows with `overlap` can be laid on.
pub open spec fn axis_ok(extent: int, tile: int, overlap: int) -> bool {
    extent <= tile || 0 <= overlap < tile
}

/// Facts about any span that stands on an axis.
pub proof fn lemma_span(extent: int, tile: int, overlap: int, i: int)
    requires
        0 <= extent,
        0 <= tile,
        0 <= overlap,
        axis_ok(extent, tile, overlap),
        0 <= i < span_count(extent, tile, overlap),
    ensures
        1 <= span_extent(extent, tile) <= extent,
        0 <= span_origin(extent, tile, overlap, i),
        span_origin(extent, tile, overlap, i) + span_extent(extent, tile) <= extent,
        i == 0 ==> span_origin(extent, tile, overlap, i) == 0,
        i + 1 == span_count(extent, tile, overlap) ==> span_origin(extent, tile, overlap, i)
            + span_extent(extent, tile) == extent,
        i + 1 < span_count(extent, tile, overlap) ==> {
            &&& tile < extent
            &&& overlap < tile
            &&& span_origin(extent, tile, overlap, i) < span_origin(extent, tile, overlap, i + 1)
            &&& overlap <= shared(extent, tile, overlap, i) < tile
        },
        i > 0 ==> {
            &&& tile < extent
            &&& overlap < tile
            &&& overlap <= shared(extent, tile, overlap, i - 1) < tile
        },
{
    if tile < extent {
        lemma_origins(extent, tile, overlap, i);
        if i > 0 {
            lemma_origins(extent, tile, overlap, i - 1);
        }
    }
}

/// How many tile positions an axis needs.
pub fn count_spans(extent: u32, tile: u32, overlap: u32) -> (n: u32)
    requires
        axis_ok(extent as int, tile as int, overlap as int),
    ensures
        n == span_count(extent as int, tile as int, overlap as int),
{
    if extent == 0 {
        0
    } else if extent <= tile {
        1
    } else {
        proof {
            lemma_origins(extent as int, tile as int, overlap as int, 0);
        }
        (extent - tile - 1) / (tile - overlap) + 1 + 1
    }
}

/// Tile positions along one axis, with each neighbour overlap measured.
pub fn axis_spans(extent: u32, tile: u32, overlap: u32) -> (spans: Vec<Span>)
    requires
        axis_ok(extent as int, tile as int, overlap as int),
    ensures
        spans@ == spans_of(extent as int, tile as int, overlap as int),
{
    let ghost e: int = extent as int;
    let ghost t: int = tile as int;
    let ghost o: int = overlap as int;
    let mut spans: Vec<Span> = Vec::new();
    if extent == 0 {
        assert(spans@ =~= spans_of(e, t, o));
        return spans;
    }
    if extent <= tile {
        spans.push(Span { origin: 0, extent, lead_overlap: 0, trail_overlap: 0 });
        assert(spans@ =~= spans_of(e, t, o));
        return spans;
    }
    // Distance the tile window must travel, and how many positions it needs.

    let step: u32 = tile - overlap;
    let travel: u32 = extent - tile;
    proof {
        lemma_ceil_div(travel as int, step as int);
        lemma_origins(e, t, o, 0);
    }
    let count: u32 = (travel - 1) / step + 1 + 1;

    let mut origins: Vec<u32> = Vec::new();
    let mut i: u32 = 0;
    while i < count
        invariant
            0 <= o < t < e,
            extent == e,
            tile == t,
            overlap == o,
            travel == e - t,
            count == span_count(e, t, o),
            2 <= count,
            i <= count,
            origins@.len() == i,
            forall|k: int| 0 <= k < i ==> #[trigger] origins@[k] == span_origin(e, t, o, k),
        decreases count - i,
    {
        proof {
            lemma_origins(e, t, o, i as int);
            assert(travel as u64 * i as u64 <= u64::MAX) by (nonlinear_arith)
                requires
                    travel <= u32::MAX,
                    i <= u32::MAX,
            ;
        }
        let origin: u32 = (travel as u64 * i as u64 / (count as u64 - 1)) as u32;
        origins.push(origin);
        i = i + 1;
    }

    let n: usize = origins.len();
    let mut j: usize = 0;
    while j < n
        invariant
            0 <= o < t < e,
            extent == e,
            tile == t,
            overlap == o,
            n == origins@.len(),
            n == span_count(e, t, o),
            j <= n,
            forall|k: int| 0 <= k < n ==> #[trigger] origins@[k] == span_origin(e, t, o, k),
            spans@ == Seq::new(j as nat, |k: int| span_at(e, t, o, k)),
        decreases n - j,
    {
        let origin: u32 = origins[j];
        proof {
            lemma_span(e, t, o, j as int);
            if j > 0 {
                lemma_span(e, t, o, j - 1);
            }
            if j + 1 < n {
                lemma_span(e, t, o, j + 1);
            }
        }
        let lead_overlap: u32 = if j > 0 {
            origins[j - 1] + tile - origin
        } else {
            0
        };
        let trail_overlap: u32 = if j + 1 < n {
            origin + tile - origins[j + 1]
        } else {
            0
        };
        spans.push(Span { origin, extent: tile, lead_overlap, trail_overlap });
        assert(spans@ =~= Seq::new((j + 1) as nat, |k: int| span_at(e, t, o, k)));
        j = j + 1;
    }
    assert(spans@ =~= spans_of(e, t, o));
    spans
}

} // verus!
