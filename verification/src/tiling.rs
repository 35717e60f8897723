//! Tile planning and blend weights.
//!
//! Large scans cannot be pushed through a neural upscaler in one piece, so the
//! source is cut into overlapping tiles, each upscaled independently, then
//! recombined. Independent upscales disagree slightly near tile edges, which
//! shows up as a visible grid unless the shared region is cross-faded.
//!
//! Weights are kept exact: a [`Weight`] is a product of ratios of integers. It is
//! turned into a number only where pixels are summed.

use vstd::arithmetic::div_mod::*;
use vstd::prelude::*;

use crate::axis;
use crate::axis::axis_spans;
use crate::axis::Span;

verus! {

/// A rectangle in pixel coordinates.
#[derive(Debug, Clone, Copy, PartialEq, Eq, Structural)]
pub struct Rect {
    pub x: u32,
    pub y: u32,
    pub w: u32,
    pub h: u32,
}

impl Rect {
    /// Whether the pixel at (`x`, `y`) lies in the rectangle.
    pub open spec fn contains(self, x: int, y: int) -> bool {
        self.x <= x < self.x + self.w && self.y <= y < self.y + self.h
    }

    pub fn right(&self) -> (r: u32)
        requires
            self.x + self.w <= u32::MAX,
        ensures
            r == self.x + self.w,
    {
        self.x + self.w
    }

    pub fn bottom(&self) -> (r: u32)
        requires
            self.y + self.h <= u32::MAX,
        ensures
            r == self.y + self.h,
    {
        self.y + self.h
    }
}

/// Per-side cross-fade widths, in output pixels.
///
/// A side is feathered only where a neighbouring tile actually covers it. The
/// outer border of the image stays at full weight, otherwise the image would
/// fade out at its own edges.
#[derive(Debug, Clone, Copy, PartialEq, Eq, Structural)]
pub struct Feather {
    pub left: u32,
    pub top: u32,
    pub right: u32,
    pub bottom: u32,
}

impl Default for Feather {
    fn default() -> (f: Feather)
        ensures
            f == (Feather { left: 0, top: 0, right: 0, bottom: 0 }),
    {
        Feather { left: 0, top: 0, right: 0, bottom: 0 }
    }
}

/// A position on a linear fade: pixel `step` of `width`, counted from the faint
/// end. Sampled at the pixel centre it stands for `(step + 1/2) / width`.
#[derive(Debug, Clone, Copy, PartialEq, Eq, Structural)]
pub struct Ramp {
    pub step: u32,
    pub width: u32,
}

/// The weight of a pixel along one axis: the product of the fades it lies on,
/// and 1 where it lies on none.
#[derive(Debug, Clone, Copy, PartialEq, Eq, Structural)]
pub struct AxisWeight {
    pub lead: Option<Ramp>,
    pub trail: Option<Ramp>,
}

/// The blend weight of a pixel: the product of its two axis weights.
#[derive(Debug, Clone, Copy, PartialEq, Eq, Structural)]
pub struct Weight {
    pub x: AxisWeight,
    pub y: AxisWeight,
}

impl Ramp {
    pub open spec fn numer(self) -> int {
        2 * self.step + 1
    }

    pub open spec fn denom(self) -> int {
        2 * self.width
    }
}

impl AxisWeight {
    /// Numerator of the weight as a fraction.
    pub open spec fn numer(self) -> int {
        (match self.lead {
            Some(r) => r.numer(),
            None => 1,
        }) * (match self.trail {
            Some(r) => r.numer(),
            None => 1,
        })
    }

    /// Denominator of the weight as a fraction.
    pub open spec fn denom(self) -> int {
        (match self.lead {
            Some(r) => r.denom(),
            None => 1,
        }) * (match self.trail {
            Some(r) => r.denom(),
            None => 1,
        })
    }
}

impl Weight {
    /// Numerator of the weight as a fraction.
    pub open spec fn numer(self) -> int {
        self.x.numer() * self.y.numer()
    }

    /// Denominator of the weight as a fraction.
    pub open spec fn denom(self) -> int {
        self.x.denom() * self.y.denom()
    }
}

/// The weight at `pos` on an axis of length `extent` that fades in over its
/// first `lead` pixels and out over its last `trail`.
pub open spec fn axis_weight_at(pos: int, extent: int, lead: int, trail: int) -> AxisWeight {
    AxisWeight {
        lead: if pos < lead {
            Some(Ramp { step: pos as u32, width: lead as u32 })
        } else {
            None
        },
        trail: if trail > 0 && pos >= extent - trail {
            Some(Ramp { step: (extent - 1 - pos) as u32, width: trail as u32 })
        } else {
            None
        },
    }
}

/// Weight along one axis. Sampling at pixel centres is what makes a pair of
/// opposing ramps sum to 1.
fn axis_weight(pos: u32, extent: u32, lead: u32, trail: u32) -> (w: AxisWeight)
    requires
        trail > 0 ==> pos < extent,
    ensures
        w == axis_weight_at(pos as int, extent as int, lead as int, trail as int),
{
    let lead_ramp = if lead > 0 && pos < lead {
        Some(Ramp { step: pos, width: lead })
    } else {
        None
    };
    let trail_ramp = if trail > 0 && pos >= extent.saturating_sub(trail) {
        Some(Ramp { step: extent - pos - 1, width: trail })
    } else {
        None
    };
    AxisWeight { lead: lead_ramp, trail: trail_ramp }
}

/// One unit of work: read `src`, upscale it, blend into `dst`.
#[derive(Debug, Clone, Copy, PartialEq, Eq, Structural)]
pub struct Tile {
    pub src: Rect,
    pub dst: Rect,
    pub feather: Feather,
}

impl Tile {
    /// The blend weight of the pixel at (`u`, `v`) relative to `dst`.
    pub open spec fn weight(self, u: int, v: int) -> Weight {
        Weight {
            x: axis_weight_at(
                u,
                self.dst.w as int,
                self.feather.left as int,
                self.feather.right as int,
            ),
            y: axis_weight_at(
                v,
                self.dst.h as int,
                self.feather.top as int,
                self.feather.bottom as int,
            ),
        }
    }

    /// Blend weight for a pixel at (`u`, `v`) relative to this tile's `dst`.
    pub fn weight_at(&self, u: u32, v: u32) -> (w: Weight)
        requires
            self.feather.right > 0 ==> u < self.dst.w,
            self.feather.bottom > 0 ==> v < self.dst.h,
        ensures
            w == self.weight(u as int, v as int),
    {
        Weight {
            x: axis_weight(u, self.dst.w, self.feather.left, self.feather.right),
            y: axis_weight(v, self.dst.h, self.feather.top, self.feather.bottom),
        }
    }
}

/// The overlap that is actually asked for: always less than a tile, so the grid
/// advances.
pub open spec fn clamped(overlap: int, tile: int) -> int {
    if overlap < tile {
        overlap
    } else {
        tile - 1
    }
}

/// The tile that `row` and `col` meet in.
pub open spec fn tile_of(col: Span, row: Span, scale: int) -> Tile {
    Tile {
        src: Rect { x: col.origin, y: row.origin, w: col.extent, h: row.extent },
        dst: Rect {
            x: (col.origin * scale) as u32,
            y: (row.origin * scale) as u32,
            w: (col.extent * scale) as u32,
            h: (row.extent * scale) as u32,
        },
        feather: Feather {
            left: (col.lead_overlap * scale) as u32,
            top: (row.lead_overlap * scale) as u32,
            right: (col.trail_overlap * scale) as u32,
            bottom: (row.trail_overlap * scale) as u32,
        },
    }
}

/// The parameters of a tiling.
pub struct Grid {
    pub width: int,
    pub height: int,
    pub scale: int,
    pub tile: int,
    pub overlap: int,
}

impl Grid {
    /// Number of tile columns.
    pub open spec fn cols(self) -> int {
        axis::span_count(self.width, self.tile, clamped(self.overlap, self.tile))
    }

    /// Number of tile rows.
    pub open spec fn rows(self) -> int {
        axis::span_count(self.height, self.tile, clamped(self.overlap, self.tile))
    }

    pub open spec fn col(self, c: int) -> Span {
        axis::span_at(self.width, self.tile, clamped(self.overlap, self.tile), c)
    }

    pub open spec fn row(self, r: int) -> Span {
        axis::span_at(self.height, self.tile, clamped(self.overlap, self.tile), r)
    }

    /// The tile in row `r` and column `c`.
    pub open spec fn tile(self, r: int, c: int) -> Tile {
        tile_of(self.col(c), self.row(r), self.scale)
    }

    /// Every tile, row by row.
    pub open spec fn tiles(self) -> Seq<Tile> {
        Seq::new(
            (self.rows() * self.cols()) as nat,
            |k: int| self.tile(k / self.cols(), k % self.cols()),
        )
    }

    /// The values the parameters can take.
    pub open spec fn valid(self) -> bool {
        &&& 0 <= self.width <= u32::MAX
        &&& 0 <= self.height <= u32::MAX
        &&& 1 <= self.scale <= u32::MAX
        &&& 1 <= self.tile <= u32::MAX
        &&& 0 <= self.overlap <= u32::MAX
    }

    /// Whether every output coordinate can be held.
    pub open spec fn fits(self) -> bool {
        &&& self.width * self.scale <= u32::MAX
        &&& self.height * self.scale <= u32::MAX
    }
}

/// Whether the positions and sizes of tiles on an axis can be held once scaled.
pub open spec fn axis_fits(extent: int, scale: int, tile: int) -> bool {
    &&& axis::span_extent(extent, tile) * scale <= u32::MAX
    &&& (extent - axis::span_extent(extent, tile)) * scale <= u32::MAX
}

/// How the source image is cut up, and where each piece lands in the output.
#[derive(Debug, Clone)]
pub struct TilePlan {
    pub src_width: u32,
    pub src_height: u32,
    pub scale: u32,
    pub tiles: Vec<Tile>,
}

/// Scaling the parts of a span keeps within the scaled parts of its axis.
proof fn lemma_scaled_span(extent: int, tile: int, overlap: int, scale: int, i: int)
    requires
        0 <= extent <= u32::MAX,
        1 <= tile <= u32::MAX,
        0 <= overlap < tile,
        1 <= scale,
        axis_fits(extent, scale, tile),
        0 <= i < axis::span_count(extent, tile, overlap),
    ensures
        ({
            let s = axis::span_at(extent, tile, overlap, i);
            &&& s.origin == axis::span_origin(extent, tile, overlap, i)
            &&& s.extent == axis::span_extent(extent, tile)
            &&& s.origin + s.extent <= extent
            &&& s.lead_overlap <= s.extent
            &&& s.trail_overlap <= s.extent
            &&& i > 0 ==> s.lead_overlap == axis::shared(extent, tile, overlap, i - 1)
            &&& i + 1 < axis::span_count(extent, tile, overlap) ==> s.trail_overlap == axis::shared(
                extent,
                tile,
                overlap,
                i,
            )
            &&& 0 <= s.origin * scale <= u32::MAX
            &&& 0 <= s.extent * scale <= u32::MAX
            &&& 0 <= s.lead_overlap * scale <= u32::MAX
            &&& 0 <= s.trail_overlap * scale <= u32::MAX
        }),
{
    axis::lemma_span(extent, tile, overlap, i);
    let s = axis::span_at(extent, tile, overlap, i);
    let e: int = axis::span_extent(extent, tile);
    assert(0 <= s.origin * scale <= (extent - e) * scale) by (nonlinear_arith)
        requires
            0 <= s.origin <= extent - e,
            scale >= 1,
    ;
    assert(0 <= s.extent * scale) by (nonlinear_arith)
        requires
            scale >= 1,
    ;
    assert(0 <= s.lead_overlap * scale <= e * scale) by (nonlinear_arith)
        requires
            s.lead_overlap <= e,
            scale >= 1,
    ;
    assert(0 <= s.trail_overlap * scale <= e * scale) by (nonlinear_arith)
        requires
            s.trail_overlap <= e,
            scale >= 1,
    ;
}

impl TilePlan {
    pub fn out_width(&self) -> (w: u32)
        requires
            self.src_width * self.scale <= u32::MAX,
        ensures
            w == self.src_width * self.scale,
    {
        self.src_width * self.scale
    }

    pub fn out_height(&self) -> (h: u32)
        requires
            self.src_height * self.scale <= u32::MAX,
        ensures
            h == self.src_height * self.scale,
    {
        self.src_height * self.scale
    }

    /// Plan a tiling of a `width` x `height` source.
    ///
    /// `tile` and `overlap` are in source pixels. `overlap` is clamped below
    /// `tile` so the grid always advances; a zero-size image yields no tiles.
    pub fn new(width: u32, height: u32, scale: u32, tile: u32, overlap: u32) -> (plan: Self)
        requires
            scale >= 1,
            tile >= 1,
            width > 0 && height > 0 ==> {
                &&& axis_fits(width as int, scale as int, tile as int)
                &&& axis_fits(height as int, scale as int, tile as int)
            },
        ensures
            plan.src_width == width,
            plan.src_height == height,
            plan.scale == scale,
            plan.tiles@ == (Grid {
                width: width as int,
                height: height as int,
                scale: scale as int,
                tile: tile as int,
                overlap: overlap as int,
            }).tiles(),
    {
        let ghost g = Grid {
            width: width as int,
            height: height as int,
            scale: scale as int,
            tile: tile as int,
            overlap: overlap as int,
        };
        let overlap: u32 = if overlap < tile {
            overlap
        } else {
            tile - 1
        };
        let cols = axis_spans(width, tile, overlap);
        let rows = axis_spans(height, tile, overlap);
        let ghost ov: int = overlap as int;
        assert(cols@.len() == g.cols() && rows@.len() == g.rows());

        let mut tiles: Vec<Tile> = Vec::new();
        let mut r: usize = 0;
        assert(tiles@ =~= Seq::new(
            (0 * g.cols() + 0) as nat,
            |k: int| g.tile(k / g.cols(), k % g.cols()),
        ));
        while r < rows.len()
            invariant
                g.valid(),
                g.width == width,
                g.height == height,
                g.scale == scale,
                g.tile == tile,
                ov == overlap,
                ov == clamped(g.overlap, g.tile),
                cols@ == axis::spans_of(g.width, g.tile, ov),
                rows@ == axis::spans_of(g.height, g.tile, ov),
                cols@.len() == g.cols(),
                rows@.len() == g.rows(),
                width > 0 && height > 0 ==> {
                    &&& axis_fits(g.width, g.scale, g.tile)
                    &&& axis_fits(g.height, g.scale, g.tile)
                },
                r <= rows@.len(),
                tiles@ == Seq::new(
                    (r * g.cols()) as nat,
                    |k: int| g.tile(k / g.cols(), k % g.cols()),
                ),
            decreases rows@.len() - r,
        {
            let row = rows[r];
            let mut c: usize = 0;
            while c < cols.len()
                invariant
                    g.valid(),
                    g.width == width,
                    g.height == height,
                    g.scale == scale,
                    g.tile == tile,
                    ov == overlap,
                    ov == clamped(g.overlap, g.tile),
                    cols@ == axis::spans_of(g.width, g.tile, ov),
                    rows@ == axis::spans_of(g.height, g.tile, ov),
                    cols@.len() == g.cols(),
                    rows@.len() == g.rows(),
                    width > 0 && height > 0 ==> {
                        &&& axis_fits(g.width, g.scale, g.tile)
                        &&& axis_fits(g.height, g.scale, g.tile)
                    },
                    r < rows@.len(),
                    row == rows@[r as int],
                    c <= cols@.len(),
                    tiles@ == Seq::new(
                        (r * g.cols() + c) as nat,
                        |k: int| g.tile(k / g.cols(), k % g.cols()),
                    ),
                decreases cols@.len() - c,
            {
                let col = cols[c];
                let ghost k: int = r * g.cols() + c;
                proof {
                    lemma_scaled_span(g.width, g.tile, ov, g.scale, c as int);
                    lemma_scaled_span(g.height, g.tile, ov, g.scale, r as int);
                    assert(g.cols() * r == r * g.cols()) by (nonlinear_arith);
                    lemma_fundamental_div_mod_converse(k, g.cols(), r as int, c as int);
                    assert(r * g.cols() >= 0) by (nonlinear_arith)
                        requires
                            g.cols() >= 0,
                    ;
                }
                tiles.push(
                    Tile {
                        src: Rect { x: col.origin, y: row.origin, w: col.extent, h: row.extent },
                        dst: Rect {
                            x: col.origin * scale,
                            y: row.origin * scale,
                            w: col.extent * scale,
                            h: row.extent * scale,
                        },
                        feather: Feather {
                            left: col.lead_overlap * scale,
                            top: row.lead_overlap * scale,
                            right: col.trail_overlap * scale,
                            bottom: row.trail_overlap * scale,
                        },
                    },
                );
                assert(tiles@[k] == g.tile(r as int, c as int));
                assert(tiles@ =~= Seq::new(
                    (k + 1) as nat,
                    |k: int| g.tile(k / g.cols(), k % g.cols()),
                ));
                c = c + 1;
            }
            assert((r + 1) * g.cols() == r * g.cols() + g.cols()) by (nonlinear_arith);
            r = r + 1;
        }
        TilePlan { src_width: width, src_height: height, scale, tiles }
    }
}

/// What [`law_tiles_are_laid_out`] says along one axis.
proof fn lemma_axis_is_laid_out(extent: int, tile: int, overlap: int, scale: int, i: int)
    requires
        0 <= extent <= u32::MAX,
        1 <= tile <= u32::MAX,
        0 <= overlap <= u32::MAX,
        1 <= scale,
        axis_fits(extent, scale, tile),
        0 <= i < axis::span_count(extent, tile, clamped(overlap, tile)),
    ensures
        ({
            let n = axis::span_count(extent, tile, clamped(overlap, tile));
            let s = axis::span_at(extent, tile, clamped(overlap, tile), i);
            let next = axis::span_at(extent, tile, clamped(overlap, tile), i + 1);
            let step = if overlap < tile {
                tile - overlap
            } else {
                1
            };
            &&& s.origin + s.extent <= extent
            &&& s.extent == (if extent <= tile {
                extent
            } else {
                tile
            })
            &&& extent <= tile ==> n == 1
            &&& extent > tile ==> {
                &&& n >= 2
                &&& (n - 2) * step < extent - tile <= (n - 1) * step
                &&& s.origin == (extent - tile) * i / (n - 1)
            }
            &&& i == 0 ==> s.origin == 0 && s.lead_overlap == 0
            &&& i + 1 == n ==> s.origin + s.extent == extent && s.trail_overlap == 0
            &&& i + 1 < n ==> {
                &&& s.origin < next.origin
                &&& next.origin + overlap <= s.origin + s.extent || (overlap >= tile && next.origin
                    == s.origin + 1)
                &&& s.trail_overlap == s.origin + s.extent - next.origin
                &&& next.lead_overlap == s.origin + s.extent - next.origin
            }
            &&& 0 <= s.origin * scale <= u32::MAX
            &&& 0 <= s.extent * scale <= u32::MAX
            &&& 0 <= s.lead_overlap * scale <= u32::MAX
            &&& 0 <= s.trail_overlap * scale <= u32::MAX
        }),
{
    let ov: int = clamped(overlap, tile);
    let n: int = axis::span_count(extent, tile, ov);
    lemma_scaled_span(extent, tile, ov, scale, i);
    axis::lemma_span(extent, tile, ov, i);
    if i + 1 < n {
        lemma_scaled_span(extent, tile, ov, scale, i + 1);
        axis::lemma_span(extent, tile, ov, i + 1);
    }
    if extent > tile {
        axis::lemma_origins(extent, tile, ov, i);
        axis::lemma_count(extent, tile, ov);
    }
}

/// The overlap that is asked for is honoured: neighbouring tiles share at least that
/// many source pixels, or all but one where more is asked for than a tile has; they are
/// cross-faded over just the output pixels that they share, and the outer border is not
/// faded at all. No more tiles are laid than that takes, they are spread evenly from
/// border to border, row by row, and each lands where the magnification puts it.
pub proof fn law_tiles_are_laid_out(
    width: u32,
    height: u32,
    scale: u32,
    tile: u32,
    overlap: u32,
    r: int,
    c: int,
)
    requires
        scale >= 1,
        tile >= 1,
        width <= tile ==> width * scale <= u32::MAX,
        width > tile ==> tile * scale <= u32::MAX && (width - tile) * scale <= u32::MAX,
        height <= tile ==> height * scale <= u32::MAX,
        height > tile ==> tile * scale <= u32::MAX && (height - tile) * scale <= u32::MAX,
        ({
            let g = Grid {
                width: width as int,
                height: height as int,
                scale: scale as int,
                tile: tile as int,
                overlap: overlap as int,
            };
            0 <= r < g.rows() && 0 <= c < g.cols()
        }),
    ensures
        ({
            let g = Grid {
                width: width as int,
                height: height as int,
                scale: scale as int,
                tile: tile as int,
                overlap: overlap as int,
            };
            let (cols, rows) = (g.cols(), g.rows());
            let k = r * cols + c;
            let t = g.tiles()[k];
            let step = if overlap < tile {
                tile - overlap
            } else {
                1
            };
            &&& g.tiles().len() == rows * cols
            &&& 0 <= k < g.tiles().len()
            // Every tile is as large as a tile gets, and stays inside.
            &&& t.src.w == (if width <= tile {
                width
            } else {
                tile
            })
            &&& t.src.h == (if height <= tile {
                height
            } else {
                tile
            })
            &&& t.src.x + t.src.w <= width
            &&& t.src.y + t.src.h <= height
            // It lands where it is magnified to.
            &&& t.dst.x == t.src.x * scale
            &&& t.dst.y == t.src.y * scale
            &&& t.dst.w == t.src.w * scale
            &&& t.dst.h == t.src.h * scale
            // As few as will do, spread evenly.
            &&& width <= tile ==> cols == 1
            &&& width > tile ==> {
                &&& cols >= 2
                &&& (cols - 2) * step < width - tile <= (cols - 1) * step
                &&& t.src.x == (width - tile) * c / (cols - 1)
            }
            &&& height <= tile ==> rows == 1
            &&& height > tile ==> {
                &&& rows >= 2
                &&& (rows - 2) * step < height - tile <= (rows - 1) * step
                &&& t.src.y == (height - tile) * r / (rows - 1)
            }
            // The border.
            &&& c == 0 ==> t.src.x == 0 && t.feather.left == 0
            &&& r == 0 ==> t.src.y == 0 && t.feather.top == 0
            &&& c + 1 == cols ==> t.src.x + t.src.w == width && t.feather.right == 0
            &&& r + 1 == rows ==> t.src.y + t.src.h == height && t.feather.bottom == 0
            // The neighbours.
            &&& c + 1 < cols ==> {
                let right = g.tiles()[k + 1];
                &&& k + 1 < g.tiles().len()
                &&& right.src.y == t.src.y
                &&& t.src.x < right.src.x
                &&& overlap < tile ==> t.src.x + t.src.w - right.src.x >= overlap
                &&& overlap >= tile ==> t.src.x + t.src.w - right.src.x == tile - 1
                &&& t.feather.right == (t.src.x + t.src.w - right.src.x) * scale
                &&& right.feather.left == (t.src.x + t.src.w - right.src.x) * scale
                &&& overlap < tile ==> t.feather.right >= overlap * scale
            }
            &&& r + 1 < rows ==> {
                let below = g.tiles()[k + cols];
                &&& k + cols < g.tiles().len()
                &&& below.src.x == t.src.x
                &&& t.src.y < below.src.y
                &&& overlap < tile ==> t.src.y + t.src.h - below.src.y >= overlap
                &&& overlap >= tile ==> t.src.y + t.src.h - below.src.y == tile - 1
                &&& t.feather.bottom == (t.src.y + t.src.h - below.src.y) * scale
                &&& below.feather.top == (t.src.y + t.src.h - below.src.y) * scale
                &&& overlap < tile ==> t.feather.bottom >= overlap * scale
            }
        }),
{
    let g = Grid {
        width: width as int,
        height: height as int,
        scale: scale as int,
        tile: tile as int,
        overlap: overlap as int,
    };
    let (cols, rows) = (g.cols(), g.rows());
    lemma_nth_tile(g, r, c);
    assert(0int * scale == 0) by (nonlinear_arith);
    lemma_axis_is_laid_out(g.width, g.tile, g.overlap, g.scale, c);
    lemma_axis_is_laid_out(g.height, g.tile, g.overlap, g.scale, r);
    let t = g.tile(r, c);
    if c + 1 < cols {
        lemma_nth_tile(g, r, c + 1);
        lemma_axis_is_laid_out(g.width, g.tile, g.overlap, g.scale, c + 1);
        let shared: int = t.src.x + t.src.w - g.tile(r, c + 1).src.x;
        assert(overlap < tile ==> shared * scale >= overlap * scale) by (nonlinear_arith)
            requires
                overlap < tile ==> shared >= overlap,
                scale >= 1,
        ;
    }
    if r + 1 < rows {
        assert((r + 1) * cols == r * cols + cols) by (nonlinear_arith);
        lemma_nth_tile(g, r + 1, c);
        lemma_axis_is_laid_out(g.height, g.tile, g.overlap, g.scale, r + 1);
        let shared: int = t.src.y + t.src.h - g.tile(r + 1, c).src.y;
        assert(overlap < tile ==> shared * scale >= overlap * scale) by (nonlinear_arith)
            requires
                overlap < tile ==> shared >= overlap,
                scale >= 1,
        ;
    }
}

/// Where the tile in row `r` and column `c` stands.
proof fn lemma_nth_tile(g: Grid, r: int, c: int)
    requires
        0 <= r < g.rows(),
        0 <= c < g.cols(),
    ensures
        0 <= r * g.cols() + c < g.tiles().len(),
        g.tiles().len() == g.rows() * g.cols(),
        g.tiles()[r * g.cols() + c] == g.tile(r, c),
{
    let k: int = r * g.cols() + c;
    assert(0 <= k < g.rows() * g.cols()) by (nonlinear_arith)
        requires
            k == r * g.cols() + c,
            0 <= r < g.rows(),
            0 <= c < g.cols(),
    ;
    assert(g.cols() * r == r * g.cols()) by (nonlinear_arith);
    lemma_fundamental_div_mod_converse(k, g.cols(), r, c);
}

/// There are tiles in every row and column exactly where there are pixels.
pub proof fn law_every_image_is_tiled(
    width: u32,
    height: u32,
    scale: u32,
    tile: u32,
    overlap: u32,
)
    requires
        tile >= 1,
    ensures
        ({
            let g = Grid {
                width: width as int,
                height: height as int,
                scale: scale as int,
                tile: tile as int,
                overlap: overlap as int,
            };
            &&& g.cols() >= 0
            &&& g.rows() >= 0
            &&& width > 0 <==> g.cols() > 0
            &&& height > 0 <==> g.rows() > 0
            &&& g.tiles().len() == g.rows() * g.cols()
        }),
{
    let ov: int = clamped(overlap as int, tile as int);
    if width > tile {
        axis::lemma_origins(width as int, tile as int, ov, 0);
    }
    if height > tile {
        axis::lemma_origins(height as int, tile as int, ov, 0);
    }
    let g = Grid {
        width: width as int,
        height: height as int,
        scale: scale as int,
        tile: tile as int,
        overlap: overlap as int,
    };
    assert(g.rows() * g.cols() >= 0) by (nonlinear_arith)
        requires
            g.rows() >= 0,
            g.cols() >= 0,
    ;
}

/// A tile fades in from its shared border: `2 * u + 1` parts in `2 * left` at the
/// pixel `u` of the first `left`, growing towards the middle, and likewise from the
/// right, the top and the bottom; where it does not fade it has its full weight.
pub proof fn law_weights_grow_inwards(t: Tile, u: int, v: int)
    requires
        0 <= u < t.dst.w,
        0 <= v < t.dst.h,
        t.feather.left <= t.dst.w,
        t.feather.right <= t.dst.w,
        t.feather.top <= t.dst.h,
        t.feather.bottom <= t.dst.h,
    ensures
        ({
            let w = t.weight(u, v);
            let (du, dv) = (t.dst.w - 1 - u, t.dst.h - 1 - v);
            let in_left = u < t.feather.left;
            let in_right = du < t.feather.right;
            let in_top = v < t.feather.top;
            let in_bottom = dv < t.feather.bottom;
            &&& !in_left && !in_right && !in_top && !in_bottom ==> w.numer() == 1 && w.denom() == 1
            &&& in_left && !in_right ==> w.x.numer() == 2 * u + 1 && w.x.denom() == 2
                * t.feather.left
            &&& in_right && !in_left ==> w.x.numer() == 2 * du + 1 && w.x.denom() == 2
                * t.feather.right
            &&& in_left && in_right ==> w.x.numer() == (2 * u + 1) * (2 * du + 1) && w.x.denom() == (2
                * t.feather.left) * (2 * t.feather.right)
            &&& !in_left && !in_right ==> w.x.numer() == 1 && w.x.denom() == 1
            &&& in_top && !in_bottom ==> w.y.numer() == 2 * v + 1 && w.y.denom() == 2 * t.feather.top
            &&& in_bottom && !in_top ==> w.y.numer() == 2 * dv + 1 && w.y.denom() == 2
                * t.feather.bottom
            &&& in_top && in_bottom ==> w.y.numer() == (2 * v + 1) * (2 * dv + 1) && w.y.denom() == (2
                * t.feather.top) * (2 * t.feather.bottom)
            &&& !in_top && !in_bottom ==> w.y.numer() == 1 && w.y.denom() == 1
            &&& w.numer() == w.x.numer() * w.y.numer()
            &&& w.denom() == w.x.denom() * w.y.denom()
            &&& in_left <==> w.x.lead is Some
            &&& in_right <==> w.x.trail is Some
            &&& in_top <==> w.y.lead is Some
            &&& in_bottom <==> w.y.trail is Some
            &&& w.x.lead matches Some(ramp) ==> ramp.step == u && ramp.width == t.feather.left
            &&& w.x.trail matches Some(ramp) ==> ramp.step == du && ramp.width == t.feather.right
            &&& w.y.lead matches Some(ramp) ==> ramp.step == v && ramp.width == t.feather.top
            &&& w.y.trail matches Some(ramp) ==> ramp.step == dv && ramp.width == t.feather.bottom
        }),
{
}

} // verus!
