//! One pass of a backend over an image: cut, upscale each piece, cross-fade back
//! together.
//!
//! Output is produced one row of tiles at a time and handed straight to a
//! [`RowSink`]. Only the rows still being blended are held, so memory depends on
//! the tile size rather than the size of the result.

use rayon::iter::{IntoParallelRefIterator, ParallelIterator};
use vstd::arithmetic::div_mod::*;
use vstd::prelude::*;
use vstd::string::*;

use crate::axis;
use crate::backend;
use crate::backend::{BackendError, Upscaler};
use crate::blend;
use crate::blend::{Accumulator, Blender, Sample};
use crate::raster;
use crate::raster::{Raster, Rgba, RgbaImage};
use crate::scale::ScaleError;
use crate::seams;
use crate::sink::{RowSink, SinkCall, SinkError};
use crate::text;
use crate::tiling;
use crate::tiling::{Grid, Tile, TilePlan, Weight};

verus! {

/// Knobs for a single run.
#[derive(Debug, Clone, Copy, PartialEq, Eq, Structural)]
pub struct UpscaleOptions {
    /// Tile edge length in source pixels.
    pub tile: u32,
    /// Requested overlap between neighbouring tiles, in source pixels.
    pub overlap: u32,
}

impl Default for UpscaleOptions {
    /// 256px tiles fit comfortably in modest VRAM; 32px of overlap is enough
    /// for a cross-fade to hide the edge effects of typical models.
    fn default() -> (o: Self)
        ensures
            o == (UpscaleOptions { tile: 256, overlap: 32 }),
    {
        UpscaleOptions { tile: 256, overlap: 32 }
    }
}

/// Why an image could not be upscaled.
#[derive(Debug, PartialEq, Eq)]
pub enum Error {
    /// The source has no pixels.
    EmptySource,
    /// The magnification cannot be planned.
    Scale(ScaleError),
    /// An image or a band of it is too large to be held.
    TooLarge,
    /// The backend failed on a tile.
    Backend(BackendError),
    /// The backend returned a tile of the wrong size.
    WrongTileSize { backend: String, got: (u32, u32), tile: (u32, u32), expected: (u32, u32) },
    /// The sink did not take the rows.
    Sink(SinkError),
}

/// A width and a height as they are shown.
pub open spec fn size_shown(w: u32, h: u32) -> Seq<char> {
    text::decimal(w as nat) + "x"@ + text::decimal(h as nat)
}

fn size_text(w: u32, h: u32) -> (s: String)
    ensures
        s@ == size_shown(w, h),
{
    let mut s = text::decimal_text(w);
    s.append("x");
    s.append(text::decimal_text(h).as_str());
    s
}

impl Error {
    /// What is said of the error.
    pub open spec fn wording(self) -> Seq<char> {
        match self {
            Error::EmptySource => "source image is empty"@,
            Error::Scale(e) => e.wording(),
            Error::TooLarge => "the image is too large to be enlarged"@,
            Error::Backend(e) => e.message@,
            Error::WrongTileSize { backend, got, tile, expected } => "backend "@ + backend@
                + " returned ("@ + text::decimal(got.0 as nat) + ", "@ + text::decimal(
                got.1 as nat,
            ) + ") for a "@ + size_shown(tile.0, tile.1) + " tile, expected "@ + size_shown(
                expected.0,
                expected.1,
            ),
            Error::Sink(e) => e.message@,
        }
    }

    /// What is said of the error.
    pub fn message(&self) -> (s: String)
        ensures
            s@ == self.wording(),
    {
        let mut s = String::new();
        match self {
            Error::EmptySource => {
                s.append("source image is empty");
            },
            Error::Scale(e) => {
                s.append(e.message().as_str());
            },
            Error::TooLarge => {
                s.append("the image is too large to be enlarged");
            },
            Error::Backend(e) => {
                s.append(e.message.as_str());
            },
            Error::WrongTileSize { backend, got, tile, expected } => {
                s.append("backend ");
                s.append(backend.as_str());
                s.append(" returned (");
                s.append(text::decimal_text(got.0).as_str());
                s.append(", ");
                s.append(text::decimal_text(got.1).as_str());
                s.append(") for a ");
                s.append(size_text(tile.0, tile.1).as_str());
                s.append(" tile, expected ");
                s.append(size_text(expected.0, expected.1).as_str());
            },
            Error::Sink(e) => {
                s.append(e.message.as_str());
            },
        }
        assert(s@ =~= self.wording());
        s
    }
}

/// Told about every tile that is done.
///
/// What `log` says matters in proofs only. An implementation outside the proofs can
/// leave it out and still be told. `log` is then a constant, and the contract of
/// `report` cannot be met: nothing that is proved of a run holds of what such an
/// implementation was told.
pub trait Progress {
    /// Every report so far.
    closed spec fn log(&self) -> Seq<(usize, usize)> {
        arbitrary()
    }

    /// `done` of `total` tiles are finished.
    fn report(&mut self, done: usize, total: usize)
        ensures
            final(self).log() == old(self).log().push((done, total)),
    ;
}

/// Says nothing to anyone.
pub struct Quiet {
    reports: Ghost<Seq<(usize, usize)>>,
}

impl Quiet {
    pub closed spec fn reports(self) -> Seq<(usize, usize)> {
        self.reports@
    }

    pub fn new() -> (q: Self)
        ensures
            q.log() == Seq::<(usize, usize)>::empty(),
    {
        Quiet { reports: Ghost(Seq::empty()) }
    }
}

impl Progress for Quiet {
    open spec fn log(&self) -> Seq<(usize, usize)> {
        self.reports()
    }

    fn report(&mut self, done: usize, total: usize) {
        self.reports = Ghost(self.reports@.push((done, total)));
    }
}

/// The reports for `n` tiles, `done` having been reported before.
pub open spec fn reports(done: int, n: int, total: usize) -> Seq<(usize, usize)> {
    Seq::new(n as nat, |i: int| ((done + i + 1) as usize, total))
}

/// How an image is tiled for a backend.
pub open spec fn grid_for(source: Raster, factor: u32, opts: UpscaleOptions) -> Grid {
    Grid {
        width: source.width as int,
        height: source.height as int,
        scale: factor as int,
        tile: opts.tile as int,
        overlap: opts.overlap as int,
    }
}

/// Bytes of sums per output pixel: four colour channels and a weight.
pub const SUM_BYTES: u64 = 20;

/// Whether the output of a pass can be counted, and a band of it held.
pub open spec fn pass_holdable(width: int, height: int, factor: int, tile: int) -> bool {
    &&& width * factor <= u32::MAX
    &&& height * factor <= u32::MAX
    &&& SUM_BYTES * ((width * factor) * (axis::span_extent(height, tile) * factor)) <= isize::MAX
}

/// The part of the source that a tile reads.
pub open spec fn cut(source: Raster, tile: Tile) -> Raster {
    source.crop(tile.src.x as int, tile.src.y as int, tile.src.w, tile.src.h)
}

/// Whether `patch` is what the backend made of a tile, at the size that belongs
/// there.
pub open spec fn renders<U: Upscaler>(
    backend: U,
    source: Raster,
    tile: Tile,
    patch: Raster,
) -> bool {
    &&& backend.gives(cut(source, tile), Ok(patch))
    &&& patch.width == tile.dst.w
    &&& patch.height == tile.dst.h
}

/// Whether every pixel of `out` is blended from the patches of the tiles that
/// cover it, in the order of the tiles.
pub open spec fn blended<S: Copy, A: Fn(S, Rgba, Weight) -> S, R: Fn(S) -> Rgba>(
    blender: Blender<S, A, R>,
    tiles: Seq<Tile>,
    patches: Seq<Raster>,
    out: Raster,
) -> bool {
    forall|x: int, y: int|
        0 <= x < out.width && 0 <= y < out.height ==> blender.mixes(
            blend::samples_at(tiles, patches, tiles.len() as int, x, y),
            #[trigger] out.pixel(x, y),
        )
}

/// Whether one pass over `source` can give `out`.
pub open spec fn pass_gives<
    U: Upscaler,
    S: Copy,
    A: Fn(S, Rgba, Weight) -> S,
    R: Fn(S) -> Rgba,
>(
    backend: U,
    blender: Blender<S, A, R>,
    source: Raster,
    opts: UpscaleOptions,
    out: Raster,
) -> bool {
    let g = grid_for(source, backend.factor(), opts);
    &&& out.valid()
    &&& out.width == source.width * backend.factor()
    &&& out.height == source.height * backend.factor()
    &&& exists|patches: Seq<Raster>| #[trigger]
        all_rendered(backend, source, g.tiles(), patches) && blended(
            blender,
            g.tiles(),
            patches,
            out,
        )
}

/// Whether `patches` holds what the backend made of each tile.
pub open spec fn all_rendered<U: Upscaler>(
    backend: U,
    source: Raster,
    tiles: Seq<Tile>,
    patches: Seq<Raster>,
) -> bool {
    &&& patches.len() == tiles.len()
    &&& forall|k: int|
        0 <= k < tiles.len() ==> renders(backend, source, tiles[k], #[trigger] patches[k])
}

/// Whether `e` tells of a failure of the backend on `tile`: an error of its own, or
/// a result of the wrong size.
pub open spec fn tile_failed<U: Upscaler>(backend: U, source: Raster, tile: Tile, e: Error) -> bool {
    match e {
        Error::Backend(b) => backend.gives(cut(source, tile), Err(b.message@)),
        Error::WrongTileSize { backend: name, got, tile: size, expected } => {
            &&& name@ == backend.label()
            &&& got != expected
            &&& size == (tile.src.w, tile.src.h)
            &&& expected == (tile.dst.w, tile.dst.h)
            &&& exists|out: Raster| #[trigger]
                backend.gives(cut(source, tile), Ok(out)) && got == (out.width, out.height)
        },
        _ => false,
    }
}

/// Whether `e` tells of a failure of the backend on a tile of `source`.
pub open spec fn backend_to_blame<U: Upscaler>(
    backend: U,
    source: Raster,
    opts: UpscaleOptions,
    e: Error,
) -> bool {
    let tiles = grid_for(source, backend.factor(), opts).tiles();
    exists|k: int| 0 <= k < tiles.len() && tile_failed(backend, source, #[trigger] tiles[k], e)
}

/// Whether `patches` holds what the backend made of the first `n` tiles.
pub open spec fn first_rendered<U: Upscaler>(
    backend: U,
    source: Raster,
    tiles: Seq<Tile>,
    n: int,
    patches: Seq<Raster>,
) -> bool {
    &&& patches.len() == n
    &&& forall|k: int| 0 <= k < n ==> renders(backend, source, tiles[k], #[trigger] patches[k])
}

/// Whether `bytes` can be the output rows that the first `n` rows of tiles settle.
pub open spec fn part_gives<
    U: Upscaler,
    S: Copy,
    A: Fn(S, Rgba, Weight) -> S,
    R: Fn(S) -> Rgba,
>(
    backend: U,
    blender: Blender<S, A, R>,
    source: Raster,
    opts: UpscaleOptions,
    n: int,
    bytes: Seq<u8>,
) -> bool {
    let g = grid_for(source, backend.factor(), opts);
    exists|patches: Seq<Raster>| #[trigger]
        first_rendered(backend, source, g.tiles(), n * g.cols(), patches) && settled(
            bytes,
            g.width * g.scale,
            rows_settled(g, n),
            blender,
            g.tiles(),
            patches,
            n * g.cols(),
        )
}

/// Whether a pass can stop with `e` at tile `k`, with the output rows in `bytes`
/// finished: those that the rows of tiles before that of the tile settle.
pub open spec fn stops_at<
    U: Upscaler,
    S: Copy,
    A: Fn(S, Rgba, Weight) -> S,
    R: Fn(S) -> Rgba,
>(
    backend: U,
    blender: Blender<S, A, R>,
    source: Raster,
    opts: UpscaleOptions,
    e: Error,
    k: int,
    bytes: Seq<u8>,
) -> bool {
    let g = grid_for(source, backend.factor(), opts);
    &&& 0 <= k < g.tiles().len()
    &&& tile_failed(backend, source, g.tiles()[k], e)
    &&& part_gives(backend, blender, source, opts, k / g.cols(), bytes)
}

/// Whether `sink` was handed the output `out` of a pass since it was `before`: once
/// for every row of tiles, the output rows that it settles, and was then closed.
pub open spec fn streamed<K: RowSink>(before: K, sink: K, g: Grid, out: Raster) -> bool {
    &&& sink.written() == before.written() + out.data
    &&& sink.calls() == before.calls() + band_calls(g, out.data, g.rows()).push(SinkCall::Finish)
}

/// How many tiles are blended by the time that the row of tiles `n` is handed over,
/// or the sink is closed.
pub open spec fn tiles_blended(g: Grid, n: int) -> int {
    if n < g.rows() {
        (n + 1) * g.cols()
    } else {
        g.rows() * g.cols()
    }
}

/// Whether `sink` has taken the first `n` rows of tiles of a pass, with the output
/// rows in `bytes`, and nothing else since it was `before`.
pub open spec fn sink_holds<K: RowSink>(before: K, sink: K, g: Grid, n: int, bytes: Seq<u8>) -> bool {
    &&& sink.calls() == before.calls() + band_calls(g, bytes, n)
    &&& sink.written() == before.written() + bytes
    &&& sink.closed() == before.closed()
}

/// Cut a tile out of the source and upscale it.
fn render<U: Upscaler>(source: &RgbaImage, backend: &U, tile: &Tile) -> (r: Result<
    RgbaImage,
    BackendError,
>)
    requires
        tile.src.x + tile.src.w <= source@.width,
        tile.src.y + tile.src.h <= source@.height,
    ensures
        backend.gives(cut(source@, *tile), backend::outcome(r)),
{
    let patch = source.crop(tile.src.x, tile.src.y, tile.src.w, tile.src.h);
    backend.upscale(&patch)
}

/// Renders tiles in parallel, with `par_iter`, `map` and `collect` of `rayon`.
///
/// Claimed of them: `collect` gives one result for every tile, in the order of
/// the tiles, and each is what [`render`] returned for that tile.
#[verifier::external_body]
fn render_all<U: Upscaler>(source: &RgbaImage, backend: &U, tiles: &Vec<Tile>) -> (results: Vec<
    Result<RgbaImage, BackendError>,
>)
    requires
        forall|i: int|
            #![trigger tiles@[i]]
            0 <= i < tiles@.len() ==> tiles@[i].src.x + tiles@[i].src.w <= source@.width
                && tiles@[i].src.y + tiles@[i].src.h <= source@.height,
    ensures
        results@.len() == tiles@.len(),
        forall|i: int|
            0 <= i < tiles@.len() ==> backend.gives(
                cut(source@, tiles@[i]),
                backend::outcome(#[trigger] results@[i]),
            ),
{
    tiles.par_iter().map(|tile| render(source, backend, tile)).collect()
}

/// Number of threads that work is spread over, from `rayon::current_num_threads`.
///
/// Nothing is claimed of it: it differs between machines.
#[verifier::external_body]
fn threads() -> (n: usize) {
    rayon::current_num_threads()
}

/// How many tiles are rendered at a time: one for every thread.
fn group_size() -> (n: usize)
    ensures
        n >= 1,
{
    let n: usize = threads();
    if n >= 1 {
        n
    } else {
        1
    }
}

/// The tiles of a band from `from` on, at most `most` of them.
fn group_from(band: &Vec<Tile>, from: usize, most: usize) -> (group: Vec<Tile>)
    requires
        from < band@.len(),
        most >= 1,
    ensures
        group@.len() == (if band@.len() - from <= most {
            band@.len() - from
        } else {
            most as int
        }),
        group@ == band@.subrange(from as int, from + group@.len()),
{
    let mut group: Vec<Tile> = Vec::new();
    let mut i: usize = from;
    while i < band.len() && i - from < most
        invariant
            from <= i <= band@.len(),
            i - from <= most,
            group@ == band@.subrange(from as int, i as int),
        decreases band@.len() - i,
    {
        group.push(band[i]);
        i = i + 1;
        assert(group@ =~= band@.subrange(from as int, i as int));
    }
    group
}

/// First output row of a row of tiles.
pub open spec fn band_start(g: Grid, r: int) -> int {
    g.row(r).origin * g.scale
}

/// Output row after the last of a row of tiles.
pub open spec fn band_end(g: Grid, r: int) -> int {
    (g.row(r).origin + g.row(r).extent) * g.scale
}

/// Output rows that no tile touches any more once `n` rows of tiles are blended.
pub open spec fn rows_settled(g: Grid, n: int) -> int {
    if n < g.rows() {
        band_start(g, n)
    } else {
        g.height * g.scale
    }
}

/// The part of the output bytes that the row of tiles `r` settles.
pub open spec fn band_bytes(g: Grid, data: Seq<u8>, r: int) -> Seq<u8> {
    data.subrange(
        rows_settled(g, r) * (g.width * g.scale) * 4,
        rows_settled(g, r + 1) * (g.width * g.scale) * 4,
    )
}

/// What a sink is handed for the first `n` rows of tiles: for each, the output rows
/// that it settles.
pub open spec fn band_calls(g: Grid, data: Seq<u8>, n: int) -> Seq<SinkCall> {
    Seq::new(n as nat, |r: int| SinkCall::Rows { bytes: band_bytes(g, data, r) })
}

/// Bands follow each other from the top of the output to the bottom: each starts
/// after the one before, no later than that one ends, and ends after it.
pub proof fn lemma_bands(g: Grid, r: int)
    requires
        g.valid(),
        g.fits(),
        0 <= r < g.rows(),
    ensures
        0 <= band_start(g, r) < band_end(g, r) <= g.height * g.scale,
        r == 0 ==> band_start(g, r) == 0,
        r + 1 == g.rows() ==> band_end(g, r) == g.height * g.scale,
        r + 1 < g.rows() ==> {
            &&& band_start(g, r) < band_start(g, r + 1) <= band_end(g, r)
            &&& band_end(g, r) < band_end(g, r + 1)
        },
        band_end(g, r) - band_start(g, r) == axis::span_extent(g.height, g.tile) * g.scale,
{
    let ov: int = tiling::clamped(g.overlap, g.tile);
    axis::lemma_span(g.height, g.tile, ov, r);
    let o: int = g.row(r).origin as int;
    let e: int = g.row(r).extent as int;
    let s: int = g.scale;
    assert((o + e) * s == o * s + e * s) by (nonlinear_arith);
    assert(0 <= o * s) by (nonlinear_arith)
        requires
            0 <= o,
            s >= 1,
    ;
    assert(0 < e * s) by (nonlinear_arith)
        requires
            0 < e,
            s >= 1,
    ;
    assert((o + e) * s <= g.height * s) by (nonlinear_arith)
        requires
            o + e <= g.height,
            s >= 1,
    ;
    assert(0 * s == 0) by (nonlinear_arith);
    if r + 1 < g.rows() {
        axis::lemma_span(g.height, g.tile, ov, r + 1);
        let p: int = g.row(r + 1).origin as int;
        assert(o * s < p * s && p * s <= (o + e) * s && (o + e) * s < (p + e) * s)
            by (nonlinear_arith)
            requires
                o < p,
                p <= o + e,
                s >= 1,
        ;
    }
}

/// Every row of tiles settles at least one output row, and the last settles all that
/// is left.
pub proof fn law_every_band_settles_rows(g: Grid, r: int)
    requires
        g.valid(),
        g.fits(),
        0 <= r < g.rows(),
    ensures
        rows_settled(g, 0) == 0,
        rows_settled(g, r) < rows_settled(g, r + 1) <= band_end(g, r),
        rows_settled(g, g.rows()) == g.height * g.scale,
{
    lemma_bands(g, 0);
    lemma_bands(g, r);
}

/// Settled rows stay settled.
proof fn lemma_settled_order(g: Grid, i: int, r: int)
    requires
        g.valid(),
        g.fits(),
        0 <= i <= r <= g.rows(),
        0 < g.rows(),
    ensures
        0 <= rows_settled(g, i) <= rows_settled(g, r),
    decreases r - i,
{
    lemma_bands(g, 0);
    if i < r {
        law_every_band_settles_rows(g, r - 1);
        lemma_settled_order(g, i, r - 1);
    } else if i < g.rows() {
        lemma_bands(g, i);
    }
}

/// One more row of tiles is one more call.
proof fn lemma_band_calls_next(g: Grid, bytes: Seq<u8>, rows: Seq<u8>, n: int)
    requires
        g.valid(),
        g.fits(),
        0 <= n < g.rows(),
        bytes.len() == rows_settled(g, n) * (g.width * g.scale) * 4,
        rows.len() == (rows_settled(g, n + 1) - rows_settled(g, n)) * (g.width * g.scale) * 4,
    ensures
        band_calls(g, bytes + rows, n + 1) == band_calls(g, bytes, n).push(
            SinkCall::Rows { bytes: rows },
        ),
{
    let w: int = g.width * g.scale;
    assert(w >= 0) by (nonlinear_arith)
        requires
            w == g.width * g.scale,
            g.width >= 0,
            g.scale >= 1,
    ;
    let all = bytes + rows;
    assert forall|r: int| 0 <= r < n implies band_bytes(g, all, r) == band_bytes(g, bytes, r) by {
        lemma_settled_order(g, 0, r);
        lemma_settled_order(g, r, r + 1);
        lemma_settled_order(g, r + 1, n);
        let (a, b, c) = (rows_settled(g, r), rows_settled(g, r + 1), rows_settled(g, n));
        assert(0 <= a * w && a * w <= b * w && b * w <= c * w) by (nonlinear_arith)
            requires
                0 <= a <= b <= c,
                w >= 0,
        ;
        assert(band_bytes(g, all, r) =~= band_bytes(g, bytes, r));
    }
    let (c, d) = (rows_settled(g, n), rows_settled(g, n + 1));
    lemma_settled_order(g, 0, n);
    lemma_settled_order(g, n, n + 1);
    assert(0 <= c * w && c * w <= d * w && (d - c) * w == d * w - c * w) by (nonlinear_arith)
        requires
            0 <= c <= d,
            w >= 0,
    ;
    assert(band_bytes(g, all, n) =~= rows);
    assert(band_calls(g, all, n + 1) =~= band_calls(g, bytes, n).push(
        SinkCall::Rows { bytes: rows },
    ));
}

/// Bands of later rows start later and end later.
proof fn lemma_bands_in_order(g: Grid, i: int, r: int)
    requires
        g.valid(),
        g.fits(),
        0 <= i < r < g.rows(),
    ensures
        band_start(g, i) < band_start(g, r),
        band_end(g, i) < band_end(g, r),
    decreases r - i,
{
    lemma_bands(g, r - 1);
    if i < r - 1 {
        lemma_bands_in_order(g, i, r - 1);
    }
}

/// Where the tile at `k` in the list stands.
proof fn lemma_tile_in_band(g: Grid, r: int, k: int)
    requires
        g.valid(),
        g.fits(),
        0 <= r < g.rows(),
        r * g.cols() <= k < (r + 1) * g.cols(),
    ensures
        0 <= k < g.tiles().len(),
        g.tiles()[k].dst.y == band_start(g, r),
        g.tiles()[k].dst.y + g.tiles()[k].dst.h == band_end(g, r),
        g.tiles()[k].dst.x + g.tiles()[k].dst.w <= g.width * g.scale,
        g.tiles()[k].src.x + g.tiles()[k].src.w <= g.width,
        g.tiles()[k].src.y + g.tiles()[k].src.h <= g.height,
        g.tiles()[k].dst.w == g.tiles()[k].src.w * g.scale,
        g.tiles()[k].dst.h == g.tiles()[k].src.h * g.scale,
{
    seams::lemma_grid_counts(g);
    let c: int = k - r * g.cols();
    assert((r + 1) * g.cols() == r * g.cols() + g.cols()) by (nonlinear_arith);
    seams::lemma_tile_position(g, r, c);
    seams::lemma_tile(g, r, c);
}

/// The tile at `k` belongs to some row of tiles.
proof fn lemma_band_of(g: Grid, k: int) -> (r: int)
    requires
        g.valid(),
        g.fits(),
        0 <= k < g.tiles().len(),
    ensures
        0 <= r < g.rows(),
        r * g.cols() <= k < (r + 1) * g.cols(),
        r == k / g.cols(),
{
    seams::lemma_grid_counts(g);
    seams::lemma_tile_row_col(g, k);
    let r: int = k / g.cols();
    assert((r + 1) * g.cols() == r * g.cols() + g.cols()) by (nonlinear_arith);
    r
}

/// Rows at or below the end of band `r - 1` are untouched by the tiles before
/// band `r`; rows above its start are untouched by the tiles from it on.
proof fn lemma_tiles_apart(g: Grid, r: int, k: int, x: int, y: int)
    requires
        g.valid(),
        g.fits(),
        0 <= r < g.rows(),
        0 <= k < g.tiles().len(),
    ensures
        r > 0 && k < r * g.cols() && y >= band_end(g, r - 1) ==> !g.tiles()[k].dst.contains(x, y),
        k >= r * g.cols() && y < band_start(g, r) ==> !g.tiles()[k].dst.contains(x, y),
{
    let i = lemma_band_of(g, k);
    lemma_tile_in_band(g, i, k);
    seams::lemma_grid_counts(g);
    let n: int = g.cols();
    if r > 0 && k < r * n {
        assert(i <= r - 1) by (nonlinear_arith)
            requires
                i * n <= k,
                k < r * n,
                n >= 0,
        ;
        if i < r - 1 {
            lemma_bands_in_order(g, i, r - 1);
        }
    }
    if k >= r * n {
        assert(i >= r) by (nonlinear_arith)
            requires
                k < (i + 1) * n,
                k >= r * n,
                n >= 0,
        ;
        if i > r {
            lemma_bands_in_order(g, r, i);
        }
    }
}

/// Tiles that do not cover a pixel have no say in it.
pub proof fn lemma_samples_skip(
    tiles: Seq<Tile>,
    patches: Seq<Raster>,
    m: int,
    n: int,
    x: int,
    y: int,
)
    requires
        0 <= m <= n,
        forall|k: int| m <= k < n ==> !(#[trigger] tiles[k]).dst.contains(x, y),
    ensures
        blend::samples_at(tiles, patches, n, x, y) == blend::samples_at(tiles, patches, m, x, y),
    decreases n,
{
    if m < n {
        lemma_samples_skip(tiles, patches, m, n - 1, x, y);
    }
}

/// What the first `n` tiles have to say rests on their own patches alone.
pub proof fn lemma_samples_prefix(
    tiles: Seq<Tile>,
    a: Seq<Raster>,
    b: Seq<Raster>,
    n: int,
    x: int,
    y: int,
)
    requires
        forall|k: int| 0 <= k < n ==> #[trigger] a[k] == b[k],
    ensures
        blend::samples_at(tiles, a, n, x, y) == blend::samples_at(tiles, b, n, x, y),
    decreases n,
{
    if n > 0 {
        lemma_samples_prefix(tiles, a, b, n - 1, x, y);
        assert(a[n - 1] == b[n - 1]);
    }
}

/// Adding one more sample to a sum of samples.
proof fn lemma_sums_push<S: Copy, A: Fn(S, Rgba, Weight) -> S, R: Fn(S) -> Rgba>(
    blender: Blender<S, A, R>,
    samples: Seq<Sample>,
    sample: Sample,
    before: S,
    after: S,
)
    requires
        blender.sums(samples, before),
        blender.adds(before, sample, after),
    ensures
        blender.sums(samples.push(sample), after),
{
    let more = samples.push(sample);
    assert(more.drop_last() =~= samples);
    assert(blender.adds(before, more.last(), after));
}

/// Whether every sum of a band is that of what the first `n` tiles have to say
/// about its pixel.
spec fn holds<S: Copy, A: Fn(S, Rgba, Weight) -> S, R: Fn(S) -> Rgba>(
    acc: Accumulator<S>,
    blender: Blender<S, A, R>,
    tiles: Seq<Tile>,
    patches: Seq<Raster>,
    n: int,
) -> bool {
    forall|p: int|
        0 <= p < acc.sums@.len() ==> blender.sums(
            blend::samples_at(tiles, patches, n, acc.col(p), acc.row(p)),
            #[trigger] acc.sums@[p],
        )
}

/// Whether the first `rows` output rows, in `bytes`, are what the first `n` tiles
/// blend to.
pub open spec fn settled<S: Copy, A: Fn(S, Rgba, Weight) -> S, R: Fn(S) -> Rgba>(
    bytes: Seq<u8>,
    width: int,
    rows: int,
    blender: Blender<S, A, R>,
    tiles: Seq<Tile>,
    patches: Seq<Raster>,
    n: int,
) -> bool {
    &&& bytes.len() == rows * width * 4
    &&& forall|q: int|
        0 <= q < rows * width ==> blender.mixes(
            blend::samples_at(tiles, patches, n, q % width, q / width),
            #[trigger] raster::pixel_in(bytes, q),
        )
}

/// Whether `carry` holds the sums for the rows from `from` to `to`.
spec fn carried<S: Copy, A: Fn(S, Rgba, Weight) -> S, R: Fn(S) -> Rgba>(
    carry: Seq<S>,
    width: int,
    from: int,
    to: int,
    blender: Blender<S, A, R>,
    tiles: Seq<Tile>,
    patches: Seq<Raster>,
    n: int,
) -> bool {
    &&& carry.len() == (to - from) * width
    &&& forall|p: int|
        0 <= p < carry.len() ==> blender.sums(
            blend::samples_at(tiles, patches, n, p % width, from + p / width),
            #[trigger] carry[p],
        )
}

/// Column and row after skipping whole rows.
proof fn lemma_skip_rows(width: int, rows: int, j: int)
    requires
        width > 0,
        0 <= j,
        0 <= rows,
    ensures
        (rows * width + j) % width == j % width,
        (rows * width + j) / width == rows + j / width,
{
    lemma_fundamental_div_mod(j, width);
    let x: int = j % width;
    let y: int = j / width;
    assert(width * y == y * width) by (nonlinear_arith);
    assert(y >= 0) by (nonlinear_arith)
        requires
            y * width + x == j,
            x < width,
            j >= 0,
            width > 0,
    ;
    assert(rows * width + j == (rows + y) * width + x) by (nonlinear_arith)
        requires
            y * width + x == j,
    ;
    raster::lemma_reading_order(width, x, rows + y);
}

/// A band that starts out from what was carried holds what the tiles before it
/// have to say.
proof fn lemma_seeded<S: Copy, A: Fn(S, Rgba, Weight) -> S, R: Fn(S) -> Rgba>(
    acc: Accumulator<S>,
    carry: Seq<S>,
    blender: Blender<S, A, R>,
    g: Grid,
    patches: Seq<Raster>,
    r: int,
)
    requires
        g.valid(),
        g.fits(),
        0 <= r < g.rows(),
        acc.valid(),
        acc.width == g.width * g.scale,
        acc.width > 0,
        acc.y_offset == band_start(g, r),
        acc.height == band_end(g, r) - band_start(g, r),
        r == 0 ==> carry.len() == 0,
        r > 0 ==> carried(
            carry,
            acc.width as int,
            band_start(g, r),
            band_end(g, r - 1),
            blender,
            g.tiles(),
            patches,
            r * g.cols(),
        ),
        forall|p: int|
            0 <= p < acc.sums@.len() ==> #[trigger] acc.sums@[p] == (if p < carry.len() {
                carry[p]
            } else {
                blender.zero
            }),
    ensures
        holds(acc, blender, g.tiles(), patches, r * g.cols()),
{
    let n: int = r * g.cols();
    let w: int = acc.width as int;
    seams::lemma_grid_counts(g);
    assert(0 <= n <= g.tiles().len()) by (nonlinear_arith)
        requires
            n == r * g.cols(),
            g.tiles().len() == g.rows() * g.cols(),
            0 <= r <= g.rows(),
            g.cols() >= 0,
    ;
    assert forall|p: int| 0 <= p < acc.sums@.len() implies blender.sums(
        blend::samples_at(g.tiles(), patches, n, acc.col(p), acc.row(p)),
        #[trigger] acc.sums@[p],
    ) by {
        if p >= carry.len() {
            let (x, y) = (acc.col(p), acc.row(p));
            if r > 0 {
                let rows: int = band_end(g, r - 1) - band_start(g, r);
                lemma_bands(g, r - 1);
                lemma_fundamental_div_mod(p, w);
                assert(w * (p / w) == (p / w) * w) by (nonlinear_arith);
                assert(p / w >= rows) by (nonlinear_arith)
                    requires
                        p >= rows * w,
                        p < (p / w) * w + w,
                        w > 0,
                ;
                assert forall|k: int| 0 <= k < n implies !(#[trigger] g.tiles()[k]).dst.contains(
                    x,
                    y,
                ) by {
                    lemma_tiles_apart(g, r, k, x, y);
                }
            } else {
                assert(n == 0) by (nonlinear_arith)
                    requires
                        n == r * g.cols(),
                        r == 0,
                ;
            }
            lemma_samples_skip(g.tiles(), patches, 0, n, x, y);
        }
    }
}

/// After a tile has been added, the band holds what one more tile has to say.
proof fn lemma_added<S: Copy, A: Fn(S, Rgba, Weight) -> S, R: Fn(S) -> Rgba>(
    before: Accumulator<S>,
    after: Accumulator<S>,
    blender: Blender<S, A, R>,
    tiles: Seq<Tile>,
    patches: Seq<Raster>,
    n: int,
)
    requires
        0 <= n,
        holds(before, blender, tiles, patches, n),
        after.same_band(before),
        forall|p: int|
            #![trigger after.sums@[p]]
            0 <= p < after.sums@.len() ==> {
                let (x, y) = (before.col(p), before.row(p));
                if tiles[n].dst.contains(x, y) {
                    blender.adds(
                        before.sums@[p],
                        blend::sample_of(tiles[n], patches[n], x, y),
                        after.sums@[p],
                    )
                } else {
                    after.sums@[p] == before.sums@[p]
                }
            },
    ensures
        holds(after, blender, tiles, patches, n + 1),
{
    assert forall|p: int| 0 <= p < after.sums@.len() implies blender.sums(
        blend::samples_at(tiles, patches, n + 1, after.col(p), after.row(p)),
        #[trigger] after.sums@[p],
    ) by {
        let (x, y) = (before.col(p), before.row(p));
        assert(blender.sums(blend::samples_at(tiles, patches, n, x, y), before.sums@[p]));
        if tiles[n].dst.contains(x, y) {
            lemma_sums_push(
                blender,
                blend::samples_at(tiles, patches, n, x, y),
                blend::sample_of(tiles[n], patches[n], x, y),
                before.sums@[p],
                after.sums@[p],
            );
        }
    }
}

/// Rows written before a band stay settled while its tiles are added.
proof fn lemma_still_settled<S: Copy, A: Fn(S, Rgba, Weight) -> S, R: Fn(S) -> Rgba>(
    bytes: Seq<u8>,
    blender: Blender<S, A, R>,
    g: Grid,
    a: Seq<Raster>,
    b: Seq<Raster>,
    r: int,
)
    requires
        g.valid(),
        g.fits(),
        0 <= r < g.rows(),
        g.width > 0,
        settled(
            bytes,
            g.width * g.scale,
            band_start(g, r),
            blender,
            g.tiles(),
            a,
            r * g.cols(),
        ),
        forall|k: int| 0 <= k < r * g.cols() ==> #[trigger] a[k] == b[k],
    ensures
        settled(
            bytes,
            g.width * g.scale,
            band_start(g, r),
            blender,
            g.tiles(),
            b,
            (r + 1) * g.cols(),
        ),
{
    let w: int = g.width * g.scale;
    let n: int = r * g.cols();
    let m: int = (r + 1) * g.cols();
    seams::lemma_grid_counts(g);
    assert(0 <= n <= m <= g.tiles().len() && w > 0) by (nonlinear_arith)
        requires
            n == r * g.cols(),
            m == (r + 1) * g.cols(),
            g.tiles().len() == g.rows() * g.cols(),
            0 <= r < g.rows(),
            g.cols() >= 0,
            w == g.width * g.scale,
            g.width > 0,
            g.scale > 0,
    ;
    assert forall|q: int| 0 <= q < band_start(g, r) * w implies blender.mixes(
        blend::samples_at(g.tiles(), b, m, q % w, q / w),
        #[trigger] raster::pixel_in(bytes, q),
    ) by {
        let (x, y) = (q % w, q / w);
        lemma_fundamental_div_mod(q, w);
        assert(w * (q / w) == (q / w) * w) by (nonlinear_arith);
        assert(y < band_start(g, r)) by (nonlinear_arith)
            requires
                y * w <= q,
                q < band_start(g, r) * w,
                w > 0,
        ;
        assert forall|k: int| n <= k < m implies !(#[trigger] g.tiles()[k]).dst.contains(x, y) by {
            lemma_tiles_apart(g, r, k, x, y);
        }
        lemma_samples_skip(g.tiles(), b, n, m, x, y);
        lemma_samples_prefix(g.tiles(), a, b, n, x, y);
    }
}

/// Resolving the rows of a band that later bands do not reach settles them.
proof fn lemma_flushed<S: Copy, A: Fn(S, Rgba, Weight) -> S, R: Fn(S) -> Rgba>(
    acc: Accumulator<S>,
    bytes: Seq<u8>,
    rows: Seq<u8>,
    to: int,
    blender: Blender<S, A, R>,
    tiles: Seq<Tile>,
    patches: Seq<Raster>,
    n: int,
)
    requires
        acc.valid(),
        acc.width > 0,
        holds(acc, blender, tiles, patches, n),
        settled(bytes, acc.width as int, acc.y_offset as int, blender, tiles, patches, n),
        acc.y_offset <= to <= acc.y_offset + acc.height,
        rows.len() == (to - acc.y_offset) * acc.width * 4,
        forall|j: int|
            0 <= j < (to - acc.y_offset) * acc.width ==> call_ensures(
                blender.resolve,
                (acc.sums@[j],),
                #[trigger] raster::pixel_in(rows, j),
            ),
    ensures
        settled(bytes + rows, acc.width as int, to, blender, tiles, patches, n),
{
    let w: int = acc.width as int;
    let a: int = acc.y_offset as int;
    assert(to * w == a * w + (to - a) * w && a * w >= 0 && (to - a) * w <= w * acc.height)
        by (nonlinear_arith)
        requires
            a >= 0,
            w >= 0,
            to - a <= acc.height,
    ;
    assert forall|q: int| 0 <= q < to * w implies blender.mixes(
        blend::samples_at(tiles, patches, n, q % w, q / w),
        #[trigger] raster::pixel_in(bytes + rows, q),
    ) by {
        if q < a * w {
            assert(raster::pixel_in(bytes + rows, q) == raster::pixel_in(bytes, q));
        } else {
            let j: int = q - a * w;
            assert(raster::pixel_in(bytes + rows, q) == raster::pixel_in(rows, j));
            lemma_skip_rows(w, a, j);
            assert(0 <= j < acc.sums@.len());
            assert(blender.sums(
                blend::samples_at(tiles, patches, n, acc.col(j), acc.row(j)),
                acc.sums@[j],
            ));
        }
    }
}

/// The sums kept for the next band are those of its first rows.
proof fn lemma_carried<S: Copy, A: Fn(S, Rgba, Weight) -> S, R: Fn(S) -> Rgba>(
    acc: Accumulator<S>,
    carry: Seq<S>,
    from: int,
    blender: Blender<S, A, R>,
    tiles: Seq<Tile>,
    patches: Seq<Raster>,
    n: int,
)
    requires
        acc.valid(),
        acc.width > 0,
        holds(acc, blender, tiles, patches, n),
        acc.y_offset <= from <= acc.y_offset + acc.height,
        carry == acc.sums@.subrange(
            (from - acc.y_offset) * acc.width,
            acc.sums@.len() as int,
        ),
    ensures
        carried(
            carry,
            acc.width as int,
            from,
            acc.y_offset + acc.height,
            blender,
            tiles,
            patches,
            n,
        ),
{
    let w: int = acc.width as int;
    let skip: int = from - acc.y_offset;
    assert(0 <= skip * w <= w * acc.height && w * acc.height - skip * w == (acc.height - skip) * w)
        by (nonlinear_arith)
        requires
            0 <= skip <= acc.height,
            w >= 0,
    ;
    assert forall|p: int| 0 <= p < carry.len() implies blender.sums(
        blend::samples_at(tiles, patches, n, p % w, from + p / w),
        #[trigger] carry[p],
    ) by {
        lemma_skip_rows(w, skip, p);
        assert(acc.sums@[skip * w + p] == carry[p]);
    }
}

/// Whether [`pass_holdable`] holds.
pub fn can_hold_pass(width: u32, height: u32, factor: u32, tile: u32) -> (r: bool)
    ensures
        r == pass_holdable(width as int, height as int, factor as int, tile as int),
{
    match (width.checked_mul(factor), height.checked_mul(factor)) {
        (Some(out_w), Some(out_h)) => {
            let band: u32 = if height <= tile {
                height
            } else {
                tile
            };
            proof {
                assert(band * factor <= height * factor) by (nonlinear_arith)
                    requires
                        band <= height,
                ;
                assert(0 <= band * factor) by (nonlinear_arith);
            }
            let rows: u32 = band * factor;
            proof {
                assert(0 <= out_w as u128 * rows as u128 <= 0xffff_ffff * 0xffff_ffff)
                    by (nonlinear_arith)
                    requires
                        out_w <= u32::MAX,
                        rows <= u32::MAX,
                ;
            }
            20 * (out_w as u128 * rows as u128) <= isize::MAX as u128
        },
        _ => false,
    }
}

/// Run one pass of the backend over `source`, streaming rows into `sink`.
///
/// `done` of `total` tiles have been reported before; the number reported after
/// is returned.
#[verifier::rlimit(40)]
pub fn run_pass<
    U: Upscaler,
    S: Copy,
    A: Fn(S, Rgba, Weight) -> S,
    R: Fn(S) -> Rgba,
    K: RowSink,
    P: Progress,
>(
    source: &RgbaImage,
    backend: &U,
    opts: UpscaleOptions,
    blender: &Blender<S, A, R>,
    sink: &mut K,
    progress: &mut P,
    done: usize,
    total: usize,
) -> (r: Result<usize, Error>)
    requires
        blender.total(),
        !source@.is_empty() ==> opts.tile >= 1 && backend.factor() >= 1 && done + grid_for(
            source@,
            backend.factor(),
            opts,
        ).tiles().len() <= total,
    ensures
        source@.is_empty() ==> r == Err::<usize, Error>(Error::EmptySource) && *final(sink) == *old(
            sink,
        ) && *final(progress) == *old(progress),
        !source@.is_empty() && !pass_holdable(
            source@.width as int,
            source@.height as int,
            backend.factor() as int,
            opts.tile as int,
        ) ==> r == Err::<usize, Error>(Error::TooLarge) && *final(sink) == *old(sink)
            && *final(progress) == *old(progress),
        final(sink).size() == old(sink).size(),
        r matches Ok(n) ==> {
            let tiles = grid_for(source@, backend.factor(), opts).tiles().len();
            &&& n == done + tiles
            &&& final(progress).log() == old(progress).log() + reports(
                done as int,
                tiles as int,
                total,
            )
            &&& final(sink).closed()
            &&& old(sink).always_takes() ==> final(sink).always_takes()
            &&& exists|out: Raster| #[trigger]
                pass_gives(*backend, *blender, source@, opts, out) && streamed(
                    *old(sink),
                    *final(sink),
                    grid_for(source@, backend.factor(), opts),
                    out,
                )
        },
        r matches Err(e) ==> {
            ||| e == Error::EmptySource && source@.is_empty()
            ||| e == Error::TooLarge && !source@.is_empty() && !pass_holdable(
                source@.width as int,
                source@.height as int,
                backend.factor() as int,
                opts.tile as int,
            )
            ||| exists|k: int, bytes: Seq<u8>|
                {
                    let g = grid_for(source@, backend.factor(), opts);
                    &&& #[trigger] stops_at(*backend, *blender, source@, opts, e, k, bytes)
                    &&& sink_holds(*old(sink), *final(sink), g, k / g.cols(), bytes)
                    &&& final(progress).log() == old(progress).log() + reports(
                        done as int,
                        k,
                        total,
                    )
                }
            ||| {
                &&& !old(sink).always_takes()
                &&& e matches Error::Sink(why)
                &&& exists|at: K, n: int, bytes: Seq<u8>|
                    {
                        let g = grid_for(source@, backend.factor(), opts);
                        &&& 0 <= n <= g.rows()
                        &&& #[trigger] at.refuses(why)
                        &&& #[trigger] part_gives(*backend, *blender, source@, opts, n, bytes)
                        &&& sink_holds(*old(sink), at, g, n, bytes)
                        &&& final(progress).log() == old(progress).log() + reports(
                            done as int,
                            tiles_blended(g, n),
                            total,
                        )
                    }
            }
        },
{
    let (width, height) = source.dimensions();
    if width == 0 || height == 0 {
        return Err(Error::EmptySource);
    }
    let factor: u32 = backend.scale_factor();
    if !can_hold_pass(width, height, factor, opts.tile) {
        return Err(Error::TooLarge);
    }
    let ghost g = grid_for(source@, factor, opts);
    proof {
        lemma_axis_fits(g.width, g.scale, g.tile);
        lemma_axis_fits(g.height, g.scale, g.tile);
    }
    let plan = TilePlan::new(width, height, factor, opts.tile, opts.overlap);
    let (out_w, out_h) = (plan.out_width(), plan.out_height());
    let count: usize = plan.tiles.len();
    let ghost tiles = g.tiles();
    let ghost cols: int = g.cols();
    let ghost mut patches: Seq<Raster> = Seq::empty();
    let ghost mut bytes: Seq<u8> = Seq::empty();
    let ghost mut row: int = 0;
    let mut carry: Vec<S> = Vec::new();
    let mut start: usize = 0;
    let mut flushed: u32 = 0;
    proof {
        seams::lemma_grid_counts(g);
        lemma_bands(g, 0);
        assert(out_w > 0) by (nonlinear_arith)
            requires
                out_w == width * factor,
                width > 0,
                factor > 0,
        ;
        assert(0 * cols == 0 && 0 * out_w == 0);
        assert(old(sink).written() + bytes =~= old(sink).written());
        assert(old(sink).calls() + band_calls(g, bytes, 0) =~= old(sink).calls());
        assert(old(progress).log() + reports(done as int, 0, total) =~= old(progress).log());
    }
    while start < count
        invariant
            g.valid(),
            g.fits(),
            g == grid_for(source@, factor, opts),
            pass_holdable(g.width, g.height, g.scale, g.tile),
            width == g.width,
            height == g.height,
            factor == g.scale,
            factor == backend.factor(),
            width == source@.width,
            height == source@.height,
            width > 0,
            height > 0,
            out_w == g.width * g.scale,
            out_h == g.height * g.scale,
            out_w > 0,
            tiles == g.tiles(),
            cols == g.cols(),
            cols >= 1,
            g.rows() >= 1,
            plan.tiles@ == tiles,
            count == tiles.len(),
            blender.total(),
            done + tiles.len() <= total,
            0 <= row <= g.rows(),
            start == row * cols,
            patches.len() == start,
            forall|k: int|
                0 <= k < start ==> renders(*backend, source@, tiles[k], #[trigger] patches[k]),
            flushed == (if row < g.rows() {
                band_start(g, row)
            } else {
                out_h as int
            }),
            settled(bytes, out_w as int, flushed as int, *blender, tiles, patches, row * cols),
            row == 0 ==> carry@.len() == 0,
            0 < row < g.rows() ==> carried(
                carry@,
                out_w as int,
                flushed as int,
                band_end(g, row - 1),
                *blender,
                tiles,
                patches,
                row * cols,
            ),
            sink_holds(*old(sink), *sink, g, row, bytes),
            old(sink).always_takes() ==> sink.always_takes(),
            sink.size() == old(sink).size(),
            progress.log() == old(progress).log() + reports(done as int, start as int, total),
        decreases count - start,
    {
        proof {
            assert(row < g.rows()) by (nonlinear_arith)
                requires
                    row * cols < g.rows() * cols,
                    cols >= 1,
            ;
            assert((row + 1) * cols == row * cols + cols) by (nonlinear_arith);
            assert((row + 1) * cols <= g.rows() * cols) by (nonlinear_arith)
                requires
                    row + 1 <= g.rows(),
                    cols >= 1,
            ;
            lemma_tile_in_band(g, row, start as int);
            lemma_bands(g, row);
        }
        // The tiles of a band share their first output row.
        let band_y: u32 = plan.tiles[start].dst.y;
        let band_end_y: u32 = plan.tiles[start].dst.bottom();
        let mut band: Vec<Tile> = Vec::new();
        let mut end: usize = start;
        while end < count && plan.tiles[end].dst.y == band_y
            invariant
                g.valid(),
                g.fits(),
                tiles == g.tiles(),
                cols == g.cols(),
                plan.tiles@ == tiles,
                count == tiles.len(),
                0 <= row < g.rows(),
                start == row * cols,
                (row + 1) * cols == row * cols + cols,
                start <= end <= start + cols,
                start + cols <= count,
                band_y == band_start(g, row),
                band@ == tiles.subrange(start as int, end as int),
            decreases count - end,
        {
            proof {
                if end == start + cols {
                    let k: int = end as int;
                    assert(row + 1 < g.rows()) by (nonlinear_arith)
                        requires
                            (row + 1) * cols < g.rows() * cols,
                            cols >= 0,
                    ;
                    assert((row + 1 + 1) * cols == (row + 1) * cols + cols) by (nonlinear_arith);
                    lemma_tile_in_band(g, row + 1, k);
                    lemma_bands(g, row);
                }
            }
            band.push(plan.tiles[end]);
            end = end + 1;
            assert(band@ =~= tiles.subrange(start as int, end as int));
        }
        proof {
            if end < start + cols {
                lemma_tile_in_band(g, row, end as int);
            }
            assert(end == start + cols);
            assert forall|i: int| 0 <= i < band@.len() implies (#[trigger] band@[i]).src.x
                + band@[i].src.w <= source@.width && band@[i].src.y + band@[i].src.h
                <= source@.height by {
                lemma_tile_in_band(g, row, start + i);
            }
            let rows: int = axis::span_extent(g.height, g.tile) * g.scale;
            assert(0 <= out_w * rows) by (nonlinear_arith)
                requires
                    rows >= 0,
            ;
        }
        let mut acc: Accumulator<S> = Accumulator::new(
            out_w,
            band_y,
            band_end_y - band_y,
            blender.zero,
        );
        proof {
            if row > 0 {
                lemma_bands(g, row - 1);
                let a: int = band_end(g, row - 1) - band_start(g, row);
                assert(a * out_w <= out_w * acc.height) by (nonlinear_arith)
                    requires
                        a <= acc.height,
                ;
            }
        }
        acc.seed(&carry);
        let ghost before_band = patches;
        proof {
            lemma_seeded(acc, carry@, *blender, g, patches, row);
        }
        // Tiles are rendered in groups, so that no more than a group is held, and
        // reported as each group is blended.
        let most: usize = group_size();
        let mut results: Vec<Result<RgbaImage, BackendError>> = Vec::new();
        let mut base: usize = 0;
        let mut j: usize = 0;
        while j < band.len()
            invariant
                most >= 1,
                g.valid(),
                g.fits(),
                g == grid_for(source@, factor, opts),
                width == g.width,
                height == g.height,
                factor == g.scale,
                factor == backend.factor(),
                pass_holdable(g.width, g.height, g.scale, g.tile),
                width == source@.width,
                height == source@.height,
                width > 0,
                height > 0,
                out_w == g.width * g.scale,
                tiles == g.tiles(),
                cols == g.cols(),
                count == tiles.len(),
                blender.total(),
                done + tiles.len() <= total,
                0 <= row < g.rows(),
                start == row * cols,
                (row + 1) * cols == row * cols + cols,
                end == start + cols,
                end <= count,
                band@ == tiles.subrange(start as int, end as int),
                forall|i: int|
                    #![trigger band@[i]]
                    0 <= i < band@.len() ==> band@[i].src.x + band@[i].src.w <= source@.width
                        && band@[i].src.y + band@[i].src.h <= source@.height,
                base <= j <= base + results@.len() <= band@.len(),
                forall|i: int|
                    0 <= i < results@.len() ==> backend.gives(
                        cut(source@, band@[base + i]),
                        backend::outcome(#[trigger] results@[i]),
                    ),
                acc.valid(),
                acc.width == out_w,
                acc.y_offset == band_start(g, row),
                acc.y_offset + acc.height == band_end(g, row),
                holds(acc, *blender, tiles, patches, start + j),
                patches.len() == start + j,
                before_band.len() == start,
                forall|k: int| 0 <= k < start ==> #[trigger] patches[k] == before_band[k],
                forall|k: int|
                    0 <= k < start + j ==> renders(
                        *backend,
                        source@,
                        tiles[k],
                        #[trigger] patches[k],
                    ),
                flushed == rows_settled(g, row),
                settled(
                    bytes,
                    out_w as int,
                    flushed as int,
                    *blender,
                    tiles,
                    before_band,
                    row * cols,
                ),
                forall|k: int|
                    0 <= k < start ==> renders(
                        *backend,
                        source@,
                        tiles[k],
                        #[trigger] before_band[k],
                    ),
                sink_holds(*old(sink), *sink, g, row, bytes),
                sink.size() == old(sink).size(),
                progress.log() == old(progress).log() + reports(done as int, start + j, total),
            decreases band@.len() - j,
        {
            if j == base + results.len() {
                let group = group_from(&band, j, most);
                results = render_all(source, backend, &group);
                base = j;
            }
            let tile = band[j];
            let ghost k: int = start + j;
            let at: usize = j - base;
            proof {
                lemma_tile_in_band(g, row, k);
                assert(tile == tiles[k]);
                assert(backend.gives(cut(source@, tile), backend::outcome(results@[at as int])));
                lemma_fundamental_div_mod_converse(k, cols, row, j as int);
                assert(first_rendered(*backend, source@, tiles, row * cols, before_band));
                assert(part_gives(*backend, *blender, source@, opts, row, bytes));
            }
            match &results[at] {
                Err(e) => {
                    let message = e.message.clone();
                    assert(backend.gives(cut(source@, tile), Err(message@)));
                    let failure = Error::Backend(BackendError { message });
                    assert(failure->Backend_0.message == message);
                    assert(tile_failed(*backend, source@, tiles[k], failure));
                    assert(stops_at(*backend, *blender, source@, opts, failure, k, bytes));
                    return Err(failure);
                },
                Ok(patch) => {
                    let (pw, ph) = patch.dimensions();
                    if pw != tile.dst.w || ph != tile.dst.h {
                        let name = backend.name().to_owned();
                        assert(backend.gives(cut(source@, tile), Ok(patch@)));
                        let failure = Error::WrongTileSize {
                            backend: name,
                            got: (pw, ph),
                            tile: (tile.src.w, tile.src.h),
                            expected: (tile.dst.w, tile.dst.h),
                        };
                        assert(tile_failed(*backend, source@, tiles[k], failure));
                        assert(stops_at(*backend, *blender, source@, opts, failure, k, bytes));
                        return Err(failure);
                    }
                    let ghost before = acc;
                    let ghost old_patches = patches;
                    acc.add_tile(blender, &tile, patch);
                    proof {
                        patches = patches.push(patch@);
                        assert forall|p: int| 0 <= p < before.sums@.len() implies blender.sums(
                            blend::samples_at(tiles, patches, k, before.col(p), before.row(p)),
                            #[trigger] before.sums@[p],
                        ) by {
                            lemma_samples_prefix(
                                tiles,
                                old_patches,
                                patches,
                                k,
                                before.col(p),
                                before.row(p),
                            );
                        }
                        lemma_added(before, acc, *blender, tiles, patches, k);
                    }
                },
            }
            progress.report(done + start + j + 1, total);
            proof {
                assert(progress.log() =~= old(progress).log() + reports(
                    done as int,
                    start + j + 1,
                    total,
                ));
            }
            j = j + 1;
        }
        // Rows above the next band's start can no longer receive contributions.
        proof {
            lemma_still_settled(bytes, *blender, g, before_band, patches, row);
            if row + 1 < g.rows() {
                assert((row + 1 + 1) * cols == (row + 1) * cols + cols) by (nonlinear_arith);
                lemma_tile_in_band(g, row + 1, end as int);
            } else {
                assert(row + 1 == g.rows());
            }
        }
        let next_start: u32 = if end < count {
            plan.tiles[end].dst.y
        } else {
            out_h
        };
        let rows = acc.resolve_rows(blender, flushed, next_start);
        proof {
            assert(0 * out_w == 0);
            lemma_flushed(
                acc,
                bytes,
                rows@,
                next_start as int,
                *blender,
                tiles,
                patches,
                end as int,
            );
        }
        let ghost before_write = *sink;
        match sink.write_rows(rows.as_slice()) {
            Ok(_) => {},
            Err(e) => {
                proof {
                    assert(first_rendered(*backend, source@, tiles, row * cols, before_band));
                    assert(part_gives(*backend, *blender, source@, opts, row, bytes));
                    assert(before_write.refuses(e));
                }
                let ghost why = e;
                let failure = Error::Sink(e);
                assert(failure->Sink_0 == why);
                return Err(failure);
            },
        }
        carry = acc.tail(next_start);
        proof {
            lemma_carried(acc, carry@, next_start as int, *blender, tiles, patches, end as int);
            assert(old(sink).written() + bytes + rows@ =~= old(sink).written() + (bytes + rows@));
            lemma_band_calls_next(g, bytes, rows@, row);
            assert(sink.calls() =~= old(sink).calls() + band_calls(g, bytes + rows@, row + 1));
            bytes = bytes + rows@;
            row = row + 1;
        }
        flushed = next_start;
        start = end;
    }
    proof {
        assert(row == g.rows()) by (nonlinear_arith)
            requires
                row * cols >= g.rows() * cols,
                row <= g.rows(),
                cols >= 1,
        ;
    }
    let ghost out = Raster { width: out_w, height: out_h, data: bytes };
    proof {
        assert(out_h * out_w == out_w * out_h) by (nonlinear_arith);
        assert forall|x: int, y: int| 0 <= x < out.width && 0 <= y < out.height implies blender.mixes(
            blend::samples_at(tiles, patches, tiles.len() as int, x, y),
            #[trigger] out.pixel(x, y),
        ) by {
            raster::lemma_reading_order(out_w as int, x, y);
            raster::lemma_reading_order_bound(out_w as int, out_h as int, x, y);
            assert(out.pixel(x, y) == raster::pixel_in(bytes, y * out_w + x));
        }
        assert(all_rendered(*backend, source@, tiles, patches));
        assert(blended(*blender, tiles, patches, out));
        assert(pass_gives(*backend, *blender, source@, opts, out));
    }
    let ghost before_finish = *sink;
    match sink.finish() {
        Ok(_) => {
            assert(sink.calls() =~= old(sink).calls() + band_calls(g, bytes, g.rows()).push(
                SinkCall::Finish,
            ));
            Ok(done + count)
        },
        Err(e) => {
            proof {
                assert(first_rendered(*backend, source@, tiles, row * cols, patches));
                assert(part_gives(*backend, *blender, source@, opts, row, bytes));
                assert(before_finish.refuses(e));
            }
            let ghost why = e;
            let failure = Error::Sink(e);
            assert(failure->Sink_0 == why);
            Err(failure)
        },
    }
}

/// Where whole axes can be counted once scaled, so can the parts of tiles.
proof fn lemma_axis_fits(extent: int, scale: int, tile: int)
    requires
        0 <= extent,
        0 <= tile,
        0 <= scale,
        extent * scale <= u32::MAX,
    ensures
        tiling::axis_fits(extent, scale, tile),
{
    let e: int = axis::span_extent(extent, tile);
    assert(0 <= e * scale <= extent * scale && (extent - e) * scale <= extent * scale)
        by (nonlinear_arith)
        requires
            0 <= e <= extent,
            0 <= scale,
    ;
}

/// A pass is laid out by the source, the magnification and the options as they stand:
/// its tiles are those of a plan with the tile size and the overlap that were asked for.
pub proof fn law_passes_follow_the_options(source: Raster, factor: u32, opts: UpscaleOptions)
    ensures
        grid_for(source, factor, opts).tiles() == (Grid {
            width: source.width as int,
            height: source.height as int,
            scale: factor as int,
            tile: opts.tile as int,
            overlap: opts.overlap as int,
        }).tiles(),
{
}

/// What a pass gives is made of the parts of the source that its tiles read, each as the
/// backend enlarged it, at exactly the magnification; and every pixel is blended from
/// what the tiles that cover it show there.
pub proof fn law_passes_blend_enlarged_parts<
    U: Upscaler,
    S: Copy,
    A: Fn(S, Rgba, Weight) -> S,
    R: Fn(S) -> Rgba,
>(
    backend: U,
    blender: Blender<S, A, R>,
    source: Raster,
    opts: UpscaleOptions,
    out: Raster,
)
    requires
        pass_gives(backend, blender, source, opts, out),
    ensures
        ({
            let tiles = (Grid {
                width: source.width as int,
                height: source.height as int,
                scale: backend.factor() as int,
                tile: opts.tile as int,
                overlap: opts.overlap as int,
            }).tiles();
            &&& out.width == source.width * backend.factor()
            &&& out.height == source.height * backend.factor()
            &&& out.data.len() == out.width * out.height * 4
            &&& exists|patches: Seq<Raster>|
                {
                    &&& #[trigger] patches.len() == tiles.len()
                    &&& forall|k: int|
                        #![trigger patches[k]]
                        0 <= k < tiles.len() ==> {
                            let t = tiles[k];
                            &&& backend.gives(
                                source.crop(t.src.x as int, t.src.y as int, t.src.w, t.src.h),
                                Ok(patches[k]),
                            )
                            &&& patches[k].width == t.dst.w
                            &&& patches[k].height == t.dst.h
                        }
                    &&& forall|x: int, y: int|
                        0 <= x < out.width && 0 <= y < out.height ==> blender.mixes(
                            blend::samples_at(tiles, patches, tiles.len() as int, x, y),
                            #[trigger] out.pixel(x, y),
                        )
                }
        }),
{
    let tiles = grid_for(source, backend.factor(), opts).tiles();
    let patches = choose|patches: Seq<Raster>| #[trigger]
        all_rendered(backend, source, tiles, patches) && blended(blender, tiles, patches, out);
    assert(patches.len() == tiles.len());
    assert forall|k: int| #![trigger patches[k]] 0 <= k < tiles.len() implies {
        let t = tiles[k];
        &&& backend.gives(
            source.crop(t.src.x as int, t.src.y as int, t.src.w, t.src.h),
            Ok(patches[k]),
        )
        &&& patches[k].width == t.dst.w
        &&& patches[k].height == t.dst.h
    } by {
        assert(renders(backend, source, tiles[k], patches[k]));
    }
}

/// A pass fails on account of the backend only where the backend does: it said so of the
/// part that a tile reads, or made something of it that is not exactly the magnification
/// times as large.
pub proof fn law_failures_are_the_backends<U: Upscaler>(
    backend: U,
    source: Raster,
    opts: UpscaleOptions,
    e: Error,
)
    requires
        backend.factor() >= 1,
        opts.tile >= 1,
        source.width * backend.factor() <= u32::MAX,
        source.height * backend.factor() <= u32::MAX,
        backend_to_blame(backend, source, opts, e),
    ensures
        exists|part: Raster, made: Result<Raster, Seq<char>>|
            {
                &&& #[trigger] backend.gives(part, made)
                &&& 0 < part.width <= source.width
                &&& 0 < part.height <= source.height
                &&& part.data.len() == part.width * part.height * 4
                &&& match (e, made) {
                    (Error::Backend(b), Err(why)) => b.message@ == why,
                    (Error::WrongTileSize { backend: name, got, tile, expected }, Ok(img)) => {
                        &&& name@ == backend.label()
                        &&& got == (img.width, img.height)
                        &&& tile == (part.width, part.height)
                        &&& expected.0 == part.width * backend.factor()
                        &&& expected.1 == part.height * backend.factor()
                        &&& got != expected
                    },
                    _ => false,
                }
            },
{
    let g = grid_for(source, backend.factor(), opts);
    let tiles = g.tiles();
    let k = choose|k: int|
        0 <= k < tiles.len() && tile_failed(backend, source, #[trigger] tiles[k], e);
    let t = tiles[k];
    seams::law_tiles_stay_inside(g, k);
    let part = source.crop(t.src.x as int, t.src.y as int, t.src.w, t.src.h);
    raster::law_crop_is_a_window(source, t.src.x as int, t.src.y as int, t.src.w, t.src.h);
    match e {
        Error::Backend(b) => {
            assert(backend.gives(part, Err(b.message@)));
        },
        Error::WrongTileSize { backend: _, got, tile: _, expected: _ } => {
            let out = choose|out: Raster| #[trigger]
                backend.gives(cut(source, t), Ok(out)) && got == (out.width, out.height);
            assert(backend.gives(part, Ok(out)));
        },
        _ => {},
    }
}

/// Tiles are reported one by one: after each, how many there have been, of how many.
pub proof fn law_every_tile_is_reported(done: int, n: int, total: usize, i: int)
    requires
        0 <= done,
        0 <= i < n,
        done + n <= usize::MAX,
    ensures
        reports(done, n, total).len() == n,
        reports(done, n, total)[i].0 == done + i + 1,
        reports(done, n, total)[i].1 == total,
{
}

/// The output of a pass is handed over from top to bottom, once for every row of tiles:
/// the output rows from where that row of tiles starts to where the next one does, or to
/// the end. All bytes are handed over, nothing else is, and the sink is closed after.
pub proof fn law_rows_are_handed_over_once<K: RowSink>(
    before: K,
    sink: K,
    source: Raster,
    factor: u32,
    opts: UpscaleOptions,
    out: Raster,
    r: int,
)
    requires
        factor >= 1,
        opts.tile >= 1,
        out.width == source.width * factor,
        out.height == source.height * factor,
        streamed(before, sink, grid_for(source, factor, opts), out),
        0 <= r < grid_for(source, factor, opts).rows(),
        0 < source.width,
    ensures
        ({
            let g = grid_for(source, factor, opts);
            let n = before.calls().len();
            let first = g.tiles()[r * g.cols()];
            let end = if r + 1 < g.rows() {
                g.tiles()[(r + 1) * g.cols()].dst.y as int
            } else {
                out.height as int
            };
            &&& sink.written() == before.written() + out.data
            &&& sink.calls().len() == n + g.rows() + 1
            &&& sink.calls().take(n as int) == before.calls()
            &&& sink.calls()[n + g.rows()] == SinkCall::Finish
            &&& r == 0 ==> first.dst.y == 0
            &&& first.dst.y < end <= first.dst.y + first.dst.h
            &&& sink.calls()[n + r] == (SinkCall::Rows {
                bytes: out.data.subrange(
                    first.dst.y * (out.width * 4),
                    end * (out.width * 4),
                ),
            })
        }),
{
    let g = grid_for(source, factor, opts);
    let n: int = before.calls().len() as int;
    seams::lemma_grid_counts(g);
    seams::lemma_tile_position(g, r, 0);
    seams::lemma_tile(g, r, 0);
    law_every_band_settles_rows(g, r);
    lemma_bands(g, r);
    if r + 1 < g.rows() {
        seams::lemma_tile_position(g, r + 1, 0);
        seams::lemma_tile(g, r + 1, 0);
    }
    let (a, b) = (rows_settled(g, r), rows_settled(g, r + 1));
    assert(a * (g.width * g.scale) * 4 == a * (out.width * 4)) by (nonlinear_arith)
        requires
            g.width * g.scale == out.width,
    ;
    assert(b * (g.width * g.scale) * 4 == b * (out.width * 4)) by (nonlinear_arith)
        requires
            g.width * g.scale == out.width,
    ;
    assert(sink.calls().take(n) =~= before.calls());
    assert(sink.calls()[n + r] == band_calls(g, out.data, g.rows())[r]);
}

/// A pass can be held where its output is counted in 32 bits and a band of it, one tile
/// high, takes no more than memory can have at 20 bytes a pixel.
pub proof fn law_ordinary_passes_can_be_held(width: int, height: int, factor: int, tile: int)
    requires
        0 <= width,
        0 <= height,
        factor >= 1,
        tile >= 1,
        width * factor <= u32::MAX,
        height * factor <= u32::MAX,
        20 * ((width * factor) * (height * factor)) <= isize::MAX || 20 * ((width * factor) * (tile
            * factor)) <= isize::MAX,
    ensures
        pass_holdable(width, height, factor, tile),
{
    let e: int = axis::span_extent(height, tile);
    let w: int = width * factor;
    assert(w >= 0) by (nonlinear_arith)
        requires
            w == width * factor,
            width >= 0,
            factor >= 1,
    ;
    assert(e * factor <= height * factor && e * factor <= tile * factor) by (nonlinear_arith)
        requires
            e <= height,
            e <= tile,
            factor >= 1,
    ;
    assert(w * (e * factor) <= w * (height * factor) && w * (e * factor) <= w * (tile * factor))
        by (nonlinear_arith)
        requires
            w >= 0,
            e * factor <= height * factor,
            e * factor <= tile * factor,
    ;
}

/// A pass that stops at tile `k` leaves whole rows behind: all that the rows of tiles
/// before that of the tile have settled, blended as it would be in the end, and no more.
/// It stops because of what the backend made of the part that this very tile reads.
pub proof fn law_stopped_passes_leave_whole_rows<
    U: Upscaler,
    S: Copy,
    A: Fn(S, Rgba, Weight) -> S,
    R: Fn(S) -> Rgba,
>(
    backend: U,
    blender: Blender<S, A, R>,
    source: Raster,
    opts: UpscaleOptions,
    e: Error,
    k: int,
    bytes: Seq<u8>,
) -> (patches: Seq<Raster>)
    requires
        backend.factor() >= 1,
        opts.tile >= 1,
        source.width * backend.factor() <= u32::MAX,
        source.height * backend.factor() <= u32::MAX,
        stops_at(backend, blender, source, opts, e, k, bytes),
    ensures
        ({
            let g = grid_for(source, backend.factor(), opts);
            let tiles = g.tiles();
            let first = (k / g.cols()) * g.cols();
            let width = source.width * backend.factor();
            let t = tiles[k];
            let part = source.crop(t.src.x as int, t.src.y as int, t.src.w, t.src.h);
            &&& 0 <= first <= k < tiles.len()
            &&& patches.len() == first
            &&& forall|i: int|
                #![trigger patches[i]]
                0 <= i < first ==> backend.gives(
                    source.crop(
                        tiles[i].src.x as int,
                        tiles[i].src.y as int,
                        tiles[i].src.w,
                        tiles[i].src.h,
                    ),
                    Ok(patches[i]),
                )
            &&& bytes.len() == tiles[first].dst.y * width * 4
            &&& forall|q: int|
                0 <= q < tiles[first].dst.y * width ==> blender.mixes(
                    blend::samples_at(tiles, patches, first, q % width, q / width),
                    #[trigger] raster::pixel_in(bytes, q),
                )
            &&& e matches Error::Backend(b) ==> backend.gives(part, Err(b.message@))
            &&& e matches Error::WrongTileSize { tile, expected, .. } ==> {
                &&& tile == (t.src.w, t.src.h)
                &&& expected == (t.dst.w, t.dst.h)
            }
            &&& e is Backend || e is WrongTileSize
        }),
{
    let g = grid_for(source, backend.factor(), opts);
    let n: int = k / g.cols();
    seams::lemma_grid_counts(g);
    seams::lemma_tile_row_col(g, k);
    seams::lemma_tile_position(g, n, 0);
    seams::lemma_tile(g, n, 0);
    let patches = choose|patches: Seq<Raster>| #[trigger]
        first_rendered(backend, source, g.tiles(), n * g.cols(), patches) && settled(
            bytes,
            g.width * g.scale,
            rows_settled(g, n),
            blender,
            g.tiles(),
            patches,
            n * g.cols(),
        );
    assert(0 <= n * g.cols()) by (nonlinear_arith)
        requires
            0 <= n,
            0 <= g.cols(),
    ;
    assert forall|i: int| #![trigger patches[i]] 0 <= i < n * g.cols() implies backend.gives(
        source.crop(
            g.tiles()[i].src.x as int,
            g.tiles()[i].src.y as int,
            g.tiles()[i].src.w,
            g.tiles()[i].src.h,
        ),
        Ok(patches[i]),
    ) by {
        assert(renders(backend, source, g.tiles()[i], patches[i]));
    }
    patches
}

/// What a sink holds of a pass that stopped: the bytes of the rows that were settled,
/// handed over once for every row of tiles, in order; it is no more closed than before.
pub proof fn law_sinks_hold_the_settled_rows<K: RowSink>(
    before: K,
    sink: K,
    g: Grid,
    n: int,
    bytes: Seq<u8>,
    r: int,
)
    requires
        sink_holds(before, sink, g, n, bytes),
        0 <= r < n < g.rows(),
        1 <= g.tile <= u32::MAX,
        1 <= g.scale <= u32::MAX,
        0 <= g.overlap <= u32::MAX,
        0 < g.width,
        0 < g.height,
        g.width <= u32::MAX,
        g.height <= u32::MAX,
        g.width * g.scale <= u32::MAX,
        g.height * g.scale <= u32::MAX,
    ensures
        sink.written() == before.written() + bytes,
        sink.closed() == before.closed(),
        sink.calls().len() == before.calls().len() + n,
        sink.calls().take(before.calls().len() as int) == before.calls(),
        sink.calls()[before.calls().len() + r] == (SinkCall::Rows {
            bytes: bytes.subrange(
                g.tiles()[r * g.cols()].dst.y * (g.width * g.scale) * 4,
                g.tiles()[(r + 1) * g.cols()].dst.y * (g.width * g.scale) * 4,
            ),
        }),
{
    seams::lemma_grid_counts(g);
    seams::lemma_tile_position(g, r, 0);
    seams::lemma_tile(g, r, 0);
    seams::lemma_tile_position(g, r + 1, 0);
    seams::lemma_tile(g, r + 1, 0);
    assert(sink.calls().take(before.calls().len() as int) =~= before.calls());
    assert(sink.calls()[before.calls().len() + r] == band_calls(g, bytes, n)[r]);
}

/// What is said of a failure is what the backend or the sink said of it, or what is wrong
/// with the source, the magnification, or the size of a tile that came back.
pub proof fn law_failures_are_told(e: Error)
    ensures
        e matches Error::EmptySource ==> e.wording() == "source image is empty"@,
        e matches Error::Scale(s) ==> e.wording() == s.wording(),
        e matches Error::Backend(b) ==> e.wording() == b.message@,
        e matches Error::Sink(s) ==> e.wording() == s.message@,
        e matches Error::WrongTileSize { backend, got, tile, expected } ==> e.wording()
            == "backend "@ + backend@ + " returned ("@ + text::decimal(got.0 as nat) + ", "@
            + text::decimal(got.1 as nat) + ") for a "@ + (text::decimal(tile.0 as nat) + "x"@
            + text::decimal(tile.1 as nat)) + " tile, expected "@ + (text::decimal(
            expected.0 as nat,
        ) + "x"@ + text::decimal(expected.1 as nat)),
{
}

} // verus!
