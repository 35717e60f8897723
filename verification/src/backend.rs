//! Upscaling backends.
//!
//! The pipeline only knows about [`Upscaler`], so a neural backend can be dropped
//! in without the tiling, blending, or I/O code changing.

use vstd::prelude::*;
use vstd::string::*;

use crate::raster::{Raster, RgbaImage};
use crate::resize;
use crate::resize::Filter;
use crate::text;

verus! {

/// Why a backend could not upscale a tile.
#[derive(Debug, Clone, PartialEq, Eq)]
pub struct BackendError {
    pub message: String,
}

impl BackendError {
    pub fn new(message: &str) -> (e: Self)
        ensures
            e.message@ == message@,
    {
        BackendError { message: message.to_owned() }
    }
}

/// What came of upscaling a tile: an image, or a message.
pub open spec fn outcome(r: Result<RgbaImage, BackendError>) -> Result<Raster, Seq<char>> {
    match r {
        Ok(img) => Ok(img@),
        Err(e) => Err(e.message@),
    }
}

/// Turns one tile into a `scale_factor()`-times larger tile.
///
/// Implementations must be deterministic for a given input: the blend assumes
/// two tiles covering the same pixel broadly agree about it.
///
/// The functions before `name` say in proofs what a backend does. A backend outside
/// the proofs can leave them out and still be run. Each is then a constant, which the
/// contracts below do not fit: nothing is proved of a run with such a backend.
pub trait Upscaler: Send + Sync {
    /// The identifier that `name` gives.
    closed spec fn label(&self) -> Seq<char> {
        arbitrary()
    }

    /// The magnification that `scale_factor` gives.
    closed spec fn factor(&self) -> u32 {
        arbitrary()
    }

    /// The tile size that `preferred_tile` gives.
    closed spec fn tile_limit(&self) -> Option<u32> {
        arbitrary()
    }

    /// Whether upscaling `tile` can come out as `out`.
    closed spec fn gives(&self, tile: Raster, out: Result<Raster, Seq<char>>) -> bool {
        arbitrary()
    }

    /// Short identifier, surfaced in command-line output.
    fn name(&self) -> (n: &str)
        ensures
            n@ == self.label(),
    ;

    /// Fixed integer magnification this backend produces.
    fn scale_factor(&self) -> (s: u32)
        ensures
            s == self.factor(),
    ;

    /// Tile size a backend with a fixed input size dictates.
    fn preferred_tile(&self) -> (t: Option<u32>)
        ensures
            t == self.tile_limit(),
    ;

    /// Upscale a single tile. Output must be exactly `scale_factor()` times the
    /// input in both dimensions.
    fn upscale(&self, tile: &RgbaImage) -> (r: Result<RgbaImage, BackendError>)
        ensures
            self.gives(tile@, outcome(r)),
    ;
}

/// Why a resampling backend cannot be made.
#[derive(Debug, Clone, PartialEq, Eq)]
pub enum ResampleError {
    /// The magnification is zero.
    ZeroScale,
    /// No filter has this name.
    UnknownFilter { name: String },
}

/// The filter that goes by `name`, in lower case.
pub open spec fn filter_named(name: Seq<char>) -> Option<Filter> {
    if name == "lanczos3"@ {
        Some(Filter::Lanczos3)
    } else if name == "catmullrom"@ {
        Some(Filter::CatmullRom)
    } else if name == "gaussian"@ {
        Some(Filter::Gaussian)
    } else if name == "triangle"@ {
        Some(Filter::Triangle)
    } else if name == "nearest"@ {
        Some(Filter::Nearest)
    } else {
        None
    }
}

/// Classical resampling backend.
///
/// It adds no detail, so it is not the point of the project, but it runs on any
/// machine, and it is a sensible fallback when no model is present.
#[derive(Debug)]
pub struct ResampleBackend {
    scale: u32,
    filter: Filter,
    name: String,
}

impl ResampleBackend {
    /// The filter it resamples with.
    pub closed spec fn filter(self) -> Filter {
        self.filter
    }

    pub closed spec fn scale(self) -> u32 {
        self.scale
    }

    pub closed spec fn name_text(self) -> Seq<char> {
        self.name@
    }

    /// `filter` is matched by name, whatever its case: `lanczos3`, `catmullrom`,
    /// `gaussian`, `triangle`, or `nearest`.
    pub fn new(scale: u32, filter: &str) -> (r: Result<Self, ResampleError>)
        ensures
            scale == 0 ==> r == Err::<Self, ResampleError>(ResampleError::ZeroScale),
            scale > 0 && filter_named(text::lowered(filter@)) is None ==> {
                &&& r matches Err(ResampleError::UnknownFilter { name })
                &&& name@ == text::lowered(filter@)
            },
            scale > 0 && filter_named(text::lowered(filter@)) is Some ==> {
                &&& r matches Ok(b)
                &&& b.factor() == scale
                &&& Some(b.filter()) == filter_named(text::lowered(filter@))
                &&& b.label() == "resample:"@ + text::lowered(filter@)
            },
            r is Ok <==> scale >= 1 && {
                ||| text::lowered(filter@) == "lanczos3"@
                ||| text::lowered(filter@) == "catmullrom"@
                ||| text::lowered(filter@) == "gaussian"@
                ||| text::lowered(filter@) == "triangle"@
                ||| text::lowered(filter@) == "nearest"@
            },
            // Whatever the magnification, tiles are resampled with the filter that was
            // named, to that many times their size, and none is refused that can be.
            r matches Ok(b) ==> {
                let named = if text::lowered(filter@) == "lanczos3"@ {
                    Filter::Lanczos3
                } else if text::lowered(filter@) == "catmullrom"@ {
                    Filter::CatmullRom
                } else if text::lowered(filter@) == "gaussian"@ {
                    Filter::Gaussian
                } else if text::lowered(filter@) == "triangle"@ {
                    Filter::Triangle
                } else {
                    Filter::Nearest
                };
                &&& forall|tile: Raster, out: Raster|
                    #![trigger b.gives(tile, Ok(out))]
                    b.gives(tile, Ok(out)) ==> {
                        &&& out.width == tile.width * scale
                        &&& out.height == tile.height * scale
                        &&& out.data.len() == out.width * out.height * 4
                        &&& resize::resize_gives(
                            4,
                            named,
                            tile.width,
                            tile.height,
                            tile.data,
                            out.width,
                            out.height,
                            out.data,
                        )
                    }
                &&& forall|tile: Raster, why: Seq<char>|
                    #![trigger b.gives(tile, Err(why))]
                    b.gives(tile, Err(why)) ==> {
                        ||| tile.width == 0
                        ||| tile.height == 0
                        ||| tile.width * scale > u32::MAX
                        ||| tile.height * scale > u32::MAX
                        ||| !resize::resizable(
                            named,
                            tile.width as int,
                            tile.height as int,
                            tile.width * scale,
                            tile.height * scale,
                        )
                    }
                &&& b.factor() == scale
                &&& b.filter() == named
                &&& b.tile_limit() is None
            },
    {
        proof {
            reveal_strlit("lanczos3");
            reveal_strlit("catmullrom");
            reveal_strlit("gaussian");
            reveal_strlit("triangle");
            reveal_strlit("nearest");
        }
        if scale < 1 {
            return Err(ResampleError::ZeroScale);
        }
        let lower = text::lower_chars(filter);
        let kind = if text::same_chars(&lower, &text::chars_of("lanczos3")) {
            Filter::Lanczos3
        } else if text::same_chars(&lower, &text::chars_of("catmullrom")) {
            Filter::CatmullRom
        } else if text::same_chars(&lower, &text::chars_of("gaussian")) {
            Filter::Gaussian
        } else if text::same_chars(&lower, &text::chars_of("triangle")) {
            Filter::Triangle
        } else if text::same_chars(&lower, &text::chars_of("nearest")) {
            Filter::Nearest
        } else {
            return Err(ResampleError::UnknownFilter { name: text::string_of(&lower) });
        };
        let mut name = String::new();
        name.append("resample:");
        name.append(text::string_of(&lower).as_str());
        assert(name@ =~= "resample:"@ + text::lowered(filter@));
        Ok(ResampleBackend { scale, filter: kind, name })
    }
}

/// Whether a tile and what it is enlarged to can be held and resampled.
pub open spec fn enlargeable(tile: Raster, filter: Filter, scale: u32) -> bool {
    &&& tile.width * scale <= u32::MAX
    &&& tile.height * scale <= u32::MAX
    &&& resize::resizable(
        filter,
        tile.width as int,
        tile.height as int,
        tile.width * scale,
        tile.height * scale,
    )
}

impl Upscaler for ResampleBackend {
    open spec fn label(&self) -> Seq<char> {
        self.name_text()
    }

    open spec fn factor(&self) -> u32 {
        self.scale()
    }

    open spec fn tile_limit(&self) -> Option<u32> {
        None
    }

    open spec fn gives(&self, tile: Raster, out: Result<Raster, Seq<char>>) -> bool {
        if tile.is_empty() {
            out == Err::<Raster, Seq<char>>("cannot upscale a zero-sized tile"@)
        } else if !enlargeable(tile, self.filter(), self.factor()) {
            out == Err::<Raster, Seq<char>>("the tile is too large to enlarge"@)
        } else {
            &&& out matches Ok(o)
            &&& o.width == tile.width * self.factor()
            &&& o.height == tile.height * self.factor()
            &&& resize::resamples(self.filter(), tile, o)
        }
    }

    fn name(&self) -> (n: &str) {
        self.name.as_str()
    }

    fn scale_factor(&self) -> (s: u32) {
        self.scale
    }

    fn preferred_tile(&self) -> (t: Option<u32>) {
        None
    }

    fn upscale(&self, tile: &RgbaImage) -> (r: Result<RgbaImage, BackendError>) {
        let (w, h) = tile.dimensions();
        if w == 0 || h == 0 {
            return Err(BackendError::new("cannot upscale a zero-sized tile"));
        }
        match (w.checked_mul(self.scale), h.checked_mul(self.scale)) {
            (Some(nw), Some(nh)) => {
                if resize::can_resize(self.filter, w, h, nw, nh) {
                    return Ok(resize::resize(tile, nw, nh, self.filter));
                }
            },
            _ => {},
        }
        Err(BackendError::new("the tile is too large to enlarge"))
    }
}

/// A resampler resamples every tile with its own filter, whatever its magnification: an
/// image that it gives is one that this kernel can give for the tile, at exactly that
/// many times its size. It refuses only tiles without pixels and those that cannot be
/// resampled.
pub proof fn law_resamplers_use_their_filter(
    resampler: ResampleBackend,
    tile: Raster,
    out: Raster,
    why: Seq<char>,
)
    ensures
        resampler.gives(tile, Ok(out)) ==> {
            &&& tile.width > 0
            &&& tile.height > 0
            &&& out.width == tile.width * resampler.factor()
            &&& out.height == tile.height * resampler.factor()
            &&& out.data.len() == out.width * out.height * 4
            &&& resize::resize_gives(
                4,
                resampler.filter(),
                tile.width,
                tile.height,
                tile.data,
                out.width,
                out.height,
                out.data,
            )
        },
        resampler.gives(tile, Err(why)) && tile.width > 0 && tile.height > 0 ==> {
            ||| tile.width * resampler.factor() > u32::MAX
            ||| tile.height * resampler.factor() > u32::MAX
            ||| !resize::resizable(
                resampler.filter(),
                tile.width as int,
                tile.height as int,
                tile.width * resampler.factor(),
                tile.height * resampler.factor(),
            )
        },
        resampler.tile_limit() is None,
{
}

/// What comes of upscaling is the image itself, or the message of the error.
pub proof fn law_outcomes_are_what_was_returned(r: Result<RgbaImage, BackendError>)
    ensures
        r matches Ok(img) ==> outcome(r) == Ok::<Raster, Seq<char>>(img@),
        r matches Err(e) ==> outcome(r) == Err::<Raster, Seq<char>>(e.message@),
{
}

} // verus!
