//! Super-resolution models: what they accept, and how a tile is put to them.
//!
//! Running a model is left to the caller, who hands over three functions: one
//! that turns a byte into a number, one that runs the model on a planar tensor,
//! and one that turns a number back into a byte. Everything around them is here:
//! reading the magnification off the model's shapes, fitting a tile to a fixed
//! input size, and making an image of what the model returns.

use std::marker::PhantomData;

use vstd::prelude::*;
use vstd::string::*;

use crate::backend;
use crate::backend::{BackendError, Upscaler};
use crate::planes;
use crate::raster;
use crate::raster::{Raster, RgbaImage};
use crate::resize;
use crate::text;

verus! {

/// Which execution providers to offer the runtime.
#[derive(Debug, Clone, Copy, PartialEq, Eq, Structural)]
pub enum Device {
    /// Register every provider there is, best first, falling back to the CPU.
    Auto,
    /// Force the CPU even when a GPU provider is available.
    Cpu,
}

impl Default for Device {
    fn default() -> (d: Self)
        ensures
            d == Device::Auto,
    {
        Device::Auto
    }
}

/// Why a model cannot be used.
#[derive(Debug, Clone, PartialEq, Eq)]
pub struct ModelError {
    pub message: String,
}

/// What is said when there is no model at the place shown as `path`.
pub open spec fn no_model_file(path: Seq<char>) -> Seq<char> {
    "no model file at "@ + path + " (pass --model with a path to a .onnx file)"@
}

/// Refuse a place where there is no file.
pub fn expect_model_file(path: &str, is_file: bool) -> (r: Result<(), ModelError>)
    ensures
        is_file ==> r is Ok,
        !is_file ==> (r matches Err(e) && e.message@ == no_model_file(path@)),
{
    if is_file {
        return Ok(());
    }
    let mut message = String::new();
    message.append("no model file at ");
    message.append(path);
    message.append(" (pass --model with a path to a .onnx file)");
    assert(message@ =~= no_model_file(path@));
    Err(ModelError { message })
}

/// Spatial dimensions a model accepts, when it fixes them.
#[derive(Debug, Clone, Copy, PartialEq, Eq, Structural)]
pub struct FixedInput {
    pub width: u32,
    pub height: u32,
}

/// The magnification that two static shapes tell of: the one whole number that
/// both output sides are of the input sides.
pub open spec fn inferred_scale(input: Seq<i64>, output: Seq<i64>) -> Option<u32> {
    let (iw, ih) = (input[3] as int, input[2] as int);
    let (ow, oh) = (output[3] as int, output[2] as int);
    if iw <= 0 || ih <= 0 || ow <= 0 || oh <= 0 {
        None
    } else if ow % iw != 0 || oh % ih != 0 || ow / iw != oh / ih || ow / iw > u32::MAX {
        None
    } else {
        Some((ow / iw) as u32)
    }
}

/// Read the magnification off the graph, when both shapes are static.
///
/// A model that scales the axes differently, or by a fraction, is not something
/// the pipeline can place correctly, so it is declined.
pub fn infer_scale(input: &[i64], output: &[i64]) -> (r: Option<u32>)
    requires
        input@.len() >= 4,
        output@.len() >= 4,
    ensures
        r == inferred_scale(input@, output@),
{
    if input[3] <= 0 || input[2] <= 0 || output[3] <= 0 || output[2] <= 0 {
        return None;
    }
    let iw: u64 = input[3] as u64;
    let ih: u64 = input[2] as u64;
    let ow: u64 = output[3] as u64;
    let oh: u64 = output[2] as u64;
    if ow % iw != 0 || oh % ih != 0 {
        return None;
    }
    let sx: u64 = ow / iw;
    let sy: u64 = oh / ih;
    if sx != sy || sx > u32::MAX as u64 {
        return None;
    }
    Some(sx as u32)
}

/// A static pair of shapes tells of a magnification exactly when multiplying both
/// input sides by it gives the output sides.
pub proof fn law_inferred_scale(input: Seq<i64>, output: Seq<i64>, scale: u32)
    requires
        input.len() >= 4,
        output.len() >= 4,
        input[3] > 0,
        input[2] > 0,
        output[3] > 0,
        output[2] > 0,
    ensures
        inferred_scale(input, output) == Some(scale) <==> {
            &&& output[3] == input[3] * scale
            &&& output[2] == input[2] * scale
        },
{
    let (iw, ih) = (input[3] as int, input[2] as int);
    let (ow, oh) = (output[3] as int, output[2] as int);
    let s: int = scale as int;
    assert(ow == iw * s ==> ow % iw == 0 && ow / iw == s) by (nonlinear_arith)
        requires
            iw > 0,
    ;
    assert(oh == ih * s ==> oh % ih == 0 && oh / ih == s) by (nonlinear_arith)
        requires
            ih > 0,
    ;
    assert(ow % iw == 0 && ow / iw == s ==> ow == iw * s) by (nonlinear_arith)
        requires
            iw > 0,
    ;
    assert(oh % ih == 0 && oh / ih == s ==> oh == ih * s) by (nonlinear_arith)
        requires
            ih > 0,
    ;
}

/// What is said of a model whose magnification nothing tells.
pub open spec fn scale_unknown() -> Seq<char> {
    "model has dynamic input and output shapes, so its scale factor cannot be read from the graph; pass --scale explicitly"@
}

/// What is said against a model with these shapes, run at the magnification
/// `given` where one is given.
pub open spec fn model_refusal(input: Seq<i64>, output: Seq<i64>, given: Option<u32>) -> Option<
    Seq<char>,
> {
    if input.len() != 4 || output.len() != 4 {
        Some(
            "expected 4-D NCHW tensors, got input "@ + text::shape_shown(input) + " and output "@
                + text::shape_shown(output),
        )
    } else if input[1] != 3 && input[1] != -1 {
        Some(
            "expected a 3-channel RGB input, got "@ + text::signed_decimal(input[1] as int)
                + " channels"@,
        )
    } else {
        match (given, inferred_scale(input, output)) {
            (Some(g), Some(f)) if g != f => Some(
                "model scales by "@ + text::decimal(f as nat) + "x but "@ + text::decimal(g as nat)
                    + "x was requested"@,
            ),
            (None, None) => Some(scale_unknown()),
            (Some(g), _) if g == 0 => Some("model scale factor must be >= 1, got 0"@),
            _ => None,
        }
    }
}

/// The magnification of a model that is not refused.
pub open spec fn model_scale(input: Seq<i64>, output: Seq<i64>, given: Option<u32>) -> u32 {
    match given {
        Some(g) => g,
        None => inferred_scale(input, output)->0,
    }
}

/// The input size that a model fixes. A dimension that is not positive is free.
pub open spec fn model_input(input: Seq<i64>) -> Option<FixedInput> {
    if input[3] > 0 && input[2] > 0 {
        Some(FixedInput { width: input[3] as u32, height: input[2] as u32 })
    } else {
        None
    }
}

/// Read what is needed off a model's shapes: the input size it fixes, and its
/// magnification.
pub fn read_shapes(input: &[i64], output: &[i64], given: Option<u32>) -> (r: Result<
    (Option<FixedInput>, u32),
    ModelError,
>)
    ensures
        match (model_refusal(input@, output@, given), r) {
            (Some(why), Err(e)) => e.message@ == why,
            (None, Ok((fixed, scale))) => {
                &&& fixed == model_input(input@)
                &&& scale == model_scale(input@, output@, given)
                &&& scale >= 1
            },
            _ => false,
        },
{
    let mut message = String::new();
    if input.len() != 4 || output.len() != 4 {
        message.append("expected 4-D NCHW tensors, got input ");
        message.append(text::shape_text(input).as_str());
        message.append(" and output ");
        message.append(text::shape_text(output).as_str());
        assert(message@ =~= model_refusal(input@, output@, given)->0);
        return Err(ModelError { message });
    }
    if input[1] != 3 && input[1] != -1 {
        message.append("expected a 3-channel RGB input, got ");
        message.append(text::signed_decimal_text(input[1]).as_str());
        message.append(" channels");
        assert(message@ =~= model_refusal(input@, output@, given)->0);
        return Err(ModelError { message });
    }
    let fixed = if input[3] > 0 && input[2] > 0 {
        Some(
            FixedInput {
                width: #[verifier::truncate] (input[3] as u32),
                height: #[verifier::truncate] (input[2] as u32),
            },
        )
    } else {
        None
    };
    let scale: u32 = match (given, infer_scale(input, output)) {
        (Some(g), Some(f)) => {
            if g != f {
                message.append("model scales by ");
                message.append(text::decimal_text(f).as_str());
                message.append("x but ");
                message.append(text::decimal_text(g).as_str());
                message.append("x was requested");
                assert(message@ =~= model_refusal(input@, output@, given)->0);
                return Err(ModelError { message });
            }
            g
        },
        (Some(g), None) => g,
        (None, Some(f)) => f,
        (None, None) => {
            message.append(
                "model has dynamic input and output shapes, so its scale factor cannot be read from the graph; pass --scale explicitly",
            );
            assert(message@ =~= scale_unknown());
            return Err(ModelError { message });
        },
    };
    proof {
        if given is None {
            lemma_inferred_is_positive(input@, output@);
        }
    }
    if scale < 1 {
        message.append("model scale factor must be >= 1, got 0");
        assert(message@ =~= "model scale factor must be >= 1, got 0"@);
        return Err(ModelError { message });
    }
    Ok((fixed, scale))
}

/// Sides that are positive multiples of positive sides are at least once as long.
proof fn lemma_inferred_is_positive(input: Seq<i64>, output: Seq<i64>)
    requires
        inferred_scale(input, output) is Some,
    ensures
        inferred_scale(input, output)->0 >= 1,
{
    let iw: int = input[3] as int;
    let ow: int = output[3] as int;
    assert(ow / iw >= 1) by (nonlinear_arith)
        requires
            iw > 0,
            ow > 0,
            ow % iw == 0,
    ;
}

/// The size that a tile is presented to a model at, or what is said of one that
/// is too large for it.
pub open spec fn presented(fixed: Option<FixedInput>, w: u32, h: u32) -> Result<
    (u32, u32),
    Seq<char>,
> {
    match fixed {
        None => Ok((w, h)),
        Some(f) => if w <= f.width && h <= f.height {
            Ok((f.width, f.height))
        } else {
            Err(
                "model accepts at most "@ + text::decimal(f.width as nat) + "x"@ + text::decimal(
                    f.height as nat,
                ) + " pixels but the tile is "@ + text::decimal(w as nat) + "x"@ + text::decimal(
                    h as nat,
                ) + "; rerun with --tile "@ + text::decimal(smaller_side(f) as nat),
            )
        },
    }
}

/// Tiles are square, so the smaller side governs.
pub open spec fn smaller_side(f: FixedInput) -> u32 {
    if f.width <= f.height {
        f.width
    } else {
        f.height
    }
}

/// Spatial size a tile must be presented at.
pub fn model_input_size(fixed: Option<FixedInput>, tile_w: u32, tile_h: u32) -> (r: Result<
    (u32, u32),
    BackendError,
>)
    ensures
        match (presented(fixed, tile_w, tile_h), r) {
            (Ok(size), Ok(got)) => got == size,
            (Err(why), Err(e)) => e.message@ == why,
            _ => false,
        },
{
    let f = match fixed {
        None => {
            return Ok((tile_w, tile_h));
        },
        Some(f) => f,
    };
    if tile_w <= f.width && tile_h <= f.height {
        return Ok((f.width, f.height));
    }
    let side: u32 = if f.width <= f.height {
        f.width
    } else {
        f.height
    };
    let mut message = String::new();
    message.append("model accepts at most ");
    message.append(text::decimal_text(f.width).as_str());
    message.append("x");
    message.append(text::decimal_text(f.height).as_str());
    message.append(" pixels but the tile is ");
    message.append(text::decimal_text(tile_w).as_str());
    message.append("x");
    message.append(text::decimal_text(tile_h).as_str());
    message.append("; rerun with --tile ");
    message.append(text::decimal_text(side).as_str());
    assert(message@ =~= presented(fixed, tile_w, tile_h)->Err_0);
    Err(BackendError { message })
}

/// What is said of a tile whose result cannot be held.
pub open spec fn too_large() -> Seq<char> {
    "the tile is too large to enlarge"@
}

/// Whether a model's output, of shape `dims` and with the values `data`, is made
/// into `out` for `tile`: decoded, freed of the padding, and given back the
/// alpha that the model never saw.
pub open spec fn assembles<T, D: Fn(T) -> u8>(
    tile: Raster,
    scale: u32,
    dims: Seq<i64>,
    data: Seq<T>,
    decode: D,
    out: Result<Raster, Seq<char>>,
) -> bool {
    let (w, h) = (tile.width * scale, tile.height * scale);
    let (mw, mh) = (dims[3] as u32, dims[2] as u32);
    if dims.len() != 4 {
        out == Err::<Raster, Seq<char>>(
            "expected a 4-D output tensor, got shape "@ + text::shape_shown(dims),
        )
    } else if w > u32::MAX || h > u32::MAX {
        out == Err::<Raster, Seq<char>>(too_large())
    } else if mw < w || mh < h {
        out == Err::<Raster, Seq<char>>(
            "model returned "@ + text::decimal(mw as nat) + "x"@ + text::decimal(mh as nat)
                + ", too small for a "@ + text::decimal(w as nat) + "x"@ + text::decimal(h as nat)
                + " result"@,
        )
    } else if 4 * (mw * mh) > isize::MAX || data.len() < 3 * (mw * mh) {
        out == Err::<Raster, Seq<char>>(
            "model returned too few values for "@ + text::decimal(mw as nat) + "x"@
                + text::decimal(mh as nat),
        )
    } else if !planes::opaque(tile) && !resize::resizable(
        resize::Filter::Lanczos3,
        tile.width as int,
        tile.height as int,
        w,
        h,
    ) {
        out == Err::<Raster, Seq<char>>(too_large())
    } else {
        &&& out matches Ok(o)
        &&& exists|rgb: Raster|
            {
                &&& #[trigger] planes::image_of(data, decode, rgb)
                &&& rgb.width == mw
                &&& rgb.height == mh
                &&& planes::alpha_restored(rgb.crop(0, 0, w as u32, h as u32), tile, o)
            }
    }
}

/// Make an image of what a model returned for `tile`.
pub fn assemble<T: Copy, D: Fn(T) -> u8>(
    tile: &RgbaImage,
    scale: u32,
    dims: &Vec<i64>,
    data: &Vec<T>,
    decode: &D,
) -> (r: Result<RgbaImage, BackendError>)
    requires
        forall|t: T| #[trigger] call_requires(decode, (t,)),
    ensures
        assembles(tile@, scale, dims@, data@, *decode, backend::outcome(r)),
{
    let (tw, th) = tile.dimensions();
    let mut message = String::new();
    if dims.len() != 4 {
        message.append("expected a 4-D output tensor, got shape ");
        message.append(text::shape_text(dims.as_slice()).as_str());
        assert(message@ =~= "expected a 4-D output tensor, got shape "@ + text::shape_shown(dims@));
        return Err(BackendError { message });
    }
    let mh: u32 = #[verifier::truncate] (dims[2] as u32);
    let mw: u32 = #[verifier::truncate] (dims[3] as u32);
    let (w, h): (u32, u32) = match (tw.checked_mul(scale), th.checked_mul(scale)) {
        (Some(w), Some(h)) => (w, h),
        _ => {
            return Err(BackendError::new("the tile is too large to enlarge"));
        },
    };
    if mw < w || mh < h {
        message.append("model returned ");
        message.append(text::decimal_text(mw).as_str());
        message.append("x");
        message.append(text::decimal_text(mh).as_str());
        message.append(", too small for a ");
        message.append(text::decimal_text(w).as_str());
        message.append("x");
        message.append(text::decimal_text(h).as_str());
        message.append(" result");
        assert(message@ =~= "model returned "@ + text::decimal(mw as nat) + "x"@ + text::decimal(
            mh as nat,
        ) + ", too small for a "@ + text::decimal(w as nat) + "x"@ + text::decimal(h as nat)
            + " result"@);
        return Err(BackendError { message });
    }
    proof {
        assert(0 <= mw as u128 * mh as u128 <= 0xffff_ffff * 0xffff_ffff) by (nonlinear_arith)
            requires
                mw <= u32::MAX,
                mh <= u32::MAX,
        ;
    }
    let plane: u128 = mw as u128 * mh as u128;
    if 4 * plane > isize::MAX as u128 || (data.len() as u128) < 3 * plane {
        message.append("model returned too few values for ");
        message.append(text::decimal_text(mw).as_str());
        message.append("x");
        message.append(text::decimal_text(mh).as_str());
        assert(message@ =~= "model returned too few values for "@ + text::decimal(mw as nat) + "x"@
            + text::decimal(mh as nat));
        return Err(BackendError { message });
    }
    if !planes::is_opaque(tile) && !resize::can_resize(
        resize::Filter::Lanczos3,
        tw,
        th,
        w,
        h,
    ) {
        return Err(BackendError::new("the tile is too large to enlarge"));
    }
    let rgb = planes::from_nchw(data, mw, mh, decode);
    let cropped = rgb.crop(0, 0, w, h);
    let out = planes::reattach_alpha(cropped, tile, scale);
    proof {
        assert(planes::image_of(data@, *decode, rgb@));
    }
    Ok(out)
}

/// A super-resolution model as a backend.
#[verifier::reject_recursive_types(T)]
pub struct OnnxBackend<
    T,
    E: Fn(u8) -> T,
    I: Fn(Vec<T>, u32, u32) -> Result<(Vec<i64>, Vec<T>), BackendError>,
    D: Fn(T) -> u8,
> {
    encode: E,
    infer: I,
    decode: D,
    fixed_input: Option<FixedInput>,
    scale: u32,
    name: String,
    values: PhantomData<T>,
}

impl<
    T,
    E: Fn(u8) -> T,
    I: Fn(Vec<T>, u32, u32) -> Result<(Vec<i64>, Vec<T>), BackendError>,
    D: Fn(T) -> u8,
> OnnxBackend<T, E, I, D> {
    /// The function that turns bytes into numbers.
    pub closed spec fn encode(self) -> E {
        self.encode
    }

    /// The function that runs the model.
    pub closed spec fn infer(self) -> I {
        self.infer
    }

    /// The function that turns numbers into bytes.
    pub closed spec fn decode(self) -> D {
        self.decode
    }

    /// The input size that the model fixes.
    pub closed spec fn fixed_input(self) -> Option<FixedInput> {
        self.fixed_input
    }

    pub closed spec fn scale(self) -> u32 {
        self.scale
    }

    pub closed spec fn name_text(self) -> Seq<char> {
        self.name@
    }

    /// The functions take whatever they are handed.
    #[verifier::type_invariant]
    spec fn callable(self) -> bool {
        &&& forall|b: u8| #[trigger] call_requires(self.encode, (b,))
        &&& forall|p: Vec<T>, w: u32, h: u32| #[trigger] call_requires(self.infer, (p, w, h))
        &&& forall|t: T| #[trigger] call_requires(self.decode, (t,))
    }

    /// A backend for the model in a file named `stem`, whose first input and first
    /// output have these shapes.
    ///
    /// `scale_override` is only needed for models whose input and output shapes
    /// are both dynamic, where the factor cannot be read off the graph.
    pub fn new(
        stem: Option<&str>,
        in_shape: &[i64],
        out_shape: &[i64],
        scale_override: Option<u32>,
        encode: E,
        infer: I,
        decode: D,
    ) -> (r: Result<Self, ModelError>)
        requires
            forall|b: u8| #[trigger] call_requires(encode, (b,)),
            forall|p: Vec<T>, w: u32, h: u32| #[trigger] call_requires(infer, (p, w, h)),
            forall|t: T| #[trigger] call_requires(decode, (t,)),
        ensures
            match (model_refusal(in_shape@, out_shape@, scale_override), r) {
                (Some(why), Err(e)) => e.message@ == why,
                (None, Ok(b)) => {
                    &&& b.encode() == encode
                    &&& b.infer() == infer
                    &&& b.decode() == decode
                    &&& b.fixed_input() == model_input(in_shape@)
                    &&& b.scale() == model_scale(in_shape@, out_shape@, scale_override)
                    &&& b.scale() >= 1
                    &&& b.name_text() == "onnx:"@ + (match stem {
                        Some(s) => s@,
                        None => "model"@,
                    })
                },
                _ => false,
            },
    {
        match read_shapes(in_shape, out_shape, scale_override) {
            Err(e) => Err(e),
            Ok((fixed_input, scale)) => {
                let mut name = String::new();
                name.append("onnx:");
                match stem {
                    Some(s) => {
                        name.append(s);
                    },
                    None => {
                        name.append("model");
                    },
                }
                assert(name@ =~= "onnx:"@ + (match stem {
                    Some(s) => s@,
                    None => "model"@,
                }));
                Ok(
                    OnnxBackend {
                        encode,
                        infer,
                        decode,
                        fixed_input,
                        scale,
                        name,
                        values: PhantomData,
                    },
                )
            },
        }
    }

    /// Whether the model can be run on `tile`, padded to `w` x `h`, with `out`
    /// made of its reply.
    pub open spec fn runs(self, tile: Raster, w: u32, h: u32, out: Result<Raster, Seq<char>>) -> bool {
        exists|values: Vec<T>, reply: Result<(Vec<i64>, Vec<T>), BackendError>|
            {
                &&& planes::planes_of(planes::padded(tile, w, h), self.encode(), values@)
                &&& #[trigger] call_ensures(self.infer(), (values, w, h), reply)
                &&& match reply {
                    Err(e) => out == Err::<Raster, Seq<char>>(e.message@),
                    Ok((dims, data)) => assembles(
                        tile,
                        self.scale(),
                        dims@,
                        data@,
                        self.decode(),
                        out,
                    ),
                }
            }
    }
}

impl<
    T: Copy + Send + Sync,
    E: Fn(u8) -> T + Send + Sync,
    I: Fn(Vec<T>, u32, u32) -> Result<(Vec<i64>, Vec<T>), BackendError> + Send + Sync,
    D: Fn(T) -> u8 + Send + Sync,
> Upscaler for OnnxBackend<T, E, I, D> {
    open spec fn label(&self) -> Seq<char> {
        self.name_text()
    }

    open spec fn factor(&self) -> u32 {
        self.scale()
    }

    open spec fn tile_limit(&self) -> Option<u32> {
        match self.fixed_input() {
            Some(f) => Some(smaller_side(f)),
            None => None,
        }
    }

    open spec fn gives(&self, tile: Raster, out: Result<Raster, Seq<char>>) -> bool {
        if tile.is_empty() {
            out == Err::<Raster, Seq<char>>("cannot upscale a zero-sized tile"@)
        } else {
            match presented(self.fixed_input(), tile.width, tile.height) {
                Err(why) => out == Err::<Raster, Seq<char>>(why),
                Ok((w, h)) => if 4 * (w * h) > isize::MAX {
                    out == Err::<Raster, Seq<char>>("the model's input is too large to hold"@)
                } else {
                    self.runs(tile, w, h, out)
                },
            }
        }
    }

    fn name(&self) -> (n: &str) {
        self.name.as_str()
    }

    fn scale_factor(&self) -> (s: u32) {
        self.scale
    }

    fn preferred_tile(&self) -> (t: Option<u32>) {
        match self.fixed_input {
            Some(f) => if f.width <= f.height {
                Some(f.width)
            } else {
                Some(f.height)
            },
            None => None,
        }
    }

    fn upscale(&self, tile: &RgbaImage) -> (r: Result<RgbaImage, BackendError>) {
        proof {
            use_type_invariant(self);
        }
        let (tw, th) = tile.dimensions();
        if tw == 0 || th == 0 {
            return Err(BackendError::new("cannot upscale a zero-sized tile"));
        }
        let (mw, mh): (u32, u32) = match model_input_size(self.fixed_input, tw, th) {
            Err(e) => {
                return Err(e);
            },
            Ok(size) => size,
        };
        proof {
            assert(0 <= mw as u128 * mh as u128 <= 0xffff_ffff * 0xffff_ffff) by (nonlinear_arith)
                requires
                    mw <= u32::MAX,
                    mh <= u32::MAX,
            ;
        }
        if 4 * (mw as u128 * mh as u128) > isize::MAX as u128 {
            return Err(BackendError::new("the model's input is too large to hold"));
        }
        let padded = if mw == tw && mh == th {
            proof {
                planes::law_padding_to_own_size(tile@);
            }
            tile.clone()
        } else {
            planes::pad_replicate(tile, mw, mh)
        };
        let values = planes::to_nchw(&padded, &self.encode);
        let ghost handed = values;
        let reply = (self.infer)(values, mw, mh);
        let ghost replied = reply;
        let r = match reply {
            Err(e) => Err(e),
            Ok((dims, data)) => assemble(tile, self.scale, &dims, &data, &self.decode),
        };
        proof {
            assert(planes::planes_of(planes::padded(tile@, mw, mh), self.encode(), handed@));
            assert(call_ensures(self.infer(), (handed, mw, mh), replied));
            assert(self.runs(tile@, mw, mh, backend::outcome(r)));
        }
        r
    }
}

/// What a model makes of a tile is exactly the magnification times as large.
pub proof fn law_result_is_magnified<
    T: Copy + Send + Sync,
    E: Fn(u8) -> T + Send + Sync,
    I: Fn(Vec<T>, u32, u32) -> Result<(Vec<i64>, Vec<T>), BackendError> + Send + Sync,
    D: Fn(T) -> u8 + Send + Sync,
>(model: OnnxBackend<T, E, I, D>, tile: Raster, out: Raster)
    requires
        model.gives(tile, Ok(out)),
    ensures
        out.width == tile.width * model.factor(),
        out.height == tile.height * model.factor(),
{
}

/// Opaque tiles stay opaque.
pub proof fn law_opaque_tiles_stay_opaque<
    T: Copy + Send + Sync,
    E: Fn(u8) -> T + Send + Sync,
    I: Fn(Vec<T>, u32, u32) -> Result<(Vec<i64>, Vec<T>), BackendError> + Send + Sync,
    D: Fn(T) -> u8 + Send + Sync,
>(model: OnnxBackend<T, E, I, D>, tile: Raster, out: Raster)
    requires
        model.gives(tile, Ok(out)),
        planes::opaque(tile),
    ensures
        planes::opaque(out),
{
    let size = presented(model.fixed_input(), tile.width, tile.height);
    let (mw, mh) = size->Ok_0;
    let (values, reply) = choose|values: Vec<T>, reply: Result<(Vec<i64>, Vec<T>), BackendError>|
        {
            &&& planes::planes_of(planes::padded(tile, mw, mh), model.encode(), values@)
            &&& #[trigger] call_ensures(model.infer(), (values, mw, mh), reply)
            &&& match reply {
                Err(e) => Ok::<Raster, Seq<char>>(out) == Err::<Raster, Seq<char>>(e.message@),
                Ok((dims, data)) => assembles(
                    tile,
                    model.scale(),
                    dims@,
                    data@,
                    model.decode(),
                    Ok(out),
                ),
            }
        };
    let data = reply->Ok_0.1@;
    let (w, h) = (tile.width * model.scale(), tile.height * model.scale());
    let dims = reply->Ok_0.0@;
    let rgb = choose|rgb: Raster|
        {
            &&& #[trigger] planes::image_of(data, model.decode(), rgb)
            &&& rgb.width == dims[3] as u32
            &&& rgb.height == dims[2] as u32
            &&& planes::alpha_restored(rgb.crop(0, 0, w as u32, h as u32), tile, out)
        };
    planes::lemma_crop_stays_opaque(rgb, w as u32, h as u32);
}

/// Padding leaves no trace: a model that returns what it was handed leaves an opaque
/// tile as it was, whatever size it was padded to.
pub proof fn law_padding_is_cut_off<T, E: Fn(u8) -> T, D: Fn(T) -> u8>(
    tile: Raster,
    w: u32,
    h: u32,
    encode: E,
    decode: D,
    dims: Seq<i64>,
    data: Seq<T>,
    out: Raster,
)
    requires
        tile.valid(),
        !tile.is_empty(),
        planes::opaque(tile),
        tile.width <= w,
        tile.height <= h,
        planes::undoes(encode, decode),
        planes::planes_of(planes::padded(tile, w, h), encode, data),
        dims.len() == 4,
        dims[3] as u32 == w,
        dims[2] as u32 == h,
        assembles(tile, 1, dims, data, decode, Ok(out)),
    ensures
        out == tile,
{
    let big = planes::padded(tile, w, h);
    let f = |x: int, y: int|
        tile.pixel(
            planes::clamped_to(x, tile.width as int),
            planes::clamped_to(y, tile.height as int),
        );
    raster::lemma_from_fn_valid(w, h, f);
    planes::lemma_padded_stays_opaque(tile, w, h);
    let rgb = choose|rgb: Raster|
        {
            &&& #[trigger] planes::image_of(data, decode, rgb)
            &&& rgb.width == w
            &&& rgb.height == h
            &&& planes::alpha_restored(rgb.crop(0, 0, tile.width, tile.height), tile, out)
        };
    planes::law_planes_round_trip(big, encode, data, decode, rgb);
    let g = |u: int, v: int| rgb.pixel(0 + u, 0 + v);
    raster::lemma_from_fn_valid(tile.width, tile.height, g);
    assert forall|x: int, y: int| 0 <= x < tile.width && 0 <= y < tile.height implies out.pixel(
        x,
        y,
    ) == tile.pixel(x, y) by {
        raster::lemma_from_fn_pixel(tile.width, tile.height, g, x, y);
        raster::lemma_from_fn_pixel(w, h, f, x, y);
    }
    raster::lemma_same_pixels(out, tile);
}

/// A model fixes its input size exactly where neither dimension is free, square or not,
/// and then its width is the last dimension and its height the one before.
pub proof fn law_input_size_is_read_off(input: Seq<i64>)
    requires
        input.len() == 4,
    ensures
        1 <= input[2] <= u32::MAX && 1 <= input[3] <= u32::MAX ==> {
            &&& model_input(input) matches Some(f)
            &&& f.width == input[3]
            &&& f.height == input[2]
        },
        model_input(input) is None <==> input[2] <= 0 || input[3] <= 0,
{
}

/// Which models are taken, and at what magnification: four dimensions each way, three
/// channels or any number of them, and a magnification `f` that the shapes tell, unless
/// another is asked for; where they tell none, the one that is asked for, but not zero.
pub proof fn law_models_that_are_taken(
    input: Seq<i64>,
    output: Seq<i64>,
    given: Option<u32>,
    f: u32,
)
    ensures
        ({
            let taken = model_refusal(input, output, given) is None;
            let scale = model_scale(input, output, given);
            let shaped = input.len() == 4 && output.len() == 4 && (input[1] == 3 || input[1]
                == -1);
            let fixed = input[3] > 0 && input[2] > 0 && output[3] > 0 && output[2] > 0;
            &&& taken ==> shaped && scale >= 1
            &&& shaped && fixed && output[3] == input[3] * f && output[2] == input[2] * f ==> {
                &&& given is None ==> taken && scale == f
                &&& given matches Some(g) ==> (taken <==> g == f)
            }
            &&& taken && given is None ==> {
                &&& fixed
                &&& output[3] == input[3] * scale
                &&& output[2] == input[2] * scale
            }
            &&& given matches Some(g) ==> {
                &&& taken ==> scale == g
                &&& shaped && !taken && g >= 1 ==> {
                    let told = inferred_scale(input, output)->0;
                    &&& told != g
                    &&& fixed
                    &&& output[3] == input[3] * told
                    &&& output[2] == input[2] * told
                }
            }
        }),
{
    if input.len() == 4 && output.len() == 4 {
        let found = inferred_scale(input, output);
        if input[3] > 0 && input[2] > 0 && output[3] > 0 && output[2] > 0 {
            law_inferred_scale(input, output, f);
            if let Some(told) = found {
                lemma_inferred_is_positive(input, output);
                law_inferred_scale(input, output, told);
            }
        }
    }
}

/// A tile is put to a model at the size that the model fixes, or at its own where it
/// fixes none: padded to it, never cut, and the model is run at that size and no other.
/// The tile that suits it is the shorter side of what it fixes.
pub proof fn law_models_are_run_at_their_size<
    T: Copy + Send + Sync,
    E: Fn(u8) -> T + Send + Sync,
    I: Fn(Vec<T>, u32, u32) -> Result<(Vec<i64>, Vec<T>), BackendError> + Send + Sync,
    D: Fn(T) -> u8 + Send + Sync,
>(model: OnnxBackend<T, E, I, D>, input: Seq<i64>, tile: Raster, out: Raster)
    requires
        input.len() == 4,
        model.fixed_input() == model_input(input),
        input[2] <= u32::MAX,
        input[3] <= u32::MAX,
    ensures
        input[2] > 0 && input[3] > 0 ==> {
            &&& model.tile_limit() == Some(
                if input[3] <= input[2] {
                    input[3] as u32
                } else {
                    input[2] as u32
                },
            )
            &&& model.gives(tile, Ok(out)) ==> {
                &&& 0 < tile.width <= input[3]
                &&& 0 < tile.height <= input[2]
                &&& exists|values: Vec<T>, dims: Vec<i64>, data: Vec<T>|
                    #![trigger call_ensures(model.infer(), (values, input[3] as u32, input[2] as u32), Ok((dims, data)))]
                    {
                        &&& planes::planes_of(
                            planes::padded(tile, input[3] as u32, input[2] as u32),
                            model.encode(),
                            values@,
                        )
                        &&& call_ensures(
                            model.infer(),
                            (values, input[3] as u32, input[2] as u32),
                            Ok((dims, data)),
                        )
                        &&& assembles(tile, model.scale(), dims@, data@, model.decode(), Ok(out))
                    }
            }
        },
        input[2] <= 0 || input[3] <= 0 ==> {
            &&& model.tile_limit() is None
            &&& model.gives(tile, Ok(out)) ==> {
                &&& 0 < tile.width
                &&& 0 < tile.height
                &&& exists|values: Vec<T>, dims: Vec<i64>, data: Vec<T>|
                    #![trigger call_ensures(model.infer(), (values, tile.width, tile.height), Ok((dims, data)))]
                    {
                        &&& planes::planes_of(
                            planes::padded(tile, tile.width, tile.height),
                            model.encode(),
                            values@,
                        )
                        &&& call_ensures(
                            model.infer(),
                            (values, tile.width, tile.height),
                            Ok((dims, data)),
                        )
                        &&& assembles(tile, model.scale(), dims@, data@, model.decode(), Ok(out))
                    }
            }
        },
{
    if model.gives(tile, Ok(out)) {
        let (w, h) = if input[2] > 0 && input[3] > 0 {
            (input[3] as u32, input[2] as u32)
        } else {
            (tile.width, tile.height)
        };
        assert(model.runs(tile, w, h, Ok(out)));
        let (values, reply) = choose|
            values: Vec<T>,
            reply: Result<(Vec<i64>, Vec<T>), BackendError>,
        |
            {
                &&& planes::planes_of(planes::padded(tile, w, h), model.encode(), values@)
                &&& #[trigger] call_ensures(model.infer(), (values, w, h), reply)
                &&& match reply {
                    Err(e) => Ok::<Raster, Seq<char>>(out) == Err::<Raster, Seq<char>>(e.message@),
                    Ok((dims, data)) => assembles(
                        tile,
                        model.scale(),
                        dims@,
                        data@,
                        model.decode(),
                        Ok(out),
                    ),
                }
            };
        let (dims, data) = reply->Ok_0;
        assert(call_ensures(model.infer(), (values, w, h), Ok((dims, data))));
    }
}

/// A model is not to blame for a tile that fits: what is refused before it runs is a tile
/// without pixels, one larger than the size it fixes, or an input that cannot be held;
/// what is said otherwise is what running it said.
pub proof fn law_models_refuse_only_what_does_not_fit<
    T: Copy + Send + Sync,
    E: Fn(u8) -> T + Send + Sync,
    I: Fn(Vec<T>, u32, u32) -> Result<(Vec<i64>, Vec<T>), BackendError> + Send + Sync,
    D: Fn(T) -> u8 + Send + Sync,
>(model: OnnxBackend<T, E, I, D>, tile: Raster, w: u32, h: u32, why: Seq<char>)
    requires
        model.gives(tile, Err(why)),
        tile.width > 0,
        tile.height > 0,
        model.fixed_input() matches Some(f) ==> w == f.width && h == f.height,
        model.fixed_input() is None ==> w == tile.width && h == tile.height,
        tile.width <= w,
        tile.height <= h,
        4 * (w * h) <= isize::MAX,
    ensures
        exists|values: Vec<T>, reply: Result<(Vec<i64>, Vec<T>), BackendError>|
            {
                &&& #[trigger] call_ensures(model.infer(), (values, w, h), reply)
                &&& reply matches Err(e) ==> e.message@ == why
                &&& reply matches Ok((dims, data)) ==> assembles(
                    tile,
                    model.scale(),
                    dims@,
                    data@,
                    model.decode(),
                    Err(why),
                )
            },
{
    assert(model.runs(tile, w, h, Err(why)));
    let (values, reply) = choose|values: Vec<T>, reply: Result<(Vec<i64>, Vec<T>), BackendError>|
        {
            &&& planes::planes_of(planes::padded(tile, w, h), model.encode(), values@)
            &&& #[trigger] call_ensures(model.infer(), (values, w, h), reply)
            &&& match reply {
                Err(e) => Err::<Raster, Seq<char>>(why) == Err::<Raster, Seq<char>>(e.message@),
                Ok((dims, data)) => assembles(
                    tile,
                    model.scale(),
                    dims@,
                    data@,
                    model.decode(),
                    Err(why),
                ),
            }
        };
    assert(call_ensures(model.infer(), (values, w, h), reply));
}

/// The pixels of a result are the model's, from the upper left corner on, so that padding
/// is cut off on the right and below: at column `x` and row `y` the colours that stand
/// there in the three planes of `mw` x `mh` values. The alpha of an opaque tile is full,
/// and otherwise its own, resampled.
pub proof fn law_result_shows_what_the_model_returned<T, D: Fn(T) -> u8>(
    tile: Raster,
    scale: u32,
    dims: Seq<i64>,
    data: Seq<T>,
    decode: D,
    out: Raster,
    x: int,
    y: int,
)
    requires
        dims.len() == 4,
        0 <= dims[2] <= u32::MAX,
        0 <= dims[3] <= u32::MAX,
        assembles(tile, scale, dims, data, decode, Ok(out)),
        0 <= x < out.width,
        0 <= y < out.height,
    ensures
        ({
            let (mw, mh) = (dims[3] as int, dims[2] as int);
            let (p, q) = (y * out.width + x, y * mw + x);
            &&& out.width == tile.width * scale
            &&& out.height == tile.height * scale
            &&& out.width <= mw
            &&& out.height <= mh
            &&& data.len() >= 3 * (mw * mh)
            &&& call_ensures(decode, (data[q],), out.data[4 * p])
            &&& call_ensures(decode, (data[mw * mh + q],), out.data[4 * p + 1])
            &&& call_ensures(decode, (data[2 * (mw * mh) + q],), out.data[4 * p + 2])
            &&& (forall|i: int|
                0 <= i < tile.width * tile.height ==> #[trigger] tile.data[4 * i + 3] == 255)
                ==> out.data[4 * p + 3] == 255
            &&& (exists|i: int|
                0 <= i < tile.width * tile.height && #[trigger] tile.data[4 * i + 3] != 255)
                ==> resize::resize_gives(
                1,
                resize::Filter::Lanczos3,
                tile.width,
                tile.height,
                Seq::new((tile.width * tile.height) as nat, |i: int| tile.data[4 * i + 3]),
                out.width,
                out.height,
                Seq::new((out.width * out.height) as nat, |i: int| out.data[4 * i + 3]),
            )
        }),
{
    let (w, h) = (tile.width * scale, tile.height * scale);
    let (mw, mh) = (dims[3] as u32, dims[2] as u32);
    let rgb = choose|rgb: Raster|
        {
            &&& #[trigger] planes::image_of(data, decode, rgb)
            &&& rgb.width == mw
            &&& rgb.height == mh
            &&& planes::alpha_restored(rgb.crop(0, 0, w as u32, h as u32), tile, out)
        };
    assert(0 <= w && 0 <= h) by (nonlinear_arith)
        requires
            w == tile.width * scale,
            h == tile.height * scale,
    ;
    let part = rgb.crop(0, 0, w as u32, h as u32);
    raster::law_crop_is_a_window(rgb, 0, 0, w as u32, h as u32);
    planes::law_alpha_is_given_back(part, tile, out);
    let (p, q) = (y * out.width + x, y * mw + x);
    raster::lemma_reading_order_bound(w, h, x, y);
    raster::lemma_reading_order_bound(mw as int, mh as int, x, y);
    planes::law_images_are_red_green_blue(data, decode, rgb, q);
    assert(out.data[4 * p] == part.data[4 * p]);
    assert(part.data[4 * (y * (w as u32) + x) + 0] == rgb.data[4 * ((0 + y) * rgb.width + (0 + x))
        + 0]);
    assert(part.data[4 * (y * (w as u32) + x) + 1] == rgb.data[4 * ((0 + y) * rgb.width + (0 + x))
        + 1]);
    assert(part.data[4 * (y * (w as u32) + x) + 2] == rgb.data[4 * ((0 + y) * rgb.width + (0 + x))
        + 2]);
    assert(part.data[4 * (y * (w as u32) + x) + 3] == rgb.data[4 * ((0 + y) * rgb.width + (0 + x))
        + 3]);
}

/// A reply that is large enough is always made into a result.
pub proof fn law_replies_are_made_into_results<T, D: Fn(T) -> u8>(
    tile: Raster,
    scale: u32,
    dims: Seq<i64>,
    data: Seq<T>,
    decode: D,
    out: Result<Raster, Seq<char>>,
)
    requires
        assembles(tile, scale, dims, data, decode, out),
        dims.len() == 4,
        tile.width * scale <= dims[3] <= u32::MAX,
        tile.height * scale <= dims[2] <= u32::MAX,
        4 * (dims[3] * dims[2]) <= isize::MAX,
        data.len() >= 3 * (dims[3] * dims[2]),
        planes::opaque(tile) || resize::resizable(
            resize::Filter::Lanczos3,
            tile.width as int,
            tile.height as int,
            tile.width * scale,
            tile.height * scale,
        ),
    ensures
        out is Ok,
{
}

/// A tile that is larger than what a model fixes is refused, and the message tells the
/// tile size that does fit: the shorter side. Any other tile is taken.
pub proof fn law_large_tiles_are_told_what_fits(f: FixedInput, w: u32, h: u32, side: u32)
    requires
        side == f.width || side == f.height,
        side <= f.width,
        side <= f.height,
    ensures
        w <= f.width && h <= f.height ==> presented(Some(f), w, h) == Ok::<(u32, u32), Seq<char>>(
            (f.width, f.height),
        ),
        w > f.width || h > f.height ==> presented(Some(f), w, h) == Err::<(u32, u32), Seq<char>>(
            "model accepts at most "@ + text::decimal(f.width as nat) + "x"@ + text::decimal(
                f.height as nat,
            ) + " pixels but the tile is "@ + text::decimal(w as nat) + "x"@ + text::decimal(
                h as nat,
            ) + "; rerun with --tile "@ + text::decimal(side as nat),
        ),
        presented(None, w, h) == Ok::<(u32, u32), Seq<char>>((w, h)),
{
}

/// What is said of a model that is refused: the first of its faults.
pub proof fn law_refused_models_are_told_why(
    input: Seq<i64>,
    output: Seq<i64>,
    given: Option<u32>,
    f: u32,
)
    ensures
        ({
            let why = model_refusal(input, output, given);
            let sized = input.len() == 4 && output.len() == 4;
            let shaped = sized && (input[1] == 3 || input[1] == -1);
            let fixed = input[3] > 0 && input[2] > 0 && output[3] > 0 && output[2] > 0;
            &&& !sized ==> why == Some(
                "expected 4-D NCHW tensors, got input "@ + text::shape_shown(input)
                    + " and output "@ + text::shape_shown(output),
            )
            &&& sized && !shaped ==> why == Some(
                "expected a 3-channel RGB input, got "@ + text::signed_decimal(input[1] as int)
                    + " channels"@,
            )
            &&& shaped && fixed && output[3] == input[3] * f && output[2] == input[2] * f ==> (
            given matches Some(g) && g != f ==> why == Some(
                "model scales by "@ + text::decimal(f as nat) + "x but "@ + text::decimal(
                    given->0 as nat,
                ) + "x was requested"@,
            ))
            &&& shaped && !fixed && given is None ==> why == Some(
                "model has dynamic input and output shapes, so its scale factor cannot be read from the graph; pass --scale explicitly"@,
            )
            &&& shaped && !fixed && given == Some(0u32) ==> why == Some(
                "model scale factor must be >= 1, got 0"@,
            )
        }),
{
    if input.len() == 4 && output.len() == 4 && input[3] > 0 && input[2] > 0 && output[3] > 0
        && output[2] > 0 {
        law_inferred_scale(input, output, f);
    }
}

} // verus!
