//! Destinations for finished output rows.
//!
//! Holding a whole result in memory puts a hard ceiling on image size. Handing
//! finished rows straight to a sink lets the pipeline keep only the rows still
//! being worked on.
//!
//! Rows arrive strictly top to bottom and are never revisited, which is exactly
//! what an image encoder wants.

use vstd::prelude::*;
use vstd::string::*;

use crate::raster::{Raster, RgbaImage};
use crate::text;

verus! {

/// Why a sink did not take rows.
#[derive(Debug, Clone, PartialEq, Eq)]
pub struct SinkError {
    pub message: String,
}

/// A call that a sink has answered with success.
pub enum SinkCall {
    /// Rows were handed over.
    Rows { bytes: Seq<u8> },
    /// The sink was closed.
    Finish,
}

/// Somewhere finished RGBA8 rows can go.
///
/// The functions before `write_rows` say in proofs what a sink does. A sink outside
/// the proofs can leave them out and still be written to. Each is then a constant, and
/// the contract below cannot be met: nothing that is proved of a run holds of what such
/// a sink was handed.
pub trait RowSink {
    /// The bytes it has taken so far.
    closed spec fn written(&self) -> Seq<u8> {
        arbitrary()
    }

    /// The calls it has answered with success so far, in order.
    closed spec fn calls(&self) -> Seq<SinkCall> {
        arbitrary()
    }

    /// Whether, as it stands, it can refuse a call with `e`.
    closed spec fn refuses(&self, e: SinkError) -> bool {
        arbitrary()
    }

    /// Whether it has been closed.
    closed spec fn closed(&self) -> bool {
        arbitrary()
    }

    /// Whether it takes whatever it is handed.
    closed spec fn always_takes(&self) -> bool {
        arbitrary()
    }

    /// The width and height of the image it was opened for.
    closed spec fn size(&self) -> (u32, u32) {
        arbitrary()
    }

    /// Accept one or more complete rows, top to bottom, 4 bytes per pixel.
    fn write_rows(&mut self, rgba: &[u8]) -> (r: Result<(), SinkError>)
        ensures
            r is Ok ==> final(self).written() == old(self).written() + rgba@,
            r is Ok ==> final(self).calls() == old(self).calls().push(
                SinkCall::Rows { bytes: rgba@ },
            ),
            r is Ok ==> final(self).closed() == old(self).closed(),
            r matches Err(e) ==> old(self).refuses(e),
            old(self).always_takes() ==> r is Ok && final(self).always_takes(),
            final(self).size() == old(self).size(),
    ;

    /// Flush and close. Must be called once, after the last row.
    fn finish(&mut self) -> (r: Result<(), SinkError>)
        ensures
            r is Ok ==> final(self).written() == old(self).written() && final(self).closed(),
            r is Ok ==> final(self).calls() == old(self).calls().push(SinkCall::Finish),
            r matches Err(e) ==> old(self).refuses(e),
            old(self).always_takes() ==> r is Ok && final(self).always_takes(),
            final(self).size() == old(self).size(),
    ;
}

/// A sink that does not hold what its image needs.
#[derive(Debug, Clone, Copy, PartialEq, Eq, Structural)]
pub struct IncompleteImage {
    pub held: usize,
    pub width: u32,
    pub height: u32,
    pub needed: usize,
}

impl IncompleteImage {
    /// What is said of the error.
    pub open spec fn wording(self) -> Seq<char> {
        "sink holds "@ + text::decimal(self.held as nat) + " bytes but "@ + text::decimal(
            self.width as nat,
        ) + "x"@ + text::decimal(self.height as nat) + " needs "@ + text::decimal(
            self.needed as nat,
        )
    }

    /// What is said of the error.
    pub fn message(&self) -> (s: String)
        ensures
            s@ == self.wording(),
    {
        let mut s = String::new();
        s.append("sink holds ");
        s.append(text::decimal_text_u64(self.held as u64).as_str());
        s.append(" bytes but ");
        s.append(text::decimal_text(self.width).as_str());
        s.append("x");
        s.append(text::decimal_text(self.height).as_str());
        s.append(" needs ");
        s.append(text::decimal_text_u64(self.needed as u64).as_str());
        assert(s@ =~= self.wording());
        s
    }
}

/// Collects rows into an image in memory.
///
/// Suitable for images that comfortably fit, and for intermediate passes.
pub struct MemorySink {
    width: u32,
    height: u32,
    buf: Vec<u8>,
    done: bool,
    answered: Ghost<Seq<SinkCall>>,
}

impl MemorySink {
    pub closed spec fn width(self) -> u32 {
        self.width
    }

    pub closed spec fn height(self) -> u32 {
        self.height
    }

    /// The bytes collected so far.
    pub closed spec fn bytes(self) -> Seq<u8> {
        self.buf@
    }

    pub closed spec fn done(self) -> bool {
        self.done
    }

    /// The calls answered so far.
    pub closed spec fn answered(self) -> Seq<SinkCall> {
        self.answered@
    }

    /// The size of the whole image can be counted.
    #[verifier::type_invariant]
    spec fn countable(self) -> bool {
        self.width * self.height * 4 <= isize::MAX
    }

    pub fn new(width: u32, height: u32) -> (sink: Self)
        requires
            width * height * 4 <= isize::MAX,
        ensures
            sink.width() == width,
            sink.height() == height,
            sink.written() == Seq::<u8>::empty(),
            sink.calls() == Seq::<SinkCall>::empty(),
            !sink.closed(),
            sink.always_takes(),
    {
        proof {
            assert(0 <= width * height) by (nonlinear_arith);
        }
        let bytes: usize = width as usize * height as usize * 4;
        MemorySink {
            width,
            height,
            buf: Vec::with_capacity(bytes),
            done: false,
            answered: Ghost(Seq::empty()),
        }
    }

    /// Consume the sink, producing the assembled image.
    pub fn into_image(self) -> (r: Result<RgbaImage, IncompleteImage>)
        ensures
            self.written().len() == self.width() * self.height() * 4 ==> {
                &&& r matches Ok(img)
                &&& img@ == (Raster {
                    width: self.width(),
                    height: self.height(),
                    data: self.written(),
                })
            },
            self.written().len() != self.width() * self.height() * 4 ==> r == Err::<
                RgbaImage,
                IncompleteImage,
            >(
                IncompleteImage {
                    held: self.written().len() as usize,
                    width: self.width(),
                    height: self.height(),
                    needed: (self.width() * self.height() * 4) as usize,
                },
            ),
    {
        let (width, height) = (self.width, self.height);
        proof {
            use_type_invariant(&self);
            assert(0 <= width * height) by (nonlinear_arith);
        }
        let needed: usize = width as usize * height as usize * 4;
        let held: usize = self.buf.len();
        match RgbaImage::from_raw(width, height, self.buf) {
            Some(img) => Ok(img),
            None => Err(IncompleteImage { held, width, height, needed }),
        }
    }
}

impl RowSink for MemorySink {
    open spec fn written(&self) -> Seq<u8> {
        self.bytes()
    }

    open spec fn calls(&self) -> Seq<SinkCall> {
        self.answered()
    }

    open spec fn refuses(&self, e: SinkError) -> bool {
        false
    }

    open spec fn closed(&self) -> bool {
        self.done()
    }

    open spec fn always_takes(&self) -> bool {
        true
    }

    open spec fn size(&self) -> (u32, u32) {
        (self.width(), self.height())
    }

    fn write_rows(&mut self, rgba: &[u8]) -> (r: Result<(), SinkError>) {
        proof {
            use_type_invariant(&*self);
        }
        let ghost before = self.buf@;
        let mut buf: Vec<u8> = Vec::new();
        std::mem::swap(&mut buf, &mut self.buf);
        buf.extend_from_slice(rgba);
        assert(buf@ =~= before + rgba@);
        self.buf = buf;
        self.answered = Ghost(self.answered@.push(SinkCall::Rows { bytes: rgba@ }));
        Ok(())
    }

    fn finish(&mut self) -> (r: Result<(), SinkError>) {
        proof {
            use_type_invariant(&*self);
        }
        self.done = true;
        self.answered = Ghost(self.answered@.push(SinkCall::Finish));
        Ok(())
    }
}

} // verus!
