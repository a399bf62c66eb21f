//! The frame: the scan over the pixels of an image and the buffer it fills.
//!
//! Pixels are written in scan order: the top row of the image first, each row
//! from its left end. Rows are numbered from the bottom, so the scan starts at
//! row `height - 1` and ends at row 0. Each pixel takes four bytes in the
//! buffer: red, green, blue, and an alpha that is always opaque.

use vstd::prelude::*;
use crate::pixel::Rgb;

verus! {

/// The number of bytes that a pixel takes in the buffer.
pub const CHANNELS: usize = 4;

/// The alpha of every pixel.
pub const OPAQUE: u8 = 255;

/// Progress is due at the start of each row whose number is a multiple of this.
pub const PROGRESS_INTERVAL: u32 = 10;

/// Why a frame refuses.
#[derive(Clone, Copy, Debug, PartialEq, Eq, Structural)]
pub enum FrameError {
    /// The buffer of an image of this size cannot be indexed on this machine.
    TooLarge,
    /// Every pixel of the frame has been written.
    Full,
}

/// What a frame holds: the size of its image, and the pixels written so far, in
/// scan order.
pub struct Image {
    pub width: nat,
    pub height: nat,
    pub pixels: Seq<Rgb>,
}

/// The byte of a pixel at channel `c`.
pub open spec fn byte_of(p: Rgb, c: int) -> u8 {
    if c == 0 {
        p.r
    } else if c == 1 {
        p.g
    } else if c == 2 {
        p.b
    } else {
        OPAQUE
    }
}

/// The buffer of a sequence of pixels: four bytes for each, in order.
pub open spec fn encode(pixels: Seq<Rgb>) -> Seq<u8> {
    Seq::new(4 * pixels.len(), |k: int| byte_of(pixels[k / 4], k % 4))
}

/// The column of the `n`-th pixel of the scan.
pub open spec fn column_of(width: nat, n: nat) -> int {
    n as int % width as int
}

/// The row of the `n`-th pixel of the scan.
pub open spec fn row_of(width: nat, height: nat, n: nat) -> int {
    height - 1 - n as int / width as int
}

/// The place in the scan of the pixel at a column and a row.
pub open spec fn index_of(width: nat, height: nat, column: nat, row: nat) -> int {
    (height - 1 - row) * width + column
}

/// A frame that is filled pixel by pixel.
pub struct Frame {
    width: u32,
    height: u32,
    data: Vec<u8>,
}

impl View for Frame {
    type V = Image;

    closed spec fn view(&self) -> Image {
        Image {
            width: self.width as nat,
            height: self.height as nat,
            pixels: Seq::new(
                self.data@.len() / 4,
                |n: int|
                    Rgb {
                        r: self.data@[4 * n],
                        g: self.data@[4 * n + 1],
                        b: self.data@[4 * n + 2],
                    },
            ),
        }
    }
}

impl Frame {
    #[verifier::type_invariant]
    spec fn inv(self) -> bool {
        &&& self.data@.len() % 4 == 0
        &&& self.data@.len() <= 4 * (self.width * self.height)
        &&& 4 * (self.width * self.height) <= usize::MAX
        &&& forall|k: int|
            0 <= k < self.data@.len() && k % 4 == 3 ==> #[trigger] self.data@[k] == OPAQUE
    }

    proof fn lemma_data_is_encoding(self)
        requires
            self.inv(),
        ensures
            self.data@ == encode(self@.pixels),
            self@.pixels.len() * 4 == self.data@.len(),
            self@.pixels.len() <= self.width * self.height,
    {
        assert(self.data@ =~= encode(self@.pixels));
    }

    /// An empty frame for an image of `width` by `height` pixels.
    pub fn new(width: u32, height: u32) -> (r: Result<Frame, FrameError>)
        ensures
            4 * (width * height) <= usize::MAX ==> {
                &&& r matches Ok(f)
                &&& f@ == (Image {
                    width: width as nat,
                    height: height as nat,
                    pixels: Seq::empty(),
                })
            },
            4 * (width * height) > usize::MAX ==> {
                &&& r matches Err(e)
                &&& e == FrameError::TooLarge
            },
    {
        assert(width * height <= 0xffff_ffff * 0xffff_ffff) by (nonlinear_arith)
            requires
                0 <= width <= 0xffff_ffff,
                0 <= height <= 0xffff_ffff,
        ;
        let pixels: u64 = (width as u64) * (height as u64);
        if pixels > (usize::MAX / CHANNELS) as u64 {
            Err(FrameError::TooLarge)
        } else {
            let f = Frame { width, height, data: Vec::new() };
            assert(f@.pixels =~= Seq::empty());
            Ok(f)
        }
    }

    /// The width of the image in pixels.
    pub fn width(&self) -> (w: u32)
        ensures
            w == self@.width,
    {
        self.width
    }

    /// The height of the image in pixels.
    pub fn height(&self) -> (h: u32)
        ensures
            h == self@.height,
    {
        self.height
    }

    /// The number of pixels written so far.
    pub fn len(&self) -> (n: usize)
        ensures
            n == self@.pixels.len(),
            n <= self@.width * self@.height,
    {
        proof {
            use_type_invariant(self);
            self.lemma_data_is_encoding();
        }
        self.data.len() / CHANNELS
    }

    /// The number of pixels of the image.
    pub fn capacity(&self) -> (n: usize)
        ensures
            n == self@.width * self@.height,
    {
        proof {
            use_type_invariant(self);
        }
        (self.width as usize) * (self.height as usize)
    }

    /// Whether every pixel of the image has been written.
    pub fn is_complete(&self) -> (r: bool)
        ensures
            r == (self@.pixels.len() == self@.width * self@.height),
    {
        self.len() == self.capacity()
    }

    /// The column and the row of the pixel that the scan writes next, or `None`
    /// once the frame is complete.
    pub fn cursor(&self) -> (r: Option<(u32, u32)>)
        ensures
            r is None <==> self@.pixels.len() == self@.width * self@.height,
            r is Some <==> self@.pixels.len() < self@.width * self@.height,
            r matches Some((column, row)) ==> {
                &&& column == column_of(self@.width, self@.pixels.len())
                &&& row == row_of(self@.width, self@.height, self@.pixels.len())
            },
    {
        let n: usize = self.len();
        let total: usize = self.capacity();
        if n == total {
            None
        } else {
            proof {
                lemma_scan_place(self@.width, self@.height, n as nat);
            }
            let w: usize = self.width as usize;
            let column: usize = n % w;
            let above: usize = n / w;
            Some((column as u32, self.height - 1 - (above as u32)))
        }
    }

    /// The row whose start is to be reported: the row of the cursor, where the
    /// cursor stands at the left end of a row whose number is a multiple of
    /// `PROGRESS_INTERVAL`.
    pub fn progress(&self) -> (r: Option<u32>)
        ensures
            r is Some <==> {
                &&& self@.pixels.len() < self@.width * self@.height
                &&& column_of(self@.width, self@.pixels.len()) == 0
                &&& row_of(self@.width, self@.height, self@.pixels.len()) % (PROGRESS_INTERVAL
                    as int) == 0
            },
            r matches Some(row) ==> row == row_of(self@.width, self@.height, self@.pixels.len()),
    {
        match self.cursor() {
            Some((column, row)) => {
                if column == 0 && row % PROGRESS_INTERVAL == 0 {
                    Some(row)
                } else {
                    None
                }
            },
            None => None,
        }
    }

    /// Writes the next pixel of the scan, unless the frame is complete.
    pub fn push(&mut self, pixel: Rgb) -> (r: Result<(), FrameError>)
        ensures
            old(self)@.pixels.len() < old(self)@.width * old(self)@.height ==> {
                &&& r is Ok
                &&& final(self)@ == (Image {
                    pixels: old(self)@.pixels.push(pixel),
                    ..old(self)@
                })
            },
            old(self)@.pixels.len() == old(self)@.width * old(self)@.height ==> {
                &&& r matches Err(e)
                &&& e == FrameError::Full
                &&& final(self)@ == old(self)@
            },
    {
        if self.is_complete() {
            return Err(FrameError::Full);
        }
        proof {
            use_type_invariant(&*self);
            self.lemma_data_is_encoding();
        }
        let ghost before = self.data@;
        let ghost pixels = self@.pixels;
        let mut data: Vec<u8> = Vec::new();
        core::mem::swap(&mut data, &mut self.data);
        data.push(pixel.r);
        data.push(pixel.g);
        data.push(pixel.b);
        data.push(OPAQUE);
        assert(data@ =~= before + seq![pixel.r, pixel.g, pixel.b, OPAQUE]);
        self.data = data;
        assert(self@.pixels =~= pixels.push(pixel));
        Ok(())
    }

    /// The pixel at a column and a row, if it lies in the image and has been
    /// written.
    pub fn pixel(&self, column: u32, row: u32) -> (r: Option<Rgb>)
        ensures
            r is Some <==> {
                &&& column < self@.width
                &&& row < self@.height
                &&& index_of(self@.width, self@.height, column as nat, row as nat)
                    < self@.pixels.len()
            },
            r matches Some(p) ==> p == self@.pixels[index_of(
                self@.width,
                self@.height,
                column as nat,
                row as nat,
            )],
    {
        if column >= self.width || row >= self.height {
            return None;
        }
        let above: usize = (self.height - 1 - row) as usize;
        let w: usize = self.width as usize;
        proof {
            use_type_invariant(self);
            lemma_place_scan(self@.width, self@.height, column as nat, row as nat);
        }
        let n: usize = above * w + column as usize;
        if n >= self.len() {
            return None;
        }
        let at: usize = n * CHANNELS;
        Some(Rgb { r: self.data[at], g: self.data[at + 1], b: self.data[at + 2] })
    }

    /// The buffer: the bytes of the pixels written so far.
    pub fn as_bytes(&self) -> (bytes: &Vec<u8>)
        ensures
            bytes@ == encode(self@.pixels),
    {
        proof {
            use_type_invariant(self);
            self.lemma_data_is_encoding();
        }
        &self.data
    }

    /// Gives up the frame for its buffer.
    pub fn into_bytes(self) -> (bytes: Vec<u8>)
        ensures
            bytes@ == encode(self@.pixels),
    {
        proof {
            use_type_invariant(&self);
            self.lemma_data_is_encoding();
        }
        self.data
    }
}

/// The scan visits a place of the image: the `n`-th pixel has a column and a row
/// in the image, and is the pixel that `index_of` finds there.
pub proof fn lemma_scan_place(width: nat, height: nat, n: nat)
    requires
        n < width * height,
    ensures
        0 <= column_of(width, n) < width,
        0 <= row_of(width, height, n) < height,
        index_of(width, height, column_of(width, n) as nat, row_of(width, height, n) as nat) == n,
{
    let w = width as int;
    let h = height as int;
    let m = n as int;
    assert(w > 0) by (nonlinear_arith)
        requires
            m < w * h,
            0 <= m,
            0 <= w,
            0 <= h,
    ;
    assert(0 <= m / w < h && m == w * (m / w) + m % w && 0 <= m % w < w) by (nonlinear_arith)
        requires
            0 <= m < w * h,
            w > 0,
    ;
    assert((h - 1 - (h - 1 - m / w)) * w + m % w == m) by (nonlinear_arith)
        requires
            m == w * (m / w) + m % w,
    ;
}

/// Each place of the image is visited by the scan, once: the pixel at a column
/// and a row has a place in the scan, and the scan is there at that column and
/// row.
pub proof fn lemma_place_scan(width: nat, height: nat, column: nat, row: nat)
    requires
        column < width,
        row < height,
    ensures
        0 <= index_of(width, height, column, row) < width * height,
        column_of(width, index_of(width, height, column, row) as nat) == column,
        row_of(width, height, index_of(width, height, column, row) as nat) == row,
{
    let w = width as int;
    let h = height as int;
    let c = column as int;
    let q = h - 1 - row as int;
    assert(0 <= q * w + c < w * h) by (nonlinear_arith)
        requires
            0 <= q <= h - 1,
            0 <= c < w,
    ;
    assert((q * w + c) / w == q && (q * w + c) % w == c) by (nonlinear_arith)
        requires
            0 <= q,
            0 <= c < w,
    ;
}

/// The scan runs from the top row down, and along each row from the left: of
/// two places, the scan comes first to the one in the higher row, or in the
/// same row further left.
pub proof fn lemma_scan_order(width: nat, height: nat, c1: nat, r1: nat, c2: nat, r2: nat)
    requires
        c1 < width,
        r1 < height,
        c2 < width,
        r2 < height,
    ensures
        index_of(width, height, c1, r1) < index_of(width, height, c2, r2) <==> r1 > r2 || (r1
            == r2 && c1 < c2),
{
    let w = width as int;
    let q1 = height - 1 - r1;
    let q2 = height - 1 - r2;
    let a = c1 as int;
    let b = c2 as int;
    assert(q1 * w + a < q2 * w + b <==> q1 < q2 || (q1 == q2 && a < b)) by (nonlinear_arith)
        requires
            0 <= a < w,
            0 <= b < w,
            0 <= q1,
            0 <= q2,
    ;
}

/// The layout of the buffer: the pixel at place `n` of the scan takes the four
/// bytes from `4 * n`, its channels in the order red, green, blue, and its
/// alpha is opaque.
pub proof fn lemma_layout(pixels: Seq<Rgb>, n: int)
    requires
        0 <= n < pixels.len(),
    ensures
        encode(pixels).len() == 4 * pixels.len(),
        encode(pixels)[4 * n] == pixels[n].r,
        encode(pixels)[4 * n + 1] == pixels[n].g,
        encode(pixels)[4 * n + 2] == pixels[n].b,
        encode(pixels)[4 * n + 3] == OPAQUE,
{
}

} // verus!
