use crate::color::{hsv_of, hue_in_range, rgb_of, HsvPixel, RgbPixel};
use crate::error::PixelateError;
use crate::kmeans::{
    avg, clustered, kmeans, lemma_mean_of_copies, mean, Vec4, MAX_POINTS,
};
use crate::sampling::distinct_indices;
use vstd::prelude::*;
use vstd::std_specs::convert::{FromSpecImpl, TryFromSpecImpl};

verus! {

/// Marks the types that an image can hold as its pixels.
pub trait PixelType {

}

impl PixelType for RgbPixel {

}

impl PixelType for HsvPixel {

}

impl PixelType for Vec4 {

}

/// What an image is: its shape and its pixels, one column after another. The pixel in
/// column `i` and row `j` stands at position `i * height + j`.
pub struct Raster<T> {
    pub pixels: Seq<T>,
    pub width: nat,
    pub height: nat,
}

impl<T> Raster<T> {
    /// There are as many pixels as the shape asks for.
    pub open spec fn wf(self) -> bool {
        self.pixels.len() == self.width * self.height
    }

    /// The pixel in column `i` and row `j`.
    pub open spec fn at(self, i: int, j: int) -> T {
        self.pixels[offset(self.height, i, j)]
    }

    /// Whether two rasters have one shape.
    pub open spec fn same_shape<U>(self, other: Raster<U>) -> bool {
        self.width == other.width && self.height == other.height && self.pixels.len()
            == other.pixels.len()
    }
}

/// The position in the buffer of the pixel in column `i` and row `j`.
pub open spec fn offset(height: nat, i: int, j: int) -> int {
    i * height + j
}

/// Whether `to` holds, place by place, a value that `f` may return for the value in `from`.
pub open spec fn maps_to<A, B, F: Fn(A) -> B>(f: F, from: Seq<A>, to: Seq<B>) -> bool {
    &&& from.len() == to.len()
    &&& forall|k: int| 0 <= k < from.len() ==> f.ensures((from[k],), #[trigger] to[k])
}

/// A grid of pixels, held column after column.
#[derive(Debug)]
pub struct Image<T: PixelType> {
    image_data: Vec<T>,
    width: usize,
    height: usize,
}

impl<T: PixelType> View for Image<T> {
    type V = Raster<T>;

    closed spec fn view(&self) -> Raster<T> {
        Raster {
            pixels: self.image_data@,
            width: self.width as nat,
            height: self.height as nat,
        }
    }
}

/// A position inside the shape is a position inside the buffer.
pub proof fn lemma_offset_in_bounds(width: nat, height: nat, i: int, j: int)
    requires
        0 <= i < width,
        0 <= j < height,
    ensures
        0 <= offset(height, i, j) < width * height,
        offset(height, i, j) / (height as int) == i,
        offset(height, i, j) % (height as int) == j,
{
    assert(0 <= i * height + j < width * height) by (nonlinear_arith)
        requires
            0 <= i < width,
            0 <= j < height,
    ;
    vstd::arithmetic::div_mod::lemma_fundamental_div_mod_converse(
        i * height + j,
        height as int,
        i,
        j,
    );
}

/// Every position inside the buffer belongs to one column and one row.
pub proof fn lemma_offset_split(width: nat, height: nat, k: int)
    requires
        0 <= k < width * height,
    ensures
        height > 0,
        0 <= k / (height as int) < width,
        0 <= k % (height as int) < height,
        offset(height, k / (height as int), k % (height as int)) == k,
{
    assert(height > 0) by (nonlinear_arith)
        requires
            0 <= k < width * height,
    ;
    let h = height as int;
    vstd::arithmetic::div_mod::lemma_fundamental_div_mod(k, h);
    let q = k / h;
    let r = k % h;
    assert(0 <= q < width) by (nonlinear_arith)
        requires
            k == h * q + r,
            0 <= r < h,
            0 <= k < width * h,
    ;
    assert(q * h + r == k) by (nonlinear_arith)
        requires
            k == h * q + r,
    ;
}

impl<T: PixelType> Image<T> {
    #[verifier::type_invariant]
    spec fn shaped(self) -> bool {
        self.image_data@.len() == self.width * self.height
    }

    /// An image of the given shape over the given pixels; nothing unless there are
    /// `width * height` of them.
    pub fn new(image_data: Vec<T>, width: usize, height: usize) -> (out: Option<Self>)
        ensures
            out is Some <==> image_data@.len() == width * height,
            out matches Some(image) ==> image@ == (Raster {
                pixels: image_data@,
                width: width as nat,
                height: height as nat,
            }),
    {
        let len: usize = image_data.len();
        match width.checked_mul(height) {
            Some(n) => {
                if n == len {
                    Some(Image { image_data, width, height })
                } else {
                    None
                }
            },
            None => None,
        }
    }

    pub fn width(&self) -> (w: usize)
        ensures
            w == self@.width,
    {
        self.width
    }

    pub fn height(&self) -> (h: usize)
        ensures
            h == self@.height,
    {
        self.height
    }

    /// The pixels, column after column.
    pub fn data(&self) -> (pixels: &Vec<T>)
        ensures
            pixels@ == self@.pixels,
            self@.wf(),
    {
        proof {
            use_type_invariant(self);
        }
        &self.image_data
    }

    /// The pixel in column `i` and row `j`.
    pub fn get(&self, i: usize, j: usize) -> (pixel: &T)
        requires
            i < self@.width,
            j < self@.height,
        ensures
            *pixel == self@.at(i as int, j as int),
    {
        // the number of pixels fits a `usize`, and with it the position computed below
        let count: usize = self.image_data.len();
        proof {
            use_type_invariant(self);
            assert(self.width * self.height == count);
            lemma_offset_in_bounds(self.width as nat, self.height as nat, i as int, j as int);
            assert(0 <= i * self.height <= i * self.height + j) by (nonlinear_arith);
        }
        &self.image_data[i * self.height + j]
    }

    /// An image of the same shape whose pixels are what `f` returns for the pixels of
    /// this one, place by place.
    pub fn map<U: PixelType, F: Fn(T) -> U>(&self, f: &F) -> (out: Image<U>) where T: Copy
        requires
            forall|k: int| 0 <= k < self@.pixels.len() ==> f.requires((#[trigger] self@.pixels[k],)),
        ensures
            out@.same_shape(self@),
            out@.wf(),
            maps_to(*f, self@.pixels, out@.pixels),
    {
        proof {
            use_type_invariant(self);
        }
        let mut image_data: Vec<U> = Vec::new();
        let mut k: usize = 0;
        while k < self.image_data.len()
            invariant
                k <= self.image_data@.len(),
                image_data@.len() == k,
                forall|n: int|
                    0 <= n < self@.pixels.len() ==> f.requires((#[trigger] self@.pixels[n],)),
                forall|n: int|
                    0 <= n < k ==> f.ensures((self.image_data@[n],), #[trigger] image_data@[n]),
            decreases self.image_data@.len() - k,
        {
            assert(self@.pixels[k as int] == self.image_data@[k as int]);
            image_data.push(f(self.image_data[k]));
            k += 1;
        }
        Image { image_data, width: self.width, height: self.height }
    }
}

impl<T: PixelType + Copy> Clone for Image<T> {
    fn clone(&self) -> (out: Self)
        ensures
            out@ == self@,
    {
        proof {
            use_type_invariant(self);
        }
        let mut image_data: Vec<T> = Vec::new();
        let mut k: usize = 0;
        while k < self.image_data.len()
            invariant
                k <= self.image_data@.len(),
                image_data@.len() == k,
                forall|n: int| 0 <= n < k ==> (#[trigger] image_data@[n]) == self.image_data@[n],
            decreases self.image_data@.len() - k,
        {
            image_data.push(self.image_data[k]);
            k += 1;
        }
        proof {
            assert(image_data@ =~= self.image_data@);
        }
        Image { image_data, width: self.width, height: self.height }
    }
}

impl<T: PixelType> Default for Image<T> {
    /// The image without pixels.
    fn default() -> (out: Image<T>)
        ensures
            out@ == (Raster { pixels: Seq::<T>::empty(), width: 0, height: 0 }),
    {
        Image { image_data: Vec::new(), width: 0, height: 0 }
    }
}

/// The raster with every pixel turned to hue, saturation and value.
pub open spec fn hsv_raster(image: Raster<RgbPixel>) -> Raster<HsvPixel> {
    Raster {
        pixels: Seq::new(image.pixels.len(), |k: int| hsv_of(image.pixels[k])),
        width: image.width,
        height: image.height,
    }
}

/// The raster with every pixel turned to RGB, where every hue lies in the six sectors.
pub open spec fn rgb_raster(image: Raster<HsvPixel>) -> Raster<RgbPixel> {
    Raster {
        pixels: Seq::new(image.pixels.len(), |k: int| rgb_of(image.pixels[k]).unwrap()),
        width: image.width,
        height: image.height,
    }
}

/// Whether every pixel has its hue in the six sectors.
pub open spec fn hues_in_range(pixels: Seq<HsvPixel>) -> bool {
    forall|k: int| 0 <= k < pixels.len() ==> hue_in_range((#[trigger] pixels[k]).h as int)
}

impl FromSpecImpl<Image<RgbPixel>> for Image<HsvPixel> {
    open spec fn obeys_from_spec() -> bool {
        false
    }

    open spec fn from_spec(image: Image<RgbPixel>) -> Self {
        arbitrary()
    }
}

impl From<Image<RgbPixel>> for Image<HsvPixel> {
    /// The image with every pixel turned to hue, saturation and value.
    fn from(image: Image<RgbPixel>) -> (out: Self)
        ensures
            out@ == hsv_raster(image@),
            out@.wf(),
    {
        proof {
            use_type_invariant(&image);
        }
        let mut image_data: Vec<HsvPixel> = Vec::new();
        let mut k: usize = 0;
        while k < image.image_data.len()
            invariant
                k <= image.image_data@.len(),
                image_data@.len() == k,
                forall|n: int| 0 <= n < k ==> (#[trigger] image_data@[n]) == hsv_of(image.image_data@[n]),
            decreases image.image_data@.len() - k,
        {
            image_data.push(HsvPixel::from(image.image_data[k]));
            k += 1;
        }
        proof {
            assert(image_data@ =~= hsv_raster(image@).pixels);
        }
        Image { image_data, width: image.width, height: image.height }
    }
}

impl TryFromSpecImpl<Image<HsvPixel>> for Image<RgbPixel> {
    open spec fn obeys_try_from_spec() -> bool {
        false
    }

    open spec fn try_from_spec(image: Image<HsvPixel>) -> Result<Self, PixelateError> {
        arbitrary()
    }
}

impl TryFrom<Image<HsvPixel>> for Image<RgbPixel> {
    type Error = PixelateError;

    /// The image with every pixel turned to RGB. It fails exactly if some pixel has a
    /// hue below 0 or above `6 * ONE`.
    fn try_from(image: Image<HsvPixel>) -> (out: Result<Self, PixelateError>)
        ensures
            out is Ok <==> hues_in_range(image@.pixels),
            out matches Ok(rgb) ==> rgb@ == rgb_raster(image@) && rgb@.wf(),
            out matches Err(e) ==> e == PixelateError::OutOfRangeHue,
    {
        proof {
            use_type_invariant(&image);
        }
        let mut image_data: Vec<RgbPixel> = Vec::new();
        let mut k: usize = 0;
        while k < image.image_data.len()
            invariant
                k <= image.image_data@.len(),
                image_data@.len() == k,
                forall|n: int| 0 <= n < k ==> hue_in_range((#[trigger] image.image_data@[n]).h as int),
                forall|n: int|
                    0 <= n < k ==> (#[trigger] image_data@[n]) == rgb_of(
                        image.image_data@[n],
                    ).unwrap(),
            decreases image.image_data@.len() - k,
        {
            match RgbPixel::try_from(image.image_data[k]) {
                Ok(p) => {
                    image_data.push(p);
                },
                Err(e) => {
                    return Err(e);
                },
            }
            k += 1;
        }
        proof {
            assert(image_data@ =~= rgb_raster(image@).pixels);
        }
        Ok(Image { image_data, width: image.width, height: image.height })
    }
}

/// Whether blocks of `factor` by `factor` pixels tile the raster and leave no rest.
pub open spec fn divisible<T>(image: Raster<T>, factor: nat) -> bool {
    image.width % factor == 0 && image.height % factor == 0
}

/// The pixels of the block in block column `bi` and block row `bj`, column after column.
pub open spec fn block<T>(image: Raster<T>, factor: nat, bi: int, bj: int) -> Seq<T> {
    Seq::new(
        factor * factor,
        |k: int| image.at(bi * factor + k / (factor as int), bj * factor + k % (factor as int)),
    )
}

/// The mean of the block that holds the pixel in column `a` and row `b`.
pub open spec fn block_mean_at(image: Raster<Vec4>, factor: nat, a: int, b: int) -> Vec4 {
    mean(block(image, factor, a / (factor as int), b / (factor as int)))
}

/// The raster in which every pixel is the mean of the block that holds it.
pub open spec fn downsampled(image: Raster<Vec4>, factor: nat) -> Raster<Vec4> {
    Raster {
        pixels: Seq::new(
            image.pixels.len(),
            |k: int|
                block_mean_at(
                    image,
                    factor,
                    k / (image.height as int),
                    k % (image.height as int),
                ),
        ),
        width: image.width,
        height: image.height,
    }
}

/// Whether column `a`, row `b` lies in the block in block column `bi`, block row `bj`.
pub open spec fn in_block(factor: nat, bi: int, bj: int, a: int, b: int) -> bool {
    bi * factor <= a < (bi + 1) * factor && bj * factor <= b < (bj + 1) * factor
}

proof fn lemma_block_of(factor: nat, bi: int, a: int)
    requires
        factor > 0,
        bi * factor <= a < (bi + 1) * factor,
    ensures
        a / (factor as int) == bi,
        a % (factor as int) == a - bi * factor,
{
    let f = factor as int;
    assert((bi + 1) * f == bi * f + f) by (nonlinear_arith);
    vstd::arithmetic::div_mod::lemma_fundamental_div_mod_converse(a, f, bi, a - bi * f);
}

proof fn lemma_block_inside(factor: nat, count: nat, bi: int, ii: int)
    requires
        factor > 0,
        0 <= bi,
        (bi + 1) * factor <= count,
        0 <= ii < factor,
    ensures
        0 <= bi * factor,
        bi * factor <= bi * factor + ii < (bi + 1) * factor,
        bi * factor + ii < count,
        (bi + 1) * factor == bi * factor + factor,
{
    assert((bi + 1) * factor == bi * factor + factor) by (nonlinear_arith);
    assert(0 <= bi * factor) by (nonlinear_arith)
        requires
            0 <= bi,
            factor > 0,
    ;
}

proof fn lemma_offset_unique(height: nat, a: int, b: int, a2: int, b2: int)
    requires
        0 <= b < height,
        0 <= b2 < height,
        offset(height, a, b) == offset(height, a2, b2),
    ensures
        a == a2,
        b == b2,
{
    assert(a == a2) by (nonlinear_arith)
        requires
            0 <= b < height,
            0 <= b2 < height,
            a * height + b == a2 * height + b2,
    ;
}

fn zeros(count: usize) -> (out: Vec<Vec4>)
    ensures
        out@.len() == count,
{
    let mut out: Vec<Vec4> = Vec::new();
    let mut k: usize = 0;
    while k < count
        invariant
            k <= count,
            out@.len() == k,
        decreases count - k,
    {
        out.push(Vec4 { x: 0, y: 0, z: 0, w: 0 });
        k += 1;
    }
    out
}

/// Writes `p` to every position of one block and leaves every other position as it was.
fn fill(
    image_data: &mut Vec<Vec4>,
    width: usize,
    height: usize,
    factor: usize,
    bi: usize,
    bj: usize,
    p: Vec4,
)
    requires
        factor > 0,
        old(image_data)@.len() == width * height,
        width * height <= usize::MAX,
        (bi + 1) * factor <= width,
        (bj + 1) * factor <= height,
    ensures
        final(image_data)@.len() == old(image_data)@.len(),
        forall|a: int, b: int|
            0 <= a < width && 0 <= b < height ==> final(image_data)@[#[trigger] offset(
                height as nat,
                a,
                b,
            )] == (if in_block(factor as nat, bi as int, bj as int, a, b) {
                p
            } else {
                old(image_data)@[offset(height as nat, a, b)]
            }),
{
    let ghost before = image_data@;
    let ghost f = factor as nat;
    let ghost h = height as nat;
    let mut ii: usize = 0;
    while ii < factor
        invariant
            ii <= factor,
            width * height <= usize::MAX,
            factor > 0,
            f == factor,
            h == height,
            before.len() == width * height,
            image_data@.len() == before.len(),
            (bi + 1) * factor <= width,
            (bj + 1) * factor <= height,
            forall|a: int, b: int|
                0 <= a < width && 0 <= b < height ==> image_data@[#[trigger] offset(h, a, b)] == (
                if bi * f <= a < bi * f + ii && bj * f <= b < (bj + 1) * f {
                    p
                } else {
                    before[offset(h, a, b)]
                }),
        decreases factor - ii,
    {
        proof {
            lemma_block_inside(f, width as nat, bi as int, ii as int);
        }
        let col: usize = bi * factor + ii;
        let mut jj: usize = 0;
        while jj < factor
            invariant
                jj <= factor,
                ii < factor,
                factor > 0,
                f == factor,
                h == height,
                col == bi * f + ii,
                col < width,
                width * height <= usize::MAX,
                before.len() == width * height,
                image_data@.len() == before.len(),
                (bj + 1) * factor <= height,
                forall|a: int, b: int|
                    0 <= a < width && 0 <= b < height ==> image_data@[#[trigger] offset(h, a, b)]
                        == (if (bi * f <= a < col && bj * f <= b < (bj + 1) * f) || (a == col && bj
                        * f <= b < bj * f + jj) {
                        p
                    } else {
                        before[offset(h, a, b)]
                    }),
            decreases factor - jj,
        {
            proof {
                lemma_block_inside(f, h, bj as int, jj as int);
                lemma_offset_in_bounds(width as nat, h, col as int, bj * f + jj);
                assert(0 <= col * height <= col * height + (bj * f + jj)) by (nonlinear_arith);
            }
            let row: usize = bj * factor + jj;
            let at: usize = col * height + row;
            let ghost prior = image_data@;
            image_data.set(at, p);
            proof {
                assert forall|a: int, b: int| 0 <= a < width && 0 <= b < height implies image_data@[#[trigger] offset(
                    h,
                    a,
                    b,
                )] == (if (bi * f <= a < col && bj * f <= b < (bj + 1) * f) || (a == col && bj * f
                    <= b < bj * f + jj + 1) {
                    p
                } else {
                    before[offset(h, a, b)]
                }) by {
                    lemma_offset_in_bounds(width as nat, h, a, b);
                    if offset(h, a, b) == at {
                        lemma_offset_unique(h, a, b, col as int, row as int);
                    } else {
                        assert(image_data@[offset(h, a, b)] == prior[offset(h, a, b)]);
                    }
                }
            }
            jj += 1;
        }
        proof {
            lemma_block_inside(f, h, bj as int, 0);
        }
        ii += 1;
    }
    proof {
        lemma_block_inside(f, width as nat, bi as int, 0);
    }
}

impl Image<Vec4> {
    /// The pixels of one block, column after column.
    fn gather(&self, factor: usize, bi: usize, bj: usize) -> (selection: Vec<Vec4>)
        requires
            factor > 0,
            (bi + 1) * factor <= self@.width,
            (bj + 1) * factor <= self@.height,
        ensures
            selection@ == block(self@, factor as nat, bi as int, bj as int),
    {
        proof {
            use_type_invariant(self);
        }
        let ghost f = factor as nat;
        let ghost h = self.height as nat;
        let mut selection: Vec<Vec4> = Vec::new();
        // the number of pixels fits a `usize`, and with it every position below
        let count: usize = self.image_data.len();
        assert(self.width * self.height == count);
        let mut ii: usize = 0;
        while ii < factor
            invariant
                ii <= factor,
                self.width * self.height <= usize::MAX,
                factor > 0,
                f == factor,
                h == self.height,
                self.image_data@.len() == self.width * self.height,
                (bi + 1) * factor <= self.width,
                (bj + 1) * factor <= self.height,
                selection@.len() == ii * f,
                forall|k: int|
                    0 <= k < selection@.len() ==> (#[trigger] selection@[k]) == self@.at(
                        bi * f + k / (f as int),
                        bj * f + k % (f as int),
                    ),
            decreases factor - ii,
        {
            proof {
                lemma_block_inside(f, self.width as nat, bi as int, ii as int);
            }
            let col: usize = bi * factor + ii;
            let mut jj: usize = 0;
            while jj < factor
                invariant
                    jj <= factor,
                    ii < factor,
                    factor > 0,
                    f == factor,
                    h == self.height,
                    col == bi * f + ii,
                    col < self.width,
                    self.width * self.height <= usize::MAX,
                    self.image_data@.len() == self.width * self.height,
                    (bj + 1) * factor <= self.height,
                    selection@.len() == ii * f + jj,
                    forall|k: int|
                        0 <= k < selection@.len() ==> (#[trigger] selection@[k]) == self@.at(
                            bi * f + k / (f as int),
                            bj * f + k % (f as int),
                        ),
                decreases factor - jj,
            {
                proof {
                    lemma_block_inside(f, h, bj as int, jj as int);
                    lemma_offset_in_bounds(self.width as nat, h, col as int, bj * f + jj);
                    assert(0 <= col * self.height <= col * self.height + (bj * f + jj))
                        by (nonlinear_arith);
                    vstd::arithmetic::div_mod::lemma_fundamental_div_mod_converse(
                        ii * f + jj,
                        f as int,
                        ii as int,
                        jj as int,
                    );
                }
                let row: usize = bj * factor + jj;
                selection.push(self.image_data[col * self.height + row]);
                jj += 1;
            }
            proof {
                assert(ii * f + f == (ii + 1) * f) by (nonlinear_arith);
            }
            ii += 1;
        }
        proof {
            assert(selection@ =~= block(self@, f, bi as int, bj as int));
        }
        selection
    }

    /// Replaces every block of `factor` by `factor` pixels by its mean. It fails exactly
    /// if the width or the height is no multiple of `factor`.
    pub fn downsample(&self, factor: usize) -> (out: Result<Image<Vec4>, PixelateError>)
        requires
            factor > 0,
        ensures
            out is Ok <==> divisible(self@, factor as nat),
            out matches Ok(image) ==> image@ == downsampled(self@, factor as nat) && image@.wf(),
            out matches Err(e) ==> e == PixelateError::NotDivisible,
    {
        if !(self.width % factor == 0 && self.height % factor == 0) {
            return Err(PixelateError::NotDivisible);
        }
        proof {
            use_type_invariant(self);
        }
        let width: usize = self.width;
        let height: usize = self.height;
        let ghost f = factor as nat;
        let ghost h = height as nat;
        let mut image_data: Vec<Vec4> = zeros(self.image_data.len());
        let across: usize = width / factor;
        let down: usize = height / factor;
        proof {
            vstd::arithmetic::div_mod::lemma_fundamental_div_mod(width as int, factor as int);
            vstd::arithmetic::div_mod::lemma_fundamental_div_mod(height as int, factor as int);
            assert(across * f == width) by (nonlinear_arith)
                requires
                    width == f * across,
            ;
            assert(down * f == height) by (nonlinear_arith)
                requires
                    height == f * down,
            ;
        }
        let mut i: usize = 0;
        while i < across
            invariant
                i <= across,
                factor > 0,
                f == factor,
                h == height,
                width == self.width,
                height == self.height,
                across * f == width,
                down * f == height,
                width * height <= usize::MAX,
                self.image_data@.len() == width * height,
                image_data@.len() == width * height,
                forall|a: int, b: int|
                    0 <= a < i * f && 0 <= b < height ==> image_data@[#[trigger] offset(h, a, b)]
                        == block_mean_at(self@, f, a, b),
            decreases across - i,
        {
            proof {
                assert((i + 1) * f <= across * f) by (nonlinear_arith)
                    requires
                        i + 1 <= across,
                ;
                lemma_block_inside(f, width as nat, i as int, 0);
            }
            let mut j: usize = 0;
            while j < down
                invariant
                    j <= down,
                    i < across,
                    factor > 0,
                    f == factor,
                    h == height,
                    width == self.width,
                    height == self.height,
                    (i + 1) * f <= width,
                    (i + 1) * f == i * f + f,
                    down * f == height,
                    width * height <= usize::MAX,
                    self.image_data@.len() == width * height,
                    image_data@.len() == width * height,
                    forall|a: int, b: int|
                        0 <= a < width && 0 <= b < height && (a < i * f || (a < (i + 1) * f && b < j
                            * f)) ==> image_data@[#[trigger] offset(h, a, b)] == block_mean_at(
                            self@,
                            f,
                            a,
                            b,
                        ),
                decreases down - j,
            {
                proof {
                    assert((j + 1) * f <= down * f) by (nonlinear_arith)
                        requires
                            j + 1 <= down,
                    ;
                    lemma_block_inside(f, h, j as int, 0);
                }
                let selection = self.gather(factor, i, j);
                let p: Vec4 = avg(&selection);
                let ghost prior = image_data@;
                fill(&mut image_data, width, height, factor, i, j, p);
                proof {
                    assert forall|a: int, b: int|
                        0 <= a < width && 0 <= b < height && (a < i * f || (a < (i + 1) * f && b
                            < (j + 1) * f)) implies image_data@[#[trigger] offset(h, a, b)]
                        == block_mean_at(self@, f, a, b) by {
                        if in_block(f, i as int, j as int, a, b) {
                            lemma_block_of(f, i as int, a);
                            lemma_block_of(f, j as int, b);
                        } else {
                            assert(image_data@[offset(h, a, b)] == prior[offset(h, a, b)]);
                        }
                    }
                }
                j += 1;
            }
            i += 1;
        }
        proof {
            let goal = downsampled(self@, f).pixels;
            assert forall|k: int| 0 <= k < image_data@.len() implies image_data@[k] == goal[k] by {
                lemma_offset_split(width as nat, h, k);
                let a = k / (h as int);
                let b = k % (h as int);
                assert(image_data@[offset(h, a, b)] == block_mean_at(self@, f, a, b));
            }
            assert(image_data@ =~= goal);
        }
        Ok(Image { image_data, width, height })
    }
}


/// The number of colours that a reduction leaves.
pub const PALETTE: usize = 8;

/// Whether `to` is `from` after a block downsampling that goes through the embedding:
/// every pixel is embedded, every block of embedded pixels is replaced by its mean, and
/// every mean is recovered.
pub open spec fn pixelated<E: Fn(HsvPixel) -> Vec4, R: Fn(Vec4) -> HsvPixel>(
    embed: E,
    recover: R,
    from: Raster<HsvPixel>,
    factor: nat,
    to: Raster<HsvPixel>,
) -> bool {
    &&& to.same_shape(from)
    &&& exists|embedded: Seq<Vec4>|
        {
            &&& #[trigger] maps_to(embed, from.pixels, embedded)
            &&& maps_to(
                recover,
                downsampled(
                    Raster { pixels: embedded, width: from.width, height: from.height },
                    factor,
                ).pixels,
                to.pixels,
            )
        }
}

/// Whether `to` is `from` after a reduction to `PALETTE` colours that goes through the
/// embedding: every pixel is embedded, the embedded pixels are clustered from `PALETTE`
/// distinct starting pixels, and every replacement is recovered.
pub open spec fn reduced<E: Fn(HsvPixel) -> Vec4, R: Fn(Vec4) -> HsvPixel>(
    embed: E,
    recover: R,
    from: Raster<HsvPixel>,
    to: Raster<HsvPixel>,
) -> bool {
    &&& to.same_shape(from)
    &&& exists|embedded: Seq<Vec4>, seeds: Seq<usize>|
        {
            &&& maps_to(embed, from.pixels, embedded)
            &&& distinct_indices(seeds, embedded.len(), PALETTE as nat)
            &&& maps_to(recover, #[trigger] clustered(embedded, seeds), to.pixels)
        }
}

/// Whether `out` is what the conversion to RGB gives for `last`: an error exactly if
/// some hue is out of range, and else every pixel converted.
pub open spec fn converted(last: Raster<HsvPixel>, out: Result<Image<RgbPixel>, PixelateError>)
    -> bool {
    &&& out is Ok <==> hues_in_range(last.pixels)
    &&& out matches Ok(rgb) ==> rgb@ == rgb_raster(last) && rgb@.wf()
    &&& out matches Err(e) ==> e == PixelateError::OutOfRangeHue
}

impl Image<Vec4> {
    /// Clusters the pixels into `PALETTE` clusters and replaces every pixel by the
    /// centroid nearest to it.
    pub fn reduce(&self) -> (out: Image<Vec4>)
        requires
            PALETTE <= self@.pixels.len() <= MAX_POINTS,
        ensures
            out@.same_shape(self@),
            out@.wf(),
            exists|seeds: Seq<usize>|
                distinct_indices(seeds, self@.pixels.len(), PALETTE as nat) && out@.pixels
                    == #[trigger] clustered(self@.pixels, seeds),
    {
        proof {
            use_type_invariant(self);
        }
        let copy = self.clone();
        let image_data: Vec<Vec4> = kmeans(copy.image_data, PALETTE);
        Image { image_data, width: self.width, height: self.height }
    }
}

impl Image<HsvPixel> {
    /// Replaces every block of `factor` by `factor` pixels by one colour: the pixels are
    /// embedded with `embed`, averaged block by block, and recovered with `recover`. It
    /// fails exactly if the width or the height is no multiple of `factor`.
    pub fn pixelate<E: Fn(HsvPixel) -> Vec4, R: Fn(Vec4) -> HsvPixel>(
        &self,
        factor: usize,
        embed: &E,
        recover: &R,
    ) -> (out: Result<Self, PixelateError>)
        requires
            factor > 0,
            forall|p: HsvPixel| embed.requires((p,)),
            forall|v: Vec4| recover.requires((v,)),
        ensures
            out is Ok <==> divisible(self@, factor as nat),
            out matches Err(e) ==> e == PixelateError::NotDivisible,
            out matches Ok(image) ==> image@.wf() && pixelated(
                *embed,
                *recover,
                self@,
                factor as nat,
                image@,
            ),
    {
        let embedded = self.map(embed);
        match embedded.downsample(factor) {
            Err(e) => Err(e),
            Ok(low) => {
                let image = low.map(recover);
                proof {
                    assert(embedded@ =~= (Raster {
                        pixels: embedded@.pixels,
                        width: self@.width,
                        height: self@.height,
                    }));
                    assert(maps_to(*embed, self@.pixels, embedded@.pixels));
                }
                Ok(image)
            },
        }
    }

    /// Reduces the image to `PALETTE` colours: the pixels are embedded with `embed`,
    /// clustered, and the replacements recovered with `recover`.
    pub fn kmeans_reduce<E: Fn(HsvPixel) -> Vec4, R: Fn(Vec4) -> HsvPixel>(
        &self,
        embed: &E,
        recover: &R,
    ) -> (out: Result<Self, PixelateError>)
        requires
            PALETTE <= self@.pixels.len() <= MAX_POINTS,
            forall|p: HsvPixel| embed.requires((p,)),
            forall|v: Vec4| recover.requires((v,)),
        ensures
            (out matches Ok(image) && image@.wf() && reduced(*embed, *recover, self@, image@)),
    {
        let embedded = self.map(embed);
        let few = embedded.reduce();
        let image = few.map(recover);
        proof {
            let seeds = choose|seeds: Seq<usize>|
                distinct_indices(seeds, embedded@.pixels.len(), PALETTE as nat) && few@.pixels
                    == #[trigger] clustered(embedded@.pixels, seeds);
            assert(maps_to(*recover, clustered(embedded@.pixels, seeds), image@.pixels));
        }
        Ok(image)
    }
}

impl Image<RgbPixel> {
    /// The whole effect: the image is turned to hue, saturation and value, downsampled
    /// block by block, reduced to `PALETTE` colours if `doit` says so, and turned back.
    /// `embed` and `recover` carry a colour to its embedding and back.
    pub fn pixelate<E: Fn(HsvPixel) -> Vec4, R: Fn(Vec4) -> HsvPixel>(
        self,
        factor: usize,
        doit: bool,
        embed: &E,
        recover: &R,
    ) -> (out: Result<Self, PixelateError>)
        requires
            factor > 0,
            doit && divisible(self@, factor as nat) ==> PALETTE <= self@.pixels.len() <= MAX_POINTS,
            forall|p: HsvPixel| embed.requires((p,)),
            forall|v: Vec4| recover.requires((v,)),
        ensures
            !divisible(self@, factor as nat) ==> (out matches Err(e) && e
                == PixelateError::NotDivisible),
            divisible(self@, factor as nat) ==> exists|low: Raster<HsvPixel>, last: Raster<HsvPixel>|
                {
                    &&& #[trigger] pixelated(*embed, *recover, hsv_raster(self@), factor as nat, low)
                    &&& if doit {
                        reduced(*embed, *recover, low, last)
                    } else {
                        last == low
                    }
                    &&& #[trigger] converted(last, out)
                },
    {
        let ghost start = self@;
        let hsv = Image::<HsvPixel>::from(self);
        let low = match hsv.pixelate(factor, embed, recover) {
            Err(e) => {
                return Err(e);
            },
            Ok(low) => low,
        };
        let ghost low_view = low@;
        if doit {
            let last = match low.kmeans_reduce(embed, recover) {
                Err(e) => {
                    return Err(e);
                },
                Ok(last) => last,
            };
            let ghost last_view = last@;
            let out = Image::<RgbPixel>::try_from(last);
            proof {
                assert(pixelated(*embed, *recover, hsv_raster(start), factor as nat, low_view));
                assert(converted(last_view, out));
            }
            out
        } else {
            let out = Image::<RgbPixel>::try_from(low);
            proof {
                assert(pixelated(*embed, *recover, hsv_raster(start), factor as nat, low_view));
                assert(converted(low_view, out));
            }
            out
        }
    }
}

/// A block whose pixels are all one colour keeps that colour: downsampling leaves every
/// pixel of it unchanged.
pub proof fn lemma_uniform_block_unchanged(
    image: Raster<Vec4>,
    factor: nat,
    a: int,
    b: int,
    p: Vec4,
)
    requires
        image.wf(),
        factor > 0,
        divisible(image, factor),
        0 <= a < image.width,
        0 <= b < image.height,
        forall|a2: int, b2: int|
            in_block(factor, a / (factor as int), b / (factor as int), a2, b2) ==> image.at(a2, b2)
                == p,
    ensures
        downsampled(image, factor).at(a, b) == p,
{
    let f = factor as int;
    let bi = a / f;
    let bj = b / f;
    lemma_offset_in_bounds(image.width, image.height, a, b);
    let cells = block(image, factor, bi, bj);
    assert(factor * factor > 0) by (nonlinear_arith)
        requires
            factor > 0,
    ;
    assert forall|k: int| 0 <= k < cells.len() implies cells[k] == p by {
        vstd::arithmetic::div_mod::lemma_fundamental_div_mod(k, f);
        let q = k / f;
        let r = k % f;
        assert(0 <= q < f) by (nonlinear_arith)
            requires
                k == f * q + r,
                0 <= r < f,
                0 <= k < f * f,
        ;
        assert((bi + 1) * f == bi * f + f && (bj + 1) * f == bj * f + f) by (nonlinear_arith);
        assert(in_block(factor, bi, bj, bi * f + q, bj * f + r));
    }
    lemma_mean_of_copies(cells, p);
}


proof fn lemma_block_fits(factor: nat, count: nat, a: int)
    requires
        factor > 0,
        count % factor == 0,
        0 <= a < count,
    ensures
        0 <= a / (factor as int),
        (a / (factor as int)) * factor <= a < (a / (factor as int) + 1) * factor,
        (a / (factor as int) + 1) * factor <= count,
{
    let f = factor as int;
    let n = count as int;
    vstd::arithmetic::div_mod::lemma_fundamental_div_mod(a, f);
    vstd::arithmetic::div_mod::lemma_fundamental_div_mod(n, f);
    let q = a / f;
    let r = a % f;
    let whole = n / f;
    assert(0 <= q && q * f <= a < (q + 1) * f && (q + 1) * f <= n) by (nonlinear_arith)
        requires
            a == f * q + r,
            0 <= r < f,
            n == f * whole,
            0 <= a < n,
    ;
}

/// The same at the level of colours: a block whose pixels all have one colour keeps it
/// through the downsampling, where `embed` carries that colour to one point only and
/// `recover` carries that point back to the colour only.
pub proof fn lemma_uniform_colour_block_unchanged<
    E: Fn(HsvPixel) -> Vec4,
    R: Fn(Vec4) -> HsvPixel,
>(
    embed: E,
    recover: R,
    from: Raster<HsvPixel>,
    factor: nat,
    to: Raster<HsvPixel>,
    a: int,
    b: int,
    colour: HsvPixel,
    point: Vec4,
)
    requires
        from.wf(),
        factor > 0,
        divisible(from, factor),
        pixelated(embed, recover, from, factor, to),
        0 <= a < from.width,
        0 <= b < from.height,
        forall|a2: int, b2: int|
            in_block(factor, a / (factor as int), b / (factor as int), a2, b2) ==> from.at(a2, b2)
                == colour,
        forall|e: Vec4| embed.ensures((colour,), e) ==> e == point,
        forall|back: HsvPixel| recover.ensures((point,), back) ==> back == colour,
    ensures
        to.at(a, b) == colour,
{
    let f = factor as int;
    let bi = a / f;
    let bj = b / f;
    let embedded = choose|embedded: Seq<Vec4>|
        {
            &&& #[trigger] maps_to(embed, from.pixels, embedded)
            &&& maps_to(
                recover,
                downsampled(
                    Raster { pixels: embedded, width: from.width, height: from.height },
                    factor,
                ).pixels,
                to.pixels,
            )
        };
    let middle = Raster { pixels: embedded, width: from.width, height: from.height };
    lemma_block_fits(factor, from.width, a);
    lemma_block_fits(factor, from.height, b);
    assert forall|a2: int, b2: int| in_block(factor, bi, bj, a2, b2) implies middle.at(a2, b2)
        == point by {
        assert(0 <= a2 && 0 <= b2) by (nonlinear_arith)
            requires
                bi * f <= a2,
                bj * f <= b2,
                bi >= 0,
                bj >= 0,
                f > 0,
        ;
        lemma_offset_in_bounds(from.width, from.height, a2, b2);
        let k2 = offset(from.height, a2, b2);
        assert(from.at(a2, b2) == colour);
        assert(embed.ensures((from.pixels[k2],), embedded[k2]));
    }
    lemma_uniform_block_unchanged(middle, factor, a, b, point);
    lemma_offset_in_bounds(from.width, from.height, a, b);
    let k = offset(from.height, a, b);
    let low = downsampled(middle, factor).pixels;
    assert(recover.ensures((low[k],), to.pixels[k]));
}


} // verus!
