use vstd::arithmetic::div_mod::{
    lemma_fundamental_div_mod, lemma_fundamental_div_mod_converse, lemma_multiply_divide_lt,
};
use vstd::arithmetic::mul::lemma_mul_is_commutative;
use vstd::prelude::*;

verus! {

/// One pixel: four channels of eight bits each, in the order red, green, blue, alpha.
#[derive(Clone, Copy, Debug, PartialEq, Eq, Structural)]
pub struct Pixel {
    pub r: u8,
    pub g: u8,
    pub b: u8,
    pub a: u8,
}

/// The fully transparent pixel that fills the unused cells of a grid.
pub open spec fn transparent() -> Pixel {
    Pixel { r: 0, g: 0, b: 0, a: 0 }
}

/// The mathematical model of an image: `rows[y][x]` is the pixel in column `x` of row `y`,
/// the origin being the top-left corner.
#[verifier::ext_equal]
pub struct Raster {
    pub width: nat,
    pub height: nat,
    pub rows: Seq<Seq<Pixel>>,
}

impl Raster {
    /// There are `height` rows, and each of them holds `width` pixels.
    pub open spec fn wf(self) -> bool {
        &&& self.rows.len() == self.height
        &&& forall|y: int| 0 <= y < self.height ==> (#[trigger] self.rows[y]).len() == self.width
    }

    /// The pixel in column `x` of row `y`.
    pub open spec fn pixel(self, x: int, y: int) -> Pixel
        recommends
            0 <= x < self.width,
            0 <= y < self.height,
    {
        self.rows[y][x]
    }
}

/// Channel `c` of a pixel: 0 is red, 1 green, 2 blue, anything else alpha.
pub open spec fn channel(p: Pixel, c: int) -> u8 {
    if c == 0 {
        p.r
    } else if c == 1 {
        p.g
    } else if c == 2 {
        p.b
    } else {
        p.a
    }
}

/// The pixel whose four channels start at index `k` of a byte buffer.
pub open spec fn pixel_at(data: Seq<u8>, k: int) -> Pixel {
    Pixel { r: data[k], g: data[k + 1], b: data[k + 2], a: data[k + 3] }
}

/// The image that a row-major RGBA buffer holds: pixel `(x, y)` starts at byte
/// `4 * (y * width + x)`.
pub open spec fn raster_of(width: nat, height: nat, data: Seq<u8>) -> Raster {
    Raster {
        width,
        height,
        rows: Seq::new(
            height,
            |y: int| Seq::new(width, |x: int| pixel_at(data, 4 * (y * width + x))),
        ),
    }
}

/// The row-major RGBA buffer of an image, `4 * width * height` bytes long.
pub open spec fn rgba_bytes(r: Raster) -> Seq<u8> {
    Seq::new(
        4 * r.width * r.height,
        |k: int| channel(r.rows[(k / 4) / (r.width as int)][(k / 4) % (r.width as int)], k % 4),
    )
}

/// Pixel number `p` of a `width` by `height` image lies in row `p / width`, column `p % width`.
pub proof fn lemma_pixel_position(p: int, width: int, height: int)
    requires
        0 <= p < width * height,
        0 <= height,
    ensures
        0 < width,
        0 <= p / width < height,
        0 <= p % width < width,
        p == (p / width) * width + p % width,
{
    assert(0 < width) by (nonlinear_arith)
        requires
            0 <= p < width * height,
            0 <= height,
    ;
    lemma_fundamental_div_mod(p, width);
    lemma_mul_is_commutative(width, p / width);
    lemma_multiply_divide_lt(p, width, height);
    assert(0 <= p / width) by (nonlinear_arith)
        requires
            0 <= p,
            0 < width,
    ;
}

/// Column `x` of row `y` is pixel number `y * width + x`, and the only one at that number.
pub proof fn lemma_pixel_number(x: int, y: int, width: int, height: int)
    requires
        0 <= x < width,
        0 <= y < height,
    ensures
        0 <= y * width + x < width * height,
        (y * width + x) / width == y,
        (y * width + x) % width == x,
{
    assert(y * width + x < width * height && 0 <= y * width) by (nonlinear_arith)
        requires
            0 <= x < width,
            0 <= y < height,
    ;
    lemma_mul_is_commutative(width, y);
    lemma_fundamental_div_mod_converse(y * width + x, width, y, x);
}

/// A buffer of the right length is the buffer of the image it holds.
pub proof fn lemma_bytes_of_raster(width: nat, height: nat, data: Seq<u8>)
    requires
        data.len() == 4 * width * height,
    ensures
        raster_of(width, height, data).wf(),
        rgba_bytes(raster_of(width, height, data)) == data,
{
    let r = raster_of(width, height, data);
    let b = rgba_bytes(r);
    assert(b.len() == data.len());
    assert forall|k: int| 0 <= k < data.len() implies b[k] == data[k] by {
        let p = k / 4;
        assert(4 * width * height == 4 * (width * height)) by (nonlinear_arith);
        lemma_pixel_position(p, width as int, height as int);
        let y = p / (width as int);
        let x = p % (width as int);
        assert(r.rows[y][x] == pixel_at(data, 4 * (y * width + x)));
    }
    assert(b =~= data);
}

/// A well-formed image is the image held by its own buffer.
pub proof fn lemma_raster_of_bytes(r: Raster)
    requires
        r.wf(),
    ensures
        rgba_bytes(r).len() == 4 * r.width * r.height,
        raster_of(r.width, r.height, rgba_bytes(r)) == r,
{
    let b = rgba_bytes(r);
    let q = raster_of(r.width, r.height, b);
    assert forall|y: int, x: int| 0 <= y < r.height && 0 <= x < r.width implies q.rows[y][x]
        == r.rows[y][x] by {
        lemma_pixel_number(x, y, r.width as int, r.height as int);
        let p = y * r.width + x;
        assert(4 * r.width * r.height == 4 * (r.width * r.height)) by (nonlinear_arith);
        assert(q.rows[y][x] == pixel_at(b, 4 * p));
        assert((4 * p) / 4 == p && (4 * p + 1) / 4 == p && (4 * p + 2) / 4 == p && (4 * p + 3) / 4
            == p);
    }
    assert(q =~~= r);
}

/// An image in memory: its dimensions and its pixels as one row-major RGBA buffer.
///
/// The buffer always holds exactly `4 * width * height` bytes.
#[derive(Debug)]
pub struct Image {
    width: u32,
    height: u32,
    data: Vec<u8>,
}

impl View for Image {
    type V = Raster;

    closed spec fn view(&self) -> Raster {
        raster_of(self.width as nat, self.height as nat, self.data@)
    }
}

/// The images of a sequence, each by its model.
pub open spec fn views(images: Seq<Image>) -> Seq<Raster> {
    Seq::new(images.len(), |i: int| images[i]@)
}

/// The buffer length `4 * width * height`, or `None` where that does not fit in `usize`.
pub fn buffer_len(width: u32, height: u32) -> (r: Option<usize>)
    ensures
        match r {
            Some(n) => n == 4 * width * height,
            None => 4 * width * height > usize::MAX,
        },
{
    assert(width * height <= 0xffff_ffff_0000_0000) by (nonlinear_arith)
        requires
            width <= 0xffff_ffff,
            height <= 0xffff_ffff,
    ;
    assert(4 * width * height == 4 * (width * height)) by (nonlinear_arith);
    let n: u128 = 4u128 * ((width as u128) * (height as u128));
    if n <= usize::MAX as u128 {
        Some(n as usize)
    } else {
        None
    }
}

impl Image {
    #[verifier::type_invariant]
    spec fn inv(self) -> bool {
        self.data@.len() == 4 * self.width * self.height
    }

    /// Every image is well formed.
    pub proof fn lemma_view_wf(&self)
        ensures
            self@.wf(),
    {
    }

    /// Wraps a row-major RGBA buffer whose length is known to fit the dimensions.
    pub(crate) fn from_buffer(width: u32, height: u32, data: Vec<u8>) -> (img: Image)
        requires
            data@.len() == 4 * width * height,
        ensures
            img@ == raster_of(width as nat, height as nat, data@),
    {
        Image { width, height, data }
    }

    /// Wraps a row-major RGBA buffer as an image, where the buffer has exactly the length
    /// that the dimensions require.
    pub fn from_raw(width: u32, height: u32, data: Vec<u8>) -> (r: Option<Image>)
        ensures
            r is Some <==> data@.len() == 4 * width * height,
            r matches Some(img) ==> img@ == raster_of(width as nat, height as nat, data@)
                && rgba_bytes(img@) == data@,
    {
        let len = data.len();
        match buffer_len(width, height) {
            Some(n) => {
                if len == n {
                    proof {
                        lemma_bytes_of_raster(width as nat, height as nat, data@);
                    }
                    Some(Image { width, height, data })
                } else {
                    None
                }
            },
            None => None,
        }
    }

    /// The number of columns.
    pub fn width(&self) -> (w: u32)
        ensures
            w == self@.width,
    {
        self.width
    }

    /// The number of rows.
    pub fn height(&self) -> (h: u32)
        ensures
            h == self@.height,
    {
        self.height
    }

    /// Width and height, in this order.
    pub fn dimensions(&self) -> (d: (u32, u32))
        ensures
            d.0 == self@.width,
            d.1 == self@.height,
    {
        (self.width, self.height)
    }

    /// The pixels as a row-major RGBA buffer.
    pub fn as_raw(&self) -> (r: &Vec<u8>)
        ensures
            r@ == rgba_bytes(self@),
            r@.len() == 4 * self@.width * self@.height,
    {
        proof {
            use_type_invariant(self);
            lemma_bytes_of_raster(self.width as nat, self.height as nat, self.data@);
        }
        &self.data
    }

    /// Gives up the image for its row-major RGBA buffer.
    pub fn into_raw(self) -> (r: Vec<u8>)
        ensures
            r@ == rgba_bytes(self@),
            r@.len() == 4 * self@.width * self@.height,
    {
        proof {
            use_type_invariant(&self);
            lemma_bytes_of_raster(self.width as nat, self.height as nat, self.data@);
        }
        self.data
    }

    /// The pixel in column `x` of row `y`.
    pub fn get_pixel(&self, x: u32, y: u32) -> (p: Pixel)
        requires
            x < self@.width,
            y < self@.height,
        ensures
            p == self@.rows[y as int][x as int],
    {
        proof {
            use_type_invariant(self);
            lemma_pixel_number(x as int, y as int, self.width as int, self.height as int);
            assert(4 * self.width * self.height == 4 * (self.width * self.height))
                by (nonlinear_arith);
            assert(0 <= y * self.width) by (nonlinear_arith);
            assert(4 * (y * self.width + x) + 3 < self.data.len());
        }
        let k: usize = 4 * (y as usize * self.width as usize + x as usize);
        Pixel { r: self.data[k], g: self.data[k + 1], b: self.data[k + 2], a: self.data[k + 3] }
    }
}

/// A buffer holds the same image as any longer buffer that starts with it.
pub proof fn lemma_raster_of_prefix(width: nat, height: nat, data: Seq<u8>)
    requires
        data.len() >= 4 * width * height,
    ensures
        raster_of(width, height, data.subrange(0, (4 * width * height) as int)) == raster_of(
            width,
            height,
            data,
        ),
{
    let head = data.subrange(0, (4 * width * height) as int);
    let a = raster_of(width, height, head);
    let b = raster_of(width, height, data);
    assert forall|y: int, x: int| 0 <= y < height && 0 <= x < width implies a.rows[y][x]
        == b.rows[y][x] by {
        lemma_pixel_number(x, y, width as int, height as int);
        assert(4 * width * height == 4 * (width * height)) by (nonlinear_arith);
        let k = 4 * (y * width + x);
        assert(a.rows[y][x] == pixel_at(head, k));
        assert(b.rows[y][x] == pixel_at(data, k));
    }
    assert(a =~~= b);
}

/// Makes an image from raw RGBA bytes, such as a browser's image data: `width * height`
/// pixels, row by row, four bytes each.
///
/// The buffer must hold at least `4 * width * height` bytes; what it holds beyond them
/// is not part of the image.
pub fn dynamic_image_from_rgba_bytes(rgba: &[u8], width: u32, height: u32) -> (image: Image)
    requires
        rgba@.len() >= 4 * width * height,
    ensures
        image@ == raster_of(width as nat, height as nat, rgba@),
{
    proof {
        assert(rgba@.len() == rgba.len());
        assert(0 <= width * height && 4 * width * height == 4 * (width * height))
            by (nonlinear_arith);
        lemma_raster_of_prefix(width as nat, height as nat, rgba@);
    }
    let n: usize = 4 * (width as usize * height as usize);
    let data = vstd::slice::slice_to_vec(vstd::slice::slice_subrange(rgba, 0, n));
    Image::from_buffer(width, height, data)
}

} // verus!
