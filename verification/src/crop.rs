use crate::buffer::{append_span, lemma_span_in_bounds, span};
use crate::error::SazanError;
use crate::raster::{lemma_raster_of_bytes, pixel_at, raster_of, Image, Raster};
use vstd::prelude::*;

verus! {

/// A crop rectangle: its size and the offset of its top-left corner from the top-left corner
/// of the image it is applied to.
pub struct Rect {
    pub width: nat,
    pub height: nat,
    pub x: nat,
    pub y: nat,
}

/// The rectangle that a tuple `(width, height, x, y)` stands for.
pub open spec fn rect_of(t: (u32, u32, u32, u32)) -> Rect {
    Rect { width: t.0 as nat, height: t.1 as nat, x: t.2 as nat, y: t.3 as nat }
}

/// The rectangle lies within the image: it ends neither right of the last column nor below
/// the last row.
pub open spec fn contains_rect(r: Raster, rect: Rect) -> bool {
    rect.x + rect.width <= r.width && rect.y + rect.height <= r.height
}

/// The pixels of `r` in columns `[x, x + width)` and rows `[y, y + height)`, copied one for one.
pub open spec fn cropped(r: Raster, rect: Rect) -> Raster {
    Raster {
        width: rect.width,
        height: rect.height,
        rows: Seq::new(
            rect.height,
            |j: int| r.rows[rect.y + j].subrange(rect.x as int, (rect.x + rect.width) as int),
        ),
    }
}

/// What cropping owes: the cropped image where the rectangle lies within the image,
/// and a bounds error where it does not.
pub open spec fn crop_outcome(r: Raster, rect: Rect, out: Result<Image, SazanError>) -> bool {
    match out {
        Ok(img) => contains_rect(r, rect) && img@ == cropped(r, rect),
        Err(e) => !contains_rect(r, rect) && e == SazanError::Bounds,
    }
}

/// A crop within the image is well formed, has exactly the size of the rectangle,
/// and its pixel `(i, j)` is the source's pixel `(x + i, y + j)`.
pub proof fn lemma_cropped_pixels(r: Raster, rect: Rect)
    requires
        r.wf(),
        contains_rect(r, rect),
    ensures
        cropped(r, rect).wf(),
        cropped(r, rect).width == rect.width,
        cropped(r, rect).height == rect.height,
        forall|i: int, j: int|
            0 <= i < rect.width && 0 <= j < rect.height ==> #[trigger] cropped(r, rect).pixel(i, j)
                == r.pixel(rect.x + i, rect.y + j),
{
    let c = cropped(r, rect);
    assert forall|j: int| 0 <= j < c.height implies (#[trigger] c.rows[j]).len() == c.width by {
        assert(r.rows[rect.y + j].len() == r.width);
    }
}

/// Cropping is a function of the image and the rectangle: whatever two crops of one image by
/// one rectangle return, both fail or both succeed, and then with the same pixels.
pub proof fn lemma_crop_deterministic(
    r: Raster,
    rect: Rect,
    first: Result<Image, SazanError>,
    second: Result<Image, SazanError>,
)
    requires
        crop_outcome(r, rect, first),
        crop_outcome(r, rect, second),
    ensures
        first is Ok <==> second is Ok,
        first is Ok ==> first->Ok_0@ == second->Ok_0@,
        first is Err ==> first->Err_0 == second->Err_0,
{
}

/// Row `j` of a cropped buffer holds the bytes of the source row `y + j` from column `x` on:
/// then the cropped buffer holds the cropped image.
proof fn lemma_crop_buffers(src: Seq<u8>, sw: nat, sh: nat, out: Seq<u8>, rect: Rect)
    requires
        src.len() == 4 * sw * sh,
        out.len() == 4 * rect.width * rect.height,
        contains_rect(raster_of(sw, sh, src), rect),
        forall|j: int|
            0 <= j < rect.height ==> #[trigger] span(
                out,
                rect.width as int,
                0,
                j,
                rect.width as int,
            ) == span(src, sw as int, rect.x as int, rect.y + j, rect.width as int),
    ensures
        raster_of(rect.width, rect.height, out) == cropped(raster_of(sw, sh, src), rect),
{
    let a = raster_of(rect.width, rect.height, out);
    let s = raster_of(sw, sh, src);
    let b = cropped(s, rect);
    let w = rect.width as int;
    assert forall|j: int, i: int| 0 <= j < rect.height && 0 <= i < rect.width implies a.rows[j][i]
        == b.rows[j][i] by {
        lemma_span_in_bounds(w, rect.height as int, i, j, 1);
        lemma_span_in_bounds(w, rect.height as int, 0, j, w);
        lemma_span_in_bounds(sw as int, sh as int, rect.x as int, rect.y + j, w);
        let o = span(out, w, 0, j, w);
        let t = span(src, sw as int, rect.x as int, rect.y + j, w);
        assert(o == t);
        let k = 4 * (j * w + i);
        let m = 4 * ((rect.y + j) * sw + rect.x + i);
        assert(out[k] == o[4 * i] && out[k + 1] == o[4 * i + 1] && out[k + 2] == o[4 * i + 2]
            && out[k + 3] == o[4 * i + 3]);
        assert(src[m] == t[4 * i] && src[m + 1] == t[4 * i + 1] && src[m + 2] == t[4 * i + 2]
            && src[m + 3] == t[4 * i + 3]);
        assert(a.rows[j][i] == pixel_at(out, k));
        assert(s.rows[rect.y + j][rect.x + i] == pixel_at(src, m));
    }
    assert(a =~~= b);
}

/// Crops an image to a rectangle `(width, height, x, y)`.
///
/// The result holds exactly the pixels in columns `[x, x + width)` and rows
/// `[y, y + height)` of the source, with no resampling. A rectangle that reaches beyond the
/// image is rejected; it is neither clamped nor wrapped.
pub fn crop(image: &Image, rect: (u32, u32, u32, u32)) -> (out: Result<Image, SazanError>)
    ensures
        crop_outcome(image@, rect_of(rect), out),
{
    let (w, h, x, y) = rect;
    let (iw, ih) = image.dimensions();
    if x > iw || w > iw - x || y > ih || h > ih - y {
        return Err(SazanError::Bounds);
    }
    let src = image.as_raw();
    let ghost r = rect_of(rect);
    proof {
        image.lemma_view_wf();
        lemma_raster_of_bytes(image@);
    }
    let mut data: Vec<u8> = Vec::new();
    let mut j: u32 = 0;
    while j < h
        invariant
            j <= h,
            r == rect_of(rect),
            rect == (w, h, x, y),
            x + w <= iw,
            y + h <= ih,
            src@.len() == 4 * iw * ih,
            data@.len() == 4 * (j * w),
            forall|q: int|
                0 <= q < j ==> #[trigger] span(data@, w as int, 0, q, w as int) == span(
                    src@,
                    iw as int,
                    x as int,
                    y + q,
                    w as int,
                ),
        decreases h - j,
    {
        let ghost before = data@;
        proof {
            lemma_span_in_bounds(iw as int, ih as int, x as int, y + j, w as int);
        }
        append_span(&mut data, src.as_slice(), iw, x, y + j, w);
        proof {
            assert((j + 1) * w == j * w + w) by (nonlinear_arith);
            assert forall|q: int| 0 <= q < j + 1 implies #[trigger] span(
                data@,
                w as int,
                0,
                q,
                w as int,
            ) == span(src@, iw as int, x as int, y + q, w as int) by {
                if q < j {
                    assert((q + 1) * w <= j * w && (q + 1) * w == q * w + w && 0 <= q * w)
                        by (nonlinear_arith)
                        requires
                            0 <= q < j,
                            0 <= w,
                    ;
                    assert(span(data@, w as int, 0, q, w as int) =~= span(
                        before,
                        w as int,
                        0,
                        q,
                        w as int,
                    ));
                } else {
                    assert(span(data@, w as int, 0, q, w as int) =~= span(
                        src@,
                        iw as int,
                        x as int,
                        y + j,
                        w as int,
                    ));
                }
            }
        }
        j = j + 1;
    }
    proof {
        assert(4 * w * h == 4 * (h * w)) by (nonlinear_arith);
        lemma_crop_buffers(src@, iw as nat, ih as nat, data@, r);
    }
    Ok(Image::from_buffer(w, h, data))
}

/// Crops every image to the same rectangle, in input order.
///
/// Fails with a bounds error as soon as the rectangle reaches beyond one of the images.
pub fn crop_images(images: &[Image], rect: (u32, u32, u32, u32)) -> (out: Result<
    Vec<Image>,
    SazanError,
>)
    ensures
        match out {
            Ok(crops) => {
                &&& crops@.len() == images@.len()
                &&& forall|i: int|
                    0 <= i < images@.len() ==> contains_rect(#[trigger] images@[i]@, rect_of(rect))
                        && crops@[i]@ == cropped(images@[i]@, rect_of(rect))
            },
            Err(e) => e == SazanError::Bounds && exists|i: int|
                0 <= i < images@.len() && !contains_rect(#[trigger] images@[i]@, rect_of(rect)),
        },
{
    let mut crops: Vec<Image> = Vec::new();
    let mut i: usize = 0;
    while i < images.len()
        invariant
            i <= images@.len(),
            crops@.len() == i,
            forall|q: int|
                0 <= q < i ==> contains_rect(#[trigger] images@[q]@, rect_of(rect)) && crops@[q]@
                    == cropped(images@[q]@, rect_of(rect)),
        decreases images@.len() - i,
    {
        match crop(&images[i], rect) {
            Ok(c) => {
                crops.push(c);
            },
            Err(e) => {
                return Err(e);
            },
        }
        i = i + 1;
    }
    Ok(crops)
}

} // verus!
