use crate::crop::rect_of;
use crate::error::SazanError;
use crate::grid::{all_contain, composed, crops, montage_canvas_fits};
use crate::raster::{
    buffer_len, dynamic_image_from_rgba_bytes, raster_of, rgba_bytes, views, Image, Raster,
};
use vstd::prelude::*;
use vstd::string::StringExecFns;

verus! {

/// A greeting, by which a host can tell that the library is loaded.
pub fn greet() -> (greeting: String)
    ensures
        greeting@ == "Hello, sazan-wasm!"@,
{
    String::from_str("Hello, sazan-wasm!")
}

/// Image number `i` of a flat buffer that holds images of `width` by `height` pixels one
/// after the other, each as `4 * width * height` bytes of row-major RGBA.
pub open spec fn flat_image(images_rgba: Seq<u8>, width: u32, height: u32, i: int) -> Raster {
    raster_of(
        width as nat,
        height as nat,
        images_rgba.subrange(i * (4 * width * height), (i + 1) * (4 * width * height)),
    )
}

/// The first `count` images of a flat buffer.
pub open spec fn flat_images(images_rgba: Seq<u8>, width: u32, height: u32, count: nat) -> Seq<
    Raster,
> {
    Seq::new(count, |i: int| flat_image(images_rgba, width, height, i))
}

/// Takes a flat buffer apart into `count` images of `width` by `height` pixels.
///
/// The buffer must hold exactly the bytes of that many images: a buffer of any other
/// length is rejected as a whole, none of it is used.
pub fn split_images(images_rgba: &[u8], width: u32, height: u32, count: u32) -> (out: Result<
    Vec<Image>,
    SazanError,
>)
    ensures
        match out {
            Ok(images) => {
                &&& images_rgba@.len() == 4 * width * height * count
                &&& views(images@) == flat_images(images_rgba@, width, height, count as nat)
            },
            Err(e) => e == SazanError::BufferLength && images_rgba@.len() != 4 * width * height
                * count,
        },
{
    let len = images_rgba.len();
    let mut images: Vec<Image> = Vec::new();
    if count == 0 {
        assert(4 * width * height * count == 0) by (nonlinear_arith)
            requires
                count == 0,
        ;
        if len == 0 {
            assert(views(images@) =~= flat_images(images_rgba@, width, height, 0));
            return Ok(images);
        } else {
            return Err(SazanError::BufferLength);
        }
    }
    let single: usize = match buffer_len(width, height) {
        Some(n) => n,
        None => {
            assert(4 * width * height * count >= 4 * width * height) by (nonlinear_arith)
                requires
                    count >= 1,
                    4 * width * height >= 0,
            ;
            return Err(SazanError::BufferLength);
        },
    };
    assert(single * count <= 0xffff_ffff_ffff_ffff * 0xffff_ffff) by (nonlinear_arith)
        requires
            0 <= single <= 0xffff_ffff_ffff_ffff,
            0 <= count <= 0xffff_ffff,
    ;
    if (single as u128) * (count as u128) != len as u128 {
        return Err(SazanError::BufferLength);
    }
    let mut i: u32 = 0;
    while i < count
        invariant
            i <= count,
            single == 4 * width * height,
            single * count == len,
            len == images_rgba@.len(),
            images@.len() == i,
            forall|k: int|
                0 <= k < i ==> (#[trigger] images@[k])@ == flat_image(
                    images_rgba@,
                    width,
                    height,
                    k,
                ),
        decreases count - i,
    {
        proof {
            assert(0 <= i * single && (i + 1) * single <= count * single && (i + 1) * single == i
                * single + single && count * single == single * count) by (nonlinear_arith)
                requires
                    0 <= i < count,
                    0 <= single,
            ;
        }
        let start: usize = (i as usize) * single;
        let part = vstd::slice::slice_subrange(images_rgba, start, start + single);
        images.push(dynamic_image_from_rgba_bytes(part, width, height));
        i = i + 1;
    }
    assert(views(images@) =~= flat_images(images_rgba@, width, height, count as nat));
    Ok(images)
}

/// Crops and grids images that come as one flat buffer, and returns the canvas as RGBA
/// bytes.
///
/// The buffer holds `num_images` images of `image_width` by `image_height` pixels one after
/// the other, each as row-major RGBA. Every image is cropped to `crop_width` by
/// `crop_height` pixels from `(crop_left, crop_top)`, and the crops are arranged in a grid
/// of `grid_cols` by `grid_rows` cells. A buffer whose length does not fit the claimed
/// dimensions and count is rejected before any image is made from it.
pub fn crop_and_grid_images(
    images_rgba: &[u8],
    image_width: u32,
    image_height: u32,
    num_images: u32,
    crop_left: u32,
    crop_top: u32,
    crop_width: u32,
    crop_height: u32,
    grid_cols: u32,
    grid_rows: u32,
) -> (out: Result<Vec<u8>, SazanError>)
    requires
        images_rgba@.len() == 4 * image_width * image_height * num_images && all_contain(
            flat_images(images_rgba@, image_width, image_height, num_images as nat),
            rect_of((crop_width, crop_height, crop_left, crop_top)),
        ) ==> montage_canvas_fits(
            num_images as nat,
            rect_of((crop_width, crop_height, crop_left, crop_top)),
            grid_cols as nat,
            grid_rows as nat,
        ),
    ensures
        ({
            let rect = rect_of((crop_width, crop_height, crop_left, crop_top));
            let images = flat_images(images_rgba@, image_width, image_height, num_images as nat);
            if images_rgba@.len() != 4 * image_width * image_height * num_images {
                out == Err::<Vec<u8>, SazanError>(SazanError::BufferLength)
            } else if !all_contain(images, rect) {
                out == Err::<Vec<u8>, SazanError>(SazanError::Bounds)
            } else {
                out matches Ok(bytes) && bytes@ == rgba_bytes(
                    composed(crops(images, rect), grid_cols as nat, grid_rows as nat),
                )
            }
        }),
{
    let images = match split_images(images_rgba, image_width, image_height, num_images) {
        Ok(images) => images,
        Err(e) => {
            return Err(e);
        },
    };
    let crop = (crop_width, crop_height, crop_left, crop_top);
    assert(images@.len() == views(images@).len());
    match crate::grid::crop_and_grid_images(
        images.as_slice(),
        crop,
        grid_cols as usize,
        grid_rows as usize,
    ) {
        Ok(canvas) => Ok(canvas.into_raw()),
        Err(e) => Err(e),
    }
}

} // verus!
