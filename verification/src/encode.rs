use vstd::prelude::*;

verus! {

/// The error type of the `image` crate, carried through unread.
#[verifier::external_type_specification]
#[verifier::external_body]
pub struct ExImageError(image::ImageError);

/// The PNG file that the `image` crate writes for `width` by `height` RGBA pixels of eight
/// bits per channel, neither dimension being zero.
pub uninterp spec fn png_encoding(width: u32, height: u32, rgba: Seq<u8>) -> Seq<u8>;

/// Encodes a row-major RGBA buffer as a PNG file in memory, by
/// `image::write_buffer_with_format` with the colour type `Rgba8` and the format `Png`.
///
/// Not proved: that the encoder refuses an image exactly where its width or its height is
/// zero; and that the file it writes is `png_encoding` of the arguments, which says no more
/// than that equal pixels of equal dimensions always give the same file. The encoder
/// panics on a buffer of another length than `4 * width * height`, which the precondition
/// rules out.
#[verifier::external_body]
pub(crate) fn png_encode(width: u32, height: u32, rgba: &[u8]) -> (out: Result<
    Vec<u8>,
    image::ImageError,
>)
    requires
        rgba@.len() == 4 * width * height,
    ensures
        out is Ok <==> (width > 0 && height > 0),
        out matches Ok(bytes) ==> bytes@ == png_encoding(width, height, rgba@),
{
    let mut file = std::io::Cursor::new(Vec::new());
    image::write_buffer_with_format(
        &mut file,
        rgba,
        width,
        height,
        image::ColorType::Rgba8,
        image::ImageOutputFormat::Png,
    )?;
    Ok(file.into_inner())
}

} // verus!
