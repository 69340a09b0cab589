use vstd::prelude::*;

verus! {

/// The bytes of the `n` pixels that start at column `x` of row `y`, in a row-major RGBA buffer
/// of an image `width` pixels wide.
pub(crate) open spec fn span(data: Seq<u8>, width: int, x: int, y: int, n: int) -> Seq<u8> {
    data.subrange(4 * (y * width + x), 4 * (y * width + x + n))
}

/// `n` transparent pixels as bytes.
pub(crate) open spec fn blank(n: int) -> Seq<u8> {
    Seq::new((4 * n) as nat, |k: int| 0u8)
}

/// A run of pixels within one row of an image lies within the image's buffer.
pub(crate) proof fn lemma_span_in_bounds(width: int, height: int, x: int, y: int, n: int)
    requires
        0 <= x,
        0 <= n,
        x + n <= width,
        0 <= y < height,
    ensures
        0 <= y * width,
        0 <= 4 * (y * width + x) <= 4 * (y * width + x + n) <= 4 * (width * height),
        4 * width * height == 4 * (width * height),
{
    assert(0 <= y * width && (y + 1) * width <= height * width && (y + 1) * width == y * width
        + width && height * width == width * height && 4 * width * height == 4 * (width * height))
        by (nonlinear_arith)
        requires
            0 <= width,
            0 <= y < height,
    ;
}

/// Appends to `out` the `n` pixels that start at column `x` of row `y` of the image in `src`.
pub(crate) fn append_span(out: &mut Vec<u8>, src: &[u8], width: u32, x: u32, y: u32, n: u32)
    requires
        x + n <= width,
        4 * (y * width + x + n) <= src@.len(),
    ensures
        final(out)@ == old(out)@ + span(src@, width as int, x as int, y as int, n as int),
{
    proof {
        assert(0 <= y * width) by (nonlinear_arith);
        assert(src@.len() == src.len());
    }
    let start: usize = 4 * (y as usize * width as usize + x as usize);
    let end: usize = start + 4 * (n as usize);
    let part = vstd::slice::slice_subrange(src, start, end);
    let ghost before = out@;
    out.extend_from_slice(part);
    assert(out@ =~= before + part@);
}

/// Appends `n` transparent pixels to `out`.
pub(crate) fn append_blank(out: &mut Vec<u8>, n: u32)
    ensures
        final(out)@ == old(out)@ + blank(n as int),
{
    let ghost before = out@;
    let mut i: u32 = 0;
    while i < n
        invariant
            i <= n,
            out@ == before + blank(i as int),
        decreases n - i,
    {
        out.push(0u8);
        out.push(0u8);
        out.push(0u8);
        out.push(0u8);
        i = i + 1;
        assert(out@ =~= before + blank(i as int));
    }
}

} // verus!
