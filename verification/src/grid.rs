use crate::buffer::{append_blank, append_span, blank, lemma_span_in_bounds, span};
use crate::crop::{contains_rect, crop_images, cropped, lemma_cropped_pixels, rect_of, Rect};
use crate::error::SazanError;
use crate::raster::{
    lemma_pixel_number, lemma_pixel_position, lemma_raster_of_bytes, pixel_at, raster_of,
    rgba_bytes, transparent, views, Image, Pixel, Raster,
};
use vstd::prelude::*;

verus! {

/// The size of one grid cell: that of the first image, and 1 by 1 where there is no image.
pub open spec fn cell_size(cells: Seq<Raster>) -> (nat, nat) {
    if cells.len() == 0 {
        (1, 1)
    } else {
        (cells[0].width, cells[0].height)
    }
}

/// Every image that the grid has a cell for is well formed and has the size of a cell.
pub open spec fn uniform(cells: Seq<Raster>, cols: nat, rows: nat) -> bool {
    forall|i: int|
        0 <= i < cells.len() && i < cols * rows ==> {
            &&& (#[trigger] cells[i]).wf()
            &&& cells[i].width == cell_size(cells).0
            &&& cells[i].height == cell_size(cells).1
        }
}

/// The canvas of a grid of `cols` by `rows` cells of `w` by `h` pixels can be held in memory:
/// its dimensions fit in `u32` and its buffer length in `usize`.
pub open spec fn canvas_fits(w: nat, h: nat, cols: nat, rows: nat) -> bool {
    &&& w * cols <= u32::MAX
    &&& h * rows <= u32::MAX
    &&& 4 * (w * cols) * (h * rows) <= usize::MAX
}

/// The pixel `(x, y)` of the canvas. Cells are numbered row by row from the top-left one;
/// cell `i` shows image `i`, and is transparent where there is no such image.
pub open spec fn grid_pixel(
    cells: Seq<Raster>,
    cols: nat,
    w: nat,
    h: nat,
    x: int,
    y: int,
) -> Pixel {
    let i = (y / (h as int)) * cols + x / (w as int);
    if i < cells.len() {
        cells[i].rows[y % (h as int)][x % (w as int)]
    } else {
        transparent()
    }
}

/// The montage of the images in a grid of `cols` by `rows` cells.
pub open spec fn composed(cells: Seq<Raster>, cols: nat, rows: nat) -> Raster {
    let (w, h) = cell_size(cells);
    Raster {
        width: w * cols,
        height: h * rows,
        rows: Seq::new(
            h * rows,
            |y: int| Seq::new(w * cols, |x: int| grid_pixel(cells, cols, w, h, x, y)),
        ),
    }
}

/// The bytes that cell column `c` contributes to canvas row `y`.
spec fn piece(cells: Seq<Raster>, cols: nat, w: nat, h: nat, c: int, y: int) -> Seq<u8> {
    let i = (y / (h as int)) * cols + c;
    if i < cells.len() {
        span(rgba_bytes(cells[i]), w as int, 0, y % (h as int), w as int)
    } else {
        blank(w as int)
    }
}

/// A buffer that holds, for every canvas row and cell column, the bytes of that cell's
/// line is the buffer of the montage.
proof fn lemma_canvas_buffer(cells: Seq<Raster>, cols: nat, rows: nat, data: Seq<u8>)
    requires
        uniform(cells, cols, rows),
        cell_size(cells).0 > 0,
        cell_size(cells).1 > 0,
        data.len() == 4 * (cell_size(cells).0 * cols) * (cell_size(cells).1 * rows),
        forall|y: int, c: int|
            0 <= y < cell_size(cells).1 * rows && 0 <= c < cols ==> span(
                data,
                (cell_size(cells).0 * cols) as int,
                c * cell_size(cells).0,
                y,
                cell_size(cells).0 as int,
            ) == #[trigger] piece(cells, cols, cell_size(cells).0, cell_size(cells).1, c, y),
    ensures
        raster_of(cell_size(cells).0 * cols, cell_size(cells).1 * rows, data) == composed(
            cells,
            cols,
            rows,
        ),
{
    let (w, h) = cell_size(cells);
    let cw = (w * cols) as int;
    let ch = (h * rows) as int;
    let a = raster_of(w * cols, h * rows, data);
    let b = composed(cells, cols, rows);
    assert forall|y: int, x: int| 0 <= y < ch && 0 <= x < cw implies a.rows[y][x]
        == b.rows[y][x] by {
        assert(w * cols == (w as int) * (cols as int));
        lemma_pixel_position(x, w as int, cols as int);
        lemma_pixel_position(y, h as int, rows as int);
        let c = x / (w as int);
        let i = x % (w as int);
        let band = y / (h as int);
        let line = y % (h as int);
        let n = band * cols + c;
        lemma_pixel_number(c, band, cols as int, rows as int);
        assert(c * w + w <= w * cols && 0 <= c * w) by (nonlinear_arith)
            requires
                0 <= c < cols,
                0 <= w,
        ;
        lemma_span_in_bounds(cw, ch, c * w, y, w as int);
        let s = span(data, cw, c * w, y, w as int);
        assert(s == piece(cells, cols, w, h, c, y));
        let k = 4 * (y * cw + x);
        assert(a.rows[y][x] == pixel_at(data, k));
        assert(data[k] == s[4 * i] && data[k + 1] == s[4 * i + 1] && data[k + 2] == s[4 * i + 2]
            && data[k + 3] == s[4 * i + 3]);
        assert(b.rows[y][x] == grid_pixel(cells, cols, w, h, x, y));
        if n < cells.len() {
            let cell = cells[n];
            assert(cell.wf() && cell.width == w && cell.height == h);
            lemma_raster_of_bytes(cell);
            lemma_span_in_bounds(w as int, h as int, 0, line, w as int);
            let bytes = rgba_bytes(cell);
            let m = 4 * (line * w + i);
            assert(bytes[m] == s[4 * i] && bytes[m + 1] == s[4 * i + 1] && bytes[m + 2] == s[4 * i
                + 2] && bytes[m + 3] == s[4 * i + 3]);
            assert(raster_of(w, h, bytes).rows[line][i] == pixel_at(bytes, m));
        } else {
            assert(s == blank(w as int));
        }
    }
    assert(a =~~= b);
}

/// Appends row `y` of the canvas to the buffer: for each cell column in turn, the line of
/// the image shown there, or a transparent line.
fn append_canvas_row(
    data: &mut Vec<u8>,
    images: &[Image],
    cols: usize,
    rows: usize,
    w: u32,
    h: u32,
    y: u32,
)
    requires
        w > 0,
        h > 0,
        cell_size(views(images@)) == (w as nat, h as nat),
        uniform(views(images@), cols as nat, rows as nat),
        y < h * rows,
        cols * rows <= usize::MAX,
    ensures
        final(data)@.len() == old(data)@.len() + 4 * (w * cols),
        forall|k: int| 0 <= k < old(data)@.len() ==> final(data)@[k] == old(data)@[k],
        forall|c: int|
            0 <= c < cols ==> final(data)@.subrange(
                old(data)@.len() + 4 * (c * w),
                old(data)@.len() + 4 * (c * w + w),
            ) == #[trigger] piece(views(images@), cols as nat, w as nat, h as nat, c, y as int),
{
    let ghost cells = views(images@);
    let ghost start = data@;
    let band: usize = (y / h) as usize;
    let line: u32 = y % h;
    proof {
        lemma_pixel_position(y as int, h as int, rows as int);
        assert(band * cols + cols <= cols * rows && 0 <= band * cols) by (nonlinear_arith)
            requires
                0 <= band < rows,
                0 <= cols,
        ;
    }
    let mut c: usize = 0;
    while c < cols
        invariant
            c <= cols,
            w > 0,
            h > 0,
            cells == views(images@),
            cell_size(cells) == (w as nat, h as nat),
            uniform(cells, cols as nat, rows as nat),
            band == y / h,
            line == y % h,
            band * cols + cols <= cols * rows,
            0 <= band * cols,
            cols * rows <= usize::MAX,
            data@.len() == start.len() + 4 * (c * w),
            forall|k: int| 0 <= k < start.len() ==> data@[k] == start[k],
            forall|q: int|
                0 <= q < c ==> data@.subrange(
                    start.len() + 4 * (q * w),
                    start.len() + 4 * (q * w + w),
                ) == #[trigger] piece(cells, cols as nat, w as nat, h as nat, q, y as int),
        decreases cols - c,
    {
        let ghost before = data@;
        let i: usize = band * cols + c;
        if i < images.len() {
            let image = &images[i];
            proof {
                assert(cells[i as int] == image@);
                assert(cells[i as int].wf() && cells[i as int].width == w && cells[i as int].height
                    == h);
                lemma_span_in_bounds(w as int, h as int, 0, line as int, w as int);
            }
            append_span(data, image.as_raw().as_slice(), w, 0, line, w);
        } else {
            append_blank(data, w);
        }
        proof {
            let added = piece(cells, cols as nat, w as nat, h as nat, c as int, y as int);
            assert(data@ == before + added);
            assert(added.len() == 4 * w);
            assert((c + 1) * w == c * w + w) by (nonlinear_arith);
            assert forall|q: int| 0 <= q < c + 1 implies data@.subrange(
                start.len() + 4 * (q * w),
                start.len() + 4 * (q * w + w),
            ) == #[trigger] piece(cells, cols as nat, w as nat, h as nat, q, y as int) by {
                if q < c {
                    assert(q * w + w <= c * w && 0 <= q * w) by (nonlinear_arith)
                        requires
                            0 <= q < c,
                            0 <= w,
                    ;
                    assert(data@.subrange(start.len() + 4 * (q * w), start.len() + 4 * (q * w + w))
                        =~= before.subrange(
                        start.len() + 4 * (q * w),
                        start.len() + 4 * (q * w + w),
                    ));
                } else {
                    assert(data@.subrange(start.len() + 4 * (q * w), start.len() + 4 * (q * w + w))
                        =~= added);
                }
            }
        }
        c = c + 1;
    }
    assert(cols * w == w * cols) by (nonlinear_arith);
}

/// Arranges images in a grid of `cols` by `rows` cells, left to right and then top to
/// bottom, on a fresh canvas.
///
/// A cell has the size of the first image, or 1 by 1 where there is no image. Cell `i`
/// shows image `i`; the cells that no image is left for stay fully transparent, and the
/// images that no cell is left for are not shown. The images that are shown must all have
/// the size of a cell: an image of another size is a size mismatch.
pub fn combine_grid(images: &[Image], cols: usize, rows: usize) -> (out: Result<Image, SazanError>)
    requires
        uniform(views(images@), cols as nat, rows as nat) ==> canvas_fits(
            cell_size(views(images@)).0,
            cell_size(views(images@)).1,
            cols as nat,
            rows as nat,
        ),
    ensures
        match out {
            Ok(canvas) => uniform(views(images@), cols as nat, rows as nat) && canvas@ == composed(
                views(images@),
                cols as nat,
                rows as nat,
            ),
            Err(e) => !uniform(views(images@), cols as nat, rows as nat) && e
                == SazanError::SizeMismatch,
        },
{
    let ghost cells = views(images@);
    let len = images.len();
    let (w, h) = if len > 0 {
        images[0].dimensions()
    } else {
        (1, 1)
    };
    assert(cell_size(cells) == (w as nat, h as nat));
    let limit: usize = match cols.checked_mul(rows) {
        Some(total) => if total < len {
            total
        } else {
            len
        },
        None => len,
    };
    let mut i: usize = 0;
    while i < limit
        invariant
            i <= limit,
            limit <= len,
            limit <= cols * rows,
            len == images@.len(),
            cells == views(images@),
            cell_size(cells) == (w as nat, h as nat),
            forall|q: int|
                0 <= q < i ==> (#[trigger] cells[q]).wf() && cells[q].width == w && cells[q].height
                    == h,
        decreases limit - i,
    {
        let image = &images[i];
        proof {
            image.lemma_view_wf();
            assert(cells[i as int] == image@);
        }
        let (iw, ih) = image.dimensions();
        if iw != w || ih != h {
            return Err(SazanError::SizeMismatch);
        }
        i = i + 1;
    }
    assert(uniform(cells, cols as nat, rows as nat));
    let cw: u32 = if w == 0 || cols == 0 {
        0
    } else {
        assert(cols <= w * cols) by (nonlinear_arith)
            requires
                w >= 1,
                cols >= 0,
        ;
        w * (cols as u32)
    };
    let ch: u32 = if h == 0 || rows == 0 {
        0
    } else {
        assert(rows <= h * rows) by (nonlinear_arith)
            requires
                h >= 1,
                rows >= 0,
        ;
        h * (rows as u32)
    };
    assert(cw == w * cols && ch == h * rows) by (nonlinear_arith)
        requires
            cw == if w == 0 || cols == 0 {
                0
            } else {
                w * cols
            },
            ch == if h == 0 || rows == 0 {
                0
            } else {
                h * rows
            },
    ;
    let mut data: Vec<u8> = Vec::new();
    if cw == 0 || ch == 0 {
        proof {
            assert(4 * cw * ch == 0) by (nonlinear_arith)
                requires
                    cw == 0 || ch == 0,
            ;
            assert(raster_of(cw as nat, ch as nat, data@) =~~= composed(
                cells,
                cols as nat,
                rows as nat,
            ));
        }
        return Ok(Image::from_buffer(cw, ch, data));
    }
    proof {
        assert(cols * rows <= 4 * (w * cols) * (h * rows)) by (nonlinear_arith)
            requires
                w >= 1,
                h >= 1,
                cols >= 1,
                rows >= 1,
        ;
    }
    let mut y: u32 = 0;
    while y < ch
        invariant
            y <= ch,
            w > 0,
            h > 0,
            cw == w * cols,
            ch == h * rows,
            cols * rows <= usize::MAX,
            cells == views(images@),
            cell_size(cells) == (w as nat, h as nat),
            uniform(cells, cols as nat, rows as nat),
            data@.len() == 4 * (y * cw),
            forall|q: int, c: int|
                0 <= q < y && 0 <= c < cols ==> span(data@, cw as int, c * w, q, w as int)
                    == #[trigger] piece(cells, cols as nat, w as nat, h as nat, c, q),
        decreases ch - y,
    {
        let ghost before = data@;
        append_canvas_row(&mut data, images, cols, rows, w, h, y);
        proof {
            assert((y + 1) * cw == y * cw + cw) by (nonlinear_arith);
            assert forall|q: int, c: int| 0 <= q < y + 1 && 0 <= c < cols implies span(
                data@,
                cw as int,
                c * w,
                q,
                w as int,
            ) == #[trigger] piece(cells, cols as nat, w as nat, h as nat, c, q) by {
                assert(c * w + w <= w * cols && 0 <= c * w) by (nonlinear_arith)
                    requires
                        0 <= c < cols,
                        0 <= w,
                ;
                if q < y {
                    assert(q * cw + cw <= y * cw && 0 <= q * cw) by (nonlinear_arith)
                        requires
                            0 <= q < y,
                            0 <= cw,
                    ;
                    assert(span(data@, cw as int, c * w, q, w as int) =~= span(
                        before,
                        cw as int,
                        c * w,
                        q,
                        w as int,
                    ));
                } else {
                    assert(span(data@, cw as int, c * w, q, w as int) =~= data@.subrange(
                        before.len() + 4 * (c * w),
                        before.len() + 4 * (c * w + w),
                    ));
                }
            }
        }
        y = y + 1;
    }
    proof {
        assert(4 * (ch * cw) == 4 * (w * cols) * (h * rows)) by (nonlinear_arith)
            requires
                cw == w * cols,
                ch == h * rows,
        ;
        assert(4 * cw * ch == 4 * (ch * cw)) by (nonlinear_arith);
        lemma_canvas_buffer(cells, cols as nat, rows as nat, data@);
    }
    Ok(Image::from_buffer(cw, ch, data))
}

/// The images of a sequence, each cropped to the same rectangle.
pub open spec fn crops(images: Seq<Raster>, rect: Rect) -> Seq<Raster> {
    Seq::new(images.len(), |i: int| cropped(images[i], rect))
}

/// The rectangle lies within every image of the sequence.
pub open spec fn all_contain(images: Seq<Raster>, rect: Rect) -> bool {
    forall|i: int| 0 <= i < images.len() ==> contains_rect(#[trigger] images[i], rect)
}

/// The size of a grid cell for `n` images cropped to a rectangle: that of the rectangle,
/// and 1 by 1 where there is no image.
pub open spec fn crop_cell_size(n: nat, rect: Rect) -> (nat, nat) {
    if n == 0 {
        (1, 1)
    } else {
        (rect.width, rect.height)
    }
}

/// Crops of well-formed images by one rectangle that lies within each of them all have
/// the size of the rectangle: they are uniform for any grid, and the size of a cell is that
/// of the rectangle.
pub proof fn lemma_crops_uniform(images: Seq<Raster>, rect: Rect, cols: nat, rows: nat)
    requires
        forall|i: int| 0 <= i < images.len() ==> (#[trigger] images[i]).wf(),
        all_contain(images, rect),
    ensures
        uniform(crops(images, rect), cols, rows),
        cell_size(crops(images, rect)) == crop_cell_size(images.len(), rect),
{
    let cells = crops(images, rect);
    assert forall|i: int| 0 <= i < cells.len() implies (#[trigger] cells[i]).wf() && cells[i].width
        == rect.width && cells[i].height == rect.height by {
        assert(images[i].wf() && contains_rect(images[i], rect));
        lemma_cropped_pixels(images[i], rect);
    }
}

/// What crop and grid owes for images, a rectangle and a grid: the montage of the crops
/// where the rectangle lies within every image, and a bounds error where it does not.
pub open spec fn montage_outcome(
    images: Seq<Raster>,
    rect: Rect,
    cols: nat,
    rows: nat,
    out: Result<Image, SazanError>,
) -> bool {
    match out {
        Ok(canvas) => all_contain(images, rect) && canvas@ == composed(
            crops(images, rect),
            cols,
            rows,
        ),
        Err(e) => !all_contain(images, rect) && e == SazanError::Bounds,
    }
}

/// The canvas for `count` images cropped to a rectangle and arranged in a grid of `cols` by
/// `rows` cells can be held in memory.
pub open spec fn montage_canvas_fits(count: nat, rect: Rect, cols: nat, rows: nat) -> bool {
    canvas_fits(crop_cell_size(count, rect).0, crop_cell_size(count, rect).1, cols, rows)
}

/// Tells whether the canvas for `count` images cropped to `crop` and arranged in a grid of
/// `cols` by `rows` cells can be held in memory.
pub fn montage_fits(count: usize, crop: (u32, u32, u32, u32), cols: usize, rows: usize) -> (fits:
    bool)
    ensures
        fits == montage_canvas_fits(count as nat, rect_of(crop), cols as nat, rows as nat),
{
    if count == 0 {
        grid_fits(1, 1, cols, rows)
    } else {
        grid_fits(crop.0, crop.1, cols, rows)
    }
}

/// Crops every image to the rectangle `(width, height, x, y)` and arranges the crops in a
/// grid of `cols` by `rows` cells, left to right and then top to bottom.
///
/// The canvas measures `width * cols` by `height * rows` pixels (`cols` by `rows` where
/// there is no image). Cells that no image is left for are fully transparent. A rectangle
/// that reaches beyond one of the images fails the whole operation with a bounds error.
/// Where the rectangle lies within every image, the canvas must be one that can be held in
/// memory.
pub fn crop_and_grid_images(
    images: &[Image],
    crop: (u32, u32, u32, u32),
    cols: usize,
    rows: usize,
) -> (out: Result<Image, SazanError>)
    requires
        all_contain(views(images@), rect_of(crop)) ==> montage_canvas_fits(
            images@.len(),
            rect_of(crop),
            cols as nat,
            rows as nat,
        ),
    ensures
        montage_outcome(views(images@), rect_of(crop), cols as nat, rows as nat, out),
{
    let ghost rect = rect_of(crop);
    let ghost cells = crops(views(images@), rect);
    match crop_images(images, crop) {
        Ok(cropped_images) => {
            proof {
                assert(views(cropped_images@) =~= cells);
                assert forall|i: int| 0 <= i < images@.len() implies contains_rect(
                    #[trigger] views(images@)[i],
                    rect,
                ) by {
                    assert(contains_rect(images@[i]@, rect));
                }
                assert forall|i: int| 0 <= i < images@.len() implies (#[trigger] views(
                    images@,
                )[i]).wf() by {
                    images@[i].lemma_view_wf();
                }
                lemma_crops_uniform(views(images@), rect, cols as nat, rows as nat);
            }
            combine_grid(cropped_images.as_slice(), cols, rows)
        },
        Err(e) => {
            proof {
                let i = choose|i: int|
                    0 <= i < images@.len() && !contains_rect(#[trigger] images@[i]@, rect);
                assert(!contains_rect(views(images@)[i], rect));
            }
            Err(e)
        },
    }
}

/// An image of `width` by `height` fully transparent pixels.
pub open spec fn clear(width: nat, height: nat) -> Raster {
    Raster {
        width,
        height,
        rows: Seq::new(height, |y: int| Seq::new(width, |x: int| transparent())),
    }
}

/// The place of cell `i` on the canvas of a grid with `cols` columns and cells of `w` by
/// `h` pixels: column `i mod cols` and row `i div cols`, counted in cells.
pub open spec fn cell_rect(i: nat, cols: nat, w: nat, h: nat) -> Rect {
    Rect { width: w, height: h, x: (i % cols) * w, y: (i / cols) * h }
}

/// What cell `i` of a montage shows: image `i`, or nothing where the images have run out.
pub open spec fn cell_content(cells: Seq<Raster>, i: nat) -> Raster {
    if i < cells.len() {
        cells[i as int]
    } else {
        clear(cell_size(cells).0, cell_size(cells).1)
    }
}

/// The canvas of a montage is well formed and measures exactly `w * cols` by `h * rows`,
/// `w` by `h` being the size of a cell.
pub proof fn lemma_composed_size(cells: Seq<Raster>, cols: nat, rows: nat)
    ensures
        composed(cells, cols, rows).wf(),
        composed(cells, cols, rows).width == cell_size(cells).0 * cols,
        composed(cells, cols, rows).height == cell_size(cells).1 * rows,
{
}

/// Cell `i` of a montage lies within the canvas and shows image `i` pixel for pixel; a cell
/// that no image is left for is fully transparent.
pub proof fn lemma_composed_cell(cells: Seq<Raster>, cols: nat, rows: nat, i: nat)
    requires
        uniform(cells, cols, rows),
        i < cols * rows,
    ensures
        contains_rect(
            composed(cells, cols, rows),
            cell_rect(i, cols, cell_size(cells).0, cell_size(cells).1),
        ),
        cropped(
            composed(cells, cols, rows),
            cell_rect(i, cols, cell_size(cells).0, cell_size(cells).1),
        ) == cell_content(cells, i),
{
    let (w, h) = cell_size(cells);
    let canvas = composed(cells, cols, rows);
    let rect = cell_rect(i, cols, w, h);
    let shown = cropped(canvas, rect);
    let content = cell_content(cells, i);
    lemma_pixel_position(i as int, cols as int, rows as int);
    let band = (i / cols) as int;
    let c = (i % cols) as int;
    assert(c * w + w <= w * cols && band * h + h <= h * rows && 0 <= c * w && 0 <= band * h)
        by (nonlinear_arith)
        requires
            0 <= c < cols,
            0 <= band < rows,
            0 <= w,
            0 <= h,
    ;
    assert(content.wf() && content.width == w && content.height == h);
    assert forall|y: int, x: int| 0 <= y < h && 0 <= x < w implies shown.rows[y][x]
        == content.rows[y][x] by {
        lemma_pixel_number(x, c, w as int, cols as int);
        lemma_pixel_number(y, band, h as int, rows as int);
        assert(shown.rows[y][x] == canvas.rows[band * h + y][c * w + x]);
        assert(canvas.rows[band * h + y][c * w + x] == grid_pixel(
            cells,
            cols,
            w,
            h,
            c * w + x,
            band * h + y,
        ));
    }
    assert(shown =~~= content);
}

/// With exactly as many images as cells, the canvas measures `w * cols` by `h * rows` and
/// every cell shows its image: no cell is left as filler.
pub proof fn lemma_full_grid(cells: Seq<Raster>, cols: nat, rows: nat)
    requires
        uniform(cells, cols, rows),
        cells.len() == cols * rows,
    ensures
        composed(cells, cols, rows).width == cell_size(cells).0 * cols,
        composed(cells, cols, rows).height == cell_size(cells).1 * rows,
        forall|i: nat|
            i < cols * rows ==> #[trigger] cropped(
                composed(cells, cols, rows),
                cell_rect(i, cols, cell_size(cells).0, cell_size(cells).1),
            ) == cells[i as int],
{
    assert forall|i: nat| i < cols * rows implies #[trigger] cropped(
        composed(cells, cols, rows),
        cell_rect(i, cols, cell_size(cells).0, cell_size(cells).1),
    ) == cells[i as int] by {
        lemma_composed_cell(cells, cols, rows, i);
    }
}

/// With fewer images than cells, the images fill the first cells in row-major order and
/// every cell after the last image is fully transparent.
pub proof fn lemma_short_grid(cells: Seq<Raster>, cols: nat, rows: nat)
    requires
        uniform(cells, cols, rows),
        cells.len() < cols * rows,
    ensures
        forall|i: nat|
            i < cells.len() ==> #[trigger] cropped(
                composed(cells, cols, rows),
                cell_rect(i, cols, cell_size(cells).0, cell_size(cells).1),
            ) == cells[i as int],
        forall|i: nat|
            cells.len() <= i < cols * rows ==> #[trigger] cropped(
                composed(cells, cols, rows),
                cell_rect(i, cols, cell_size(cells).0, cell_size(cells).1),
            ) == clear(cell_size(cells).0, cell_size(cells).1),
{
    assert forall|i: nat| i < cols * rows implies #[trigger] cropped(
        composed(cells, cols, rows),
        cell_rect(i, cols, cell_size(cells).0, cell_size(cells).1),
    ) == cell_content(cells, i) by {
        lemma_composed_cell(cells, cols, rows, i);
    }
}

/// Without any image the canvas measures `cols` by `rows` pixels, one transparent pixel
/// for each cell.
pub proof fn lemma_empty_grid(cols: nat, rows: nat)
    ensures
        composed(Seq::<Raster>::empty(), cols, rows) == clear(cols, rows),
{
    let cells = Seq::<Raster>::empty();
    let canvas = composed(cells, cols, rows);
    assert(canvas.width == cols && canvas.height == rows) by {
        assert(1 * cols == cols && 1 * rows == rows) by (nonlinear_arith);
    }
    assert(canvas =~~= clear(cols, rows));
}

/// With exactly as many images as cells, and at least one, crop and grid succeeds where
/// the rectangle lies within every image: the canvas measures exactly `w * cols` by
/// `h * rows` for a rectangle of `w` by `h`, and every cell shows the crop of its image,
/// so that no cell is left as filler.
pub proof fn lemma_full_montage(
    images: Seq<Raster>,
    rect: Rect,
    cols: nat,
    rows: nat,
    out: Result<Image, SazanError>,
)
    requires
        forall|i: int| 0 <= i < images.len() ==> (#[trigger] images[i]).wf(),
        all_contain(images, rect),
        images.len() == cols * rows,
        images.len() >= 1,
        montage_outcome(images, rect, cols, rows, out),
    ensures
        out is Ok,
        out->Ok_0@.width == rect.width * cols,
        out->Ok_0@.height == rect.height * rows,
        forall|i: nat|
            i < cols * rows ==> #[trigger] cropped(
                out->Ok_0@,
                cell_rect(i, cols, rect.width, rect.height),
            ) == cropped(images[i as int], rect),
{
    let cells = crops(images, rect);
    lemma_crops_uniform(images, rect, cols, rows);
    lemma_full_grid(cells, cols, rows);
    assert forall|i: nat| i < cols * rows implies #[trigger] cropped(
        out->Ok_0@,
        cell_rect(i, cols, rect.width, rect.height),
    ) == cropped(images[i as int], rect) by {
        assert(cropped(composed(cells, cols, rows), cell_rect(i, cols, rect.width, rect.height))
            == cells[i as int]);
    }
}

/// With fewer images than cells, and at least one, crop and grid succeeds where the
/// rectangle lies within every image: the crops fill the first cells in row-major order,
/// and every cell after the last image is fully transparent.
pub proof fn lemma_short_montage(
    images: Seq<Raster>,
    rect: Rect,
    cols: nat,
    rows: nat,
    out: Result<Image, SazanError>,
)
    requires
        forall|i: int| 0 <= i < images.len() ==> (#[trigger] images[i]).wf(),
        all_contain(images, rect),
        images.len() < cols * rows,
        images.len() >= 1,
        montage_outcome(images, rect, cols, rows, out),
    ensures
        out is Ok,
        out->Ok_0@.width == rect.width * cols,
        out->Ok_0@.height == rect.height * rows,
        forall|i: nat|
            i < cols * rows ==> #[trigger] cropped(
                out->Ok_0@,
                cell_rect(i, cols, rect.width, rect.height),
            ) == if i < images.len() {
                cropped(images[i as int], rect)
            } else {
                clear(rect.width, rect.height)
            },
{
    let cells = crops(images, rect);
    lemma_crops_uniform(images, rect, cols, rows);
    lemma_short_grid(cells, cols, rows);
    assert forall|i: nat| i < cols * rows implies #[trigger] cropped(
        out->Ok_0@,
        cell_rect(i, cols, rect.width, rect.height),
    ) == if i < images.len() {
        cropped(images[i as int], rect)
    } else {
        clear(rect.width, rect.height)
    } by {
        let shown = cropped(
            composed(cells, cols, rows),
            cell_rect(i, cols, rect.width, rect.height),
        );
        if i < images.len() {
            assert(shown == cells[i as int]);
        } else {
            assert(shown == clear(rect.width, rect.height));
        }
    }
}

/// Without any image crop and grid succeeds whatever the rectangle: the canvas measures
/// `cols` by `rows` pixels, one transparent pixel for each cell.
pub proof fn lemma_empty_montage(
    rect: Rect,
    cols: nat,
    rows: nat,
    out: Result<Image, SazanError>,
)
    requires
        montage_outcome(Seq::<Raster>::empty(), rect, cols, rows, out),
    ensures
        out is Ok,
        out->Ok_0@ == clear(cols, rows),
{
    assert(crops(Seq::<Raster>::empty(), rect) =~= Seq::<Raster>::empty());
    lemma_empty_grid(cols, rows);
}

/// Tells whether the canvas of a grid of `cols` by `rows` cells of `w` by `h` pixels can be
/// held in memory.
pub fn grid_fits(w: u32, h: u32, cols: usize, rows: usize) -> (fits: bool)
    ensures
        fits == canvas_fits(w as nat, h as nat, cols as nat, rows as nat),
{
    let max: u128 = 0xffff_ffff;
    let wide: u128 = if w == 0 || cols == 0 {
        0
    } else if cols as u128 > max {
        assert(w * cols > u32::MAX) by (nonlinear_arith)
            requires
                w >= 1,
                cols > 0xffff_ffff,
        ;
        return false;
    } else {
        assert(w * cols <= 0xffff_ffff * 0xffff_ffff) by (nonlinear_arith)
            requires
                w <= 0xffff_ffff,
                cols <= 0xffff_ffff,
        ;
        (w as u128) * (cols as u128)
    };
    assert(wide == w * cols) by (nonlinear_arith)
        requires
            wide == if w == 0 || cols == 0 {
                0
            } else {
                w * cols
            },
    ;
    let high: u128 = if h == 0 || rows == 0 {
        0
    } else if rows as u128 > max {
        assert(h * rows > u32::MAX) by (nonlinear_arith)
            requires
                h >= 1,
                rows > 0xffff_ffff,
        ;
        return false;
    } else {
        assert(h * rows <= 0xffff_ffff * 0xffff_ffff) by (nonlinear_arith)
            requires
                h <= 0xffff_ffff,
                rows <= 0xffff_ffff,
        ;
        (h as u128) * (rows as u128)
    };
    assert(high == h * rows) by (nonlinear_arith)
        requires
            high == if h == 0 || rows == 0 {
                0
            } else {
                h * rows
            },
    ;
    if wide > max || high > max {
        return false;
    }
    assert(4 * wide * high <= 4 * 0xffff_ffff * 0xffff_ffff && 4 * wide * high == 4 * (wide * high)
        && 0 <= wide * high) by (nonlinear_arith)
        requires
            0 <= wide <= 0xffff_ffff,
            0 <= high <= 0xffff_ffff,
    ;
    4 * (wide * high) <= usize::MAX as u128
}

} // verus!
