use crate::container::{
    archive_bytes, archive_entries, archive_finish, archive_new, archive_open,
    archive_start_file, archive_write_all,
};
use crate::crop::{contains_rect, crop, cropped, Rect};
use crate::encode::{png_encode, png_encoding};
use crate::error::SazanError;
use crate::grid::{cell_size, composed, grid_pixel};
use crate::naming::{lemma_tile_name_injective, tile_file_name, tile_name};
use crate::raster::{
    lemma_pixel_number, lemma_pixel_position, rgba_bytes, views, Image, Raster,
};
use vstd::arithmetic::div_mod::{
    lemma_div_denominator, lemma_fundamental_div_mod, lemma_fundamental_div_mod_converse,
    lemma_multiply_divide_lt, lemma_small_mod,
};
use vstd::prelude::*;

verus! {

/// One file of a tile archive: its name and its content.
#[derive(Debug)]
pub struct TileEntry {
    pub name: String,
    pub data: Vec<u8>,
}

impl View for TileEntry {
    type V = (Seq<char>, Seq<u8>);

    open spec fn view(&self) -> (Seq<char>, Seq<u8>) {
        (self.name@, self.data@)
    }
}

/// The entries of a sequence, each as its name and content.
pub open spec fn entry_views(entries: Seq<TileEntry>) -> Seq<(Seq<char>, Seq<u8>)> {
    Seq::new(entries.len(), |i: int| entries[i]@)
}

/// How every image is cut into tiles: the size of a tile, the offset of the first tile from
/// the image's top-left corner, and the number of tile columns and tile rows.
pub struct Tiling {
    pub tile_width: u32,
    pub tile_height: u32,
    pub offset_x: u32,
    pub offset_y: u32,
    pub cols: usize,
    pub rows: usize,
}

/// The tiling that a tile size `(width, height)`, an offset `(x, y)` and a grid
/// `(columns, rows)` stand for.
pub open spec fn tiling_of(
    crop_size: (u32, u32),
    offset: (u32, u32),
    grid: (usize, usize),
) -> Tiling {
    Tiling {
        tile_width: crop_size.0,
        tile_height: crop_size.1,
        offset_x: offset.0,
        offset_y: offset.1,
        cols: grid.0,
        rows: grid.1,
    }
}

impl Tiling {
    /// The number of tiles that each image is cut into.
    pub open spec fn per_image(self) -> nat {
        self.rows as nat * self.cols as nat
    }

    /// The rectangle of the tile in tile row `row` and tile column `col`.
    pub open spec fn rect(self, row: nat, col: nat) -> Rect {
        Rect {
            width: self.tile_width as nat,
            height: self.tile_height as nat,
            x: (self.offset_x + col * self.tile_width) as nat,
            y: (self.offset_y + row * self.tile_height) as nat,
        }
    }

    /// The image that tile number `n` is cut from. Tiles are numbered image by image,
    /// within an image row by row, and within a row from left to right.
    pub open spec fn image_of(self, n: nat) -> nat {
        n / self.per_image()
    }

    /// The tile row of tile number `n`.
    pub open spec fn row_of(self, n: nat) -> nat {
        (n / (self.cols as nat)) % (self.rows as nat)
    }

    /// The tile column of tile number `n`.
    pub open spec fn col_of(self, n: nat) -> nat {
        n % (self.cols as nat)
    }

    /// The number of the tile in row `row` and column `col` of image number `image`.
    pub open spec fn number(self, image: nat, row: nat, col: nat) -> nat {
        ((image * self.rows + row) * self.cols + col) as nat
    }
}

/// The archive entry for one tile of one image: the tile is cropped from the image, encoded
/// as PNG and named after its place. A tile that reaches beyond the image is a bounds error,
/// one without width or without height, which no PNG file can hold, an encode error.
pub open spec fn tile_of(
    image: Raster,
    t: Tiling,
    prefix: Seq<char>,
    index: nat,
    row: nat,
    col: nat,
) -> Result<(Seq<char>, Seq<u8>), SazanError> {
    if !contains_rect(image, t.rect(row, col)) {
        Err(SazanError::Bounds)
    } else if t.tile_width == 0 || t.tile_height == 0 {
        Err(SazanError::Encode)
    } else {
        Ok(
            (
                tile_name(prefix, index, row, col),
                png_encoding(
                    t.tile_width,
                    t.tile_height,
                    rgba_bytes(cropped(image, t.rect(row, col))),
                ),
            ),
        )
    }
}

/// The archive entry for tile number `n` of a sequence of images.
pub open spec fn tile_at(images: Seq<Raster>, t: Tiling, prefix: Seq<char>, n: nat) -> Result<
    (Seq<char>, Seq<u8>),
    SazanError,
> {
    tile_of(images[t.image_of(n) as int], t, prefix, t.image_of(n), t.row_of(n), t.col_of(n))
}

/// The error of the first tile that fails among the tiles numbered below `n`, if any does.
pub open spec fn first_error(images: Seq<Raster>, t: Tiling, prefix: Seq<char>, n: nat) -> Option<
    SazanError,
>
    decreases n,
{
    if n == 0 {
        None
    } else {
        match first_error(images, t, prefix, (n - 1) as nat) {
            Some(e) => Some(e),
            None => match tile_at(images, t, prefix, (n - 1) as nat) {
                Ok(_) => None,
                Err(e) => Some(e),
            },
        }
    }
}

/// The entries of the tile archive of a sequence of images, in the order of the tiles'
/// numbers; or, where a tile fails, the error of the first that does.
pub open spec fn tile_entries(images: Seq<Raster>, t: Tiling, prefix: Seq<char>) -> Result<
    Seq<(Seq<char>, Seq<u8>)>,
    SazanError,
> {
    let total = images.len() * t.per_image();
    match first_error(images, t, prefix, total) {
        Some(e) => Err(e),
        None => Ok(Seq::new(total, |n: int| tile_at(images, t, prefix, n as nat)->Ok_0)),
    }
}

/// No tile fails among those numbered below `n` exactly where each of them has an entry.
pub proof fn lemma_no_error(images: Seq<Raster>, t: Tiling, prefix: Seq<char>, n: nat)
    ensures
        first_error(images, t, prefix, n) is None <==> forall|k: nat|
            k < n ==> (#[trigger] tile_at(images, t, prefix, k)) is Ok,
    decreases n,
{
    if n > 0 {
        lemma_no_error(images, t, prefix, (n - 1) as nat);
        if first_error(images, t, prefix, n) is None {
            assert forall|k: nat| k < n implies (#[trigger] tile_at(images, t, prefix, k))
                is Ok by {
                if k < n - 1 {
                } else {
                    assert(k == (n - 1) as nat);
                }
            }
        }
    }
}

/// Where a tile fails among those numbered below `n`, the error is that of the first tile
/// that fails: every tile before it has an entry.
pub proof fn lemma_first_error(images: Seq<Raster>, t: Tiling, prefix: Seq<char>, n: nat) -> (k:
    nat)
    requires
        first_error(images, t, prefix, n) is Some,
    ensures
        k < n,
        tile_at(images, t, prefix, k) == Err::<(Seq<char>, Seq<u8>), SazanError>(
            first_error(images, t, prefix, n)->Some_0,
        ),
        forall|q: nat| q < k ==> (#[trigger] tile_at(images, t, prefix, q)) is Ok,
    decreases n,
{
    let before = (n - 1) as nat;
    if first_error(images, t, prefix, before) is Some {
        lemma_first_error(images, t, prefix, before)
    } else {
        lemma_no_error(images, t, prefix, before);
        before
    }
}

/// Once a tile has failed, the error stays whatever tiles follow.
pub proof fn lemma_error_stays(images: Seq<Raster>, t: Tiling, prefix: Seq<char>, n: nat, m: nat)
    requires
        n <= m,
        first_error(images, t, prefix, n) is Some,
    ensures
        first_error(images, t, prefix, m) == first_error(images, t, prefix, n),
    decreases m,
{
    if n < m {
        lemma_error_stays(images, t, prefix, n, (m - 1) as nat);
    }
}

/// The number of a tile gives back its image, its row and its column.
pub proof fn lemma_tile_number(t: Tiling, image: nat, row: nat, col: nat)
    requires
        row < t.rows,
        col < t.cols,
    ensures
        t.image_of(t.number(image, row, col)) == image,
        t.row_of(t.number(image, row, col)) == row,
        t.col_of(t.number(image, row, col)) == col,
        image * t.per_image() <= t.number(image, row, col) < (image + 1) * t.per_image(),
{
    let cols = t.cols as int;
    let rows = t.rows as int;
    let n = t.number(image, row, col) as int;
    let line = image * rows + row;
    assert(0 <= line && 0 <= image * rows) by (nonlinear_arith)
        requires
            0 <= image,
            0 <= rows,
            0 <= row,
            line == image * rows + row,
    ;
    assert(n == cols * line + col) by (nonlinear_arith)
        requires
            n == line * cols + col,
    ;
    lemma_fundamental_div_mod_converse(n, cols, line, col as int);
    assert(line == rows * image + row) by (nonlinear_arith)
        requires
            line == image * rows + row,
    ;
    lemma_fundamental_div_mod_converse(line, rows, image as int, row as int);
    let within = row * cols + col;
    assert(0 <= within < rows * cols && n == (rows * cols) * image + within && image * (rows
        * cols) <= n < (image + 1) * (rows * cols)) by (nonlinear_arith)
        requires
            0 <= row < rows,
            0 <= col < cols,
            0 <= image,
            within == row * cols + col,
            n == (image * rows + row) * cols + col,
    ;
    lemma_fundamental_div_mod_converse(n, rows * cols, image as int, within);
}

/// A tile's image, row and column give back its number.
pub proof fn lemma_tile_place(t: Tiling, n: nat)
    requires
        t.per_image() > 0,
    ensures
        t.row_of(n) < t.rows,
        t.col_of(n) < t.cols,
        t.number(t.image_of(n), t.row_of(n), t.col_of(n)) == n,
{
    let cols = t.cols as int;
    let rows = t.rows as int;
    assert(cols > 0 && rows > 0) by (nonlinear_arith)
        requires
            rows * cols > 0,
            rows >= 0,
            cols >= 0,
    ;
    let line = (n as int) / cols;
    lemma_fundamental_div_mod(n as int, cols);
    lemma_fundamental_div_mod(line, rows);
    lemma_div_denominator(n as int, cols, rows);
    assert(cols * rows == rows * cols) by (nonlinear_arith);
    assert(0 <= line) by (nonlinear_arith)
        requires
            0 <= n,
            cols > 0,
            line == (n as int) / cols,
    ;
    let image = line / rows;
    assert(0 <= image) by (nonlinear_arith)
        requires
            0 <= line,
            rows > 0,
            image == line / rows,
    ;
    assert((image * rows + line % rows) * cols + (n as int) % cols == n) by (nonlinear_arith)
        requires
            n == cols * line + (n as int) % cols,
            line == rows * image + line % rows,
    ;
}

/// The entry is that of tile number `n`: it is named after the tile's image, row and
/// column, and holds the PNG encoding of the tile, which lies within its image and
/// measures exactly the tile size.
pub open spec fn is_entry_of_tile(
    images: Seq<Raster>,
    t: Tiling,
    prefix: Seq<char>,
    entry: (Seq<char>, Seq<u8>),
    n: nat,
) -> bool {
    let tile = t.rect(t.row_of(n), t.col_of(n));
    let image = images[t.image_of(n) as int];
    &&& t.image_of(n) < images.len()
    &&& t.row_of(n) < t.rows
    &&& t.col_of(n) < t.cols
    &&& entry.0 == tile_name(prefix, t.image_of(n), t.row_of(n), t.col_of(n))
    &&& contains_rect(image, tile)
    &&& cropped(image, tile).width == t.tile_width
    &&& cropped(image, tile).height == t.tile_height
    &&& t.tile_width > 0
    &&& t.tile_height > 0
    &&& entry.1 == png_encoding(t.tile_width, t.tile_height, rgba_bytes(cropped(image, tile)))
}

/// Where every tile of `m` images succeeds, the archive has exactly `m * cols * rows`
/// entries, entry number `n` is that of tile number `n`, and no two entries have the same
/// name.
pub proof fn lemma_tile_entries(images: Seq<Raster>, t: Tiling, prefix: Seq<char>)
    requires
        tile_entries(images, t, prefix) is Ok,
    ensures
        tile_entries(images, t, prefix)->Ok_0.len() == images.len() * t.cols * t.rows,
        forall|n: nat|
            n < tile_entries(images, t, prefix)->Ok_0.len() ==> is_entry_of_tile(
                images,
                t,
                prefix,
                #[trigger] tile_entries(images, t, prefix)->Ok_0[n as int],
                n,
            ),
        forall|n: nat, k: nat|
            n < k < tile_entries(images, t, prefix)->Ok_0.len() ==> (#[trigger] tile_entries(
                images,
                t,
                prefix,
            )->Ok_0[n as int]).0 != (#[trigger] tile_entries(images, t, prefix)->Ok_0[k as int]).0,
{
    let entries = tile_entries(images, t, prefix)->Ok_0;
    let total = images.len() * t.per_image();
    assert(images.len() * t.cols * t.rows == total) by (nonlinear_arith)
        requires
            total == images.len() * (t.rows * t.cols),
    ;
    lemma_no_error(images, t, prefix, total);
    assert forall|n: nat| n < entries.len() implies is_entry_of_tile(
        images,
        t,
        prefix,
        #[trigger] entries[n as int],
        n,
    ) && t.number(t.image_of(n), t.row_of(n), t.col_of(n)) == n by {
        assert(t.per_image() > 0) by (nonlinear_arith)
            requires
                n < images.len() * t.per_image(),
        ;
        lemma_tile_place(t, n);
        assert(total == t.per_image() * images.len()) by (nonlinear_arith)
            requires
                total == images.len() * t.per_image(),
        ;
        lemma_multiply_divide_lt(n as int, t.per_image() as int, images.len() as int);
        assert(tile_at(images, t, prefix, n) is Ok);
        assert(Ok::<(Seq<char>, Seq<u8>), SazanError>(entries[n as int]) == tile_at(
            images,
            t,
            prefix,
            n,
        ));
    }
    assert forall|n: nat, k: nat| n < k < entries.len() implies (#[trigger] entries[n as int]).0
        != (#[trigger] entries[k as int]).0 by {
        if entries[n as int].0 == entries[k as int].0 {
            lemma_tile_name_injective(
                prefix,
                t.image_of(n),
                t.row_of(n),
                t.col_of(n),
                t.image_of(k),
                t.row_of(k),
                t.col_of(k),
            );
        }
    }
}

/// With tiles of at least one pixel each way and the tiled region within every image, no
/// tile fails: there are exactly `m * cols * rows` entries for `m` images.
pub proof fn lemma_tiling_succeeds(images: Seq<Raster>, t: Tiling, prefix: Seq<char>)
    requires
        t.tile_width >= 1,
        t.tile_height >= 1,
        forall|i: int|
            0 <= i < images.len() ==> contains_rect(#[trigger] images[i], tiled_region(t)),
    ensures
        tile_entries(images, t, prefix) is Ok,
        tile_entries(images, t, prefix)->Ok_0.len() == images.len() * t.cols * t.rows,
{
    let total = images.len() * t.per_image();
    assert(images.len() * t.cols * t.rows == total) by (nonlinear_arith)
        requires
            total == images.len() * (t.rows * t.cols),
    ;
    assert forall|n: nat| n < total implies (#[trigger] tile_at(images, t, prefix, n)) is Ok by {
        assert(t.per_image() > 0) by (nonlinear_arith)
            requires
                n < images.len() * t.per_image(),
        ;
        lemma_tile_place(t, n);
        assert(total == t.per_image() * images.len()) by (nonlinear_arith)
            requires
                total == images.len() * t.per_image(),
        ;
        lemma_multiply_divide_lt(n as int, t.per_image() as int, images.len() as int);
        lemma_tile_within(images[t.image_of(n) as int], t, t.row_of(n), t.col_of(n));
    }
    lemma_no_error(images, t, prefix, total);
}

/// The tiles of one image, numbered row by row and within a row from left to right.
pub open spec fn tiles(image: Raster, t: Tiling) -> Seq<Raster> {
    Seq::new(
        t.per_image(),
        |n: int| cropped(image, t.rect(t.row_of(n as nat), t.col_of(n as nat))),
    )
}

/// The part of an image that its tiles cover together.
pub open spec fn tiled_region(t: Tiling) -> Rect {
    Rect {
        width: t.cols as nat * t.tile_width as nat,
        height: t.rows as nat * t.tile_height as nat,
        x: t.offset_x as nat,
        y: t.offset_y as nat,
    }
}

/// Where the tiled region lies within the image, so does every tile, and the tiles put
/// together again in a grid of the tiling's columns and rows are exactly that region of the
/// image.
pub proof fn lemma_tiles_recompose(image: Raster, t: Tiling)
    requires
        image.wf(),
        contains_rect(image, tiled_region(t)),
        t.cols > 0,
        t.rows > 0,
    ensures
        forall|row: nat, col: nat|
            row < t.rows && col < t.cols ==> contains_rect(image, #[trigger] t.rect(row, col)),
        composed(tiles(image, t), t.cols as nat, t.rows as nat) == cropped(image, tiled_region(t)),
{
    let cols = t.cols as nat;
    let rows = t.rows as nat;
    let w = t.tile_width as nat;
    let h = t.tile_height as nat;
    let cells = tiles(image, t);
    let canvas = composed(cells, cols, rows);
    let region = cropped(image, tiled_region(t));
    assert forall|row: nat, col: nat| row < t.rows && col < t.cols implies contains_rect(
        image,
        #[trigger] t.rect(row, col),
    ) by {
        lemma_tile_within(image, t, row, col);
    }
    assert(t.per_image() > 0) by (nonlinear_arith)
        requires
            t.per_image() == rows * cols,
            rows > 0,
            cols > 0,
    ;
    assert(t.row_of(0) == 0 && t.col_of(0) == 0) by {
        lemma_tile_number(t, 0, 0, 0);
        assert((0 * t.rows + 0) * t.cols + 0 == 0) by (nonlinear_arith);
    }
    assert(cell_size(cells) == (w, h));
    assert(canvas.width == region.width && canvas.height == region.height) by (nonlinear_arith)
        requires
            canvas.width == w * cols,
            canvas.height == h * rows,
            region.width == cols * w,
            region.height == rows * h,
    ;
    assert forall|y: int, x: int| 0 <= y < canvas.height && 0 <= x < canvas.width implies
        canvas.rows[y][x] == region.rows[y][x] by {
        lemma_pixel_position(x, w as int, cols as int);
        lemma_pixel_position(y, h as int, rows as int);
        let c = x / (w as int);
        let band = y / (h as int);
        let n = band * cols + c;
        lemma_pixel_number(c, band, cols as int, rows as int);
        lemma_small_mod(band as nat, rows);
        assert(t.row_of(n as nat) == band && t.col_of(n as nat) == c);
        lemma_tile_within(image, t, band as nat, c as nat);
        assert(cells[n] == cropped(image, t.rect(band as nat, c as nat)));
        assert(canvas.rows[y][x] == grid_pixel(cells, cols, w, h, x, y));
        assert(image.rows[t.offset_y + y].len() == image.width);
    }
    assert(canvas =~~= region);
}

/// A tile of a tiled region that lies within the image lies within the image.
proof fn lemma_tile_within(image: Raster, t: Tiling, row: nat, col: nat)
    requires
        contains_rect(image, tiled_region(t)),
        row < t.rows,
        col < t.cols,
    ensures
        contains_rect(image, t.rect(row, col)),
        0 <= col * t.tile_width,
        0 <= row * t.tile_height,
{
    assert(col * t.tile_width + t.tile_width <= t.cols * t.tile_width && row * t.tile_height
        + t.tile_height <= t.rows * t.tile_height && 0 <= col * t.tile_width && 0 <= row
        * t.tile_height) by (nonlinear_arith)
        requires
            0 <= row < t.rows,
            0 <= col < t.cols,
            0 <= t.tile_width,
            0 <= t.tile_height,
    ;
}

/// A tile's entry or error as names and contents.
pub open spec fn entry_outcome(out: Result<TileEntry, SazanError>) -> Result<
    (Seq<char>, Seq<u8>),
    SazanError,
> {
    match out {
        Ok(entry) => Ok(entry@),
        Err(e) => Err(e),
    }
}

/// The entries or the error of a tiling as names and contents.
pub open spec fn entries_outcome(out: Result<Vec<TileEntry>, SazanError>) -> Result<
    Seq<(Seq<char>, Seq<u8>)>,
    SazanError,
> {
    match out {
        Ok(entries) => Ok(entry_views(entries@)),
        Err(e) => Err(e),
    }
}

/// Makes the archive entry of a tile from its name and from what the PNG encoder returned
/// for it: the encoded file becomes the entry's content, and a refusal an encode error.
pub fn encoded_tile(name: String, encoded: Result<Vec<u8>, image::ImageError>) -> (out: Result<
    TileEntry,
    SazanError,
>)
    ensures
        match encoded {
            Ok(file) => entry_outcome(out) == Ok::<(Seq<char>, Seq<u8>), SazanError>(
                (name@, file@),
            ),
            Err(_) => out == Err::<TileEntry, SazanError>(SazanError::Encode),
        },
{
    match encoded {
        Ok(file) => Ok(TileEntry { name, data: file }),
        Err(_) => Err(SazanError::Encode),
    }
}

/// Cuts one tile from an image and makes its archive entry: the tile in tile row `row` and
/// tile column `col` is cropped, encoded as PNG and named after the image's number `index`
/// and the tile's place.
pub fn cut_tile(
    image: &Image,
    crop_size: (u32, u32),
    offset: (u32, u32),
    grid: (usize, usize),
    filename_prefix: &str,
    index: usize,
    row: usize,
    col: usize,
) -> (out: Result<TileEntry, SazanError>)
    ensures
        entry_outcome(out) == tile_of(
            image@,
            tiling_of(crop_size, offset, grid),
            filename_prefix@,
            index as nat,
            row as nat,
            col as nat,
        ),
{
    let ghost t = tiling_of(crop_size, offset, grid);
    let (tile_width, tile_height) = crop_size;
    let (offset_x, offset_y) = offset;
    assert(col * tile_width <= 0xffff_ffff_ffff_ffff * 0xffff_ffff && row * tile_height
        <= 0xffff_ffff_ffff_ffff * 0xffff_ffff && 0 <= col * tile_width && 0 <= row * tile_height)
        by (nonlinear_arith)
        requires
            0 <= col <= 0xffff_ffff_ffff_ffff,
            0 <= row <= 0xffff_ffff_ffff_ffff,
            0 <= tile_width <= 0xffff_ffff,
            0 <= tile_height <= 0xffff_ffff,
    ;
    let x: u128 = offset_x as u128 + (col as u128) * (tile_width as u128);
    let y: u128 = offset_y as u128 + (row as u128) * (tile_height as u128);
    let (width, height) = image.dimensions();
    if x > width as u128 || y > height as u128 {
        return Err(SazanError::Bounds);
    }
    match crop(image, (tile_width, tile_height, x as u32, y as u32)) {
        Ok(tile) => {
            let encoded = png_encode(tile_width, tile_height, tile.as_raw().as_slice());
            encoded_tile(tile_file_name(filename_prefix, index, row, col), encoded)
        },
        Err(e) => Err(e),
    }
}

/// Cuts every image into its tiles and makes the archive entries, image by image, within
/// an image row by row, and within a row from left to right.
///
/// The first tile that reaches beyond its image (a bounds error) or that has no width or
/// no height (an encode error) fails the whole operation; no entries are returned then.
pub fn tile_images(
    images: &[Image],
    crop_size: (u32, u32),
    offset: (u32, u32),
    grid: (usize, usize),
    filename_prefix: &str,
) -> (out: Result<Vec<TileEntry>, SazanError>)
    ensures
        entries_outcome(out) == tile_entries(
            views(images@),
            tiling_of(crop_size, offset, grid),
            filename_prefix@,
        ),
{
    let ghost t = tiling_of(crop_size, offset, grid);
    let ghost cells = views(images@);
    let ghost prefix = filename_prefix@;
    let ghost total = cells.len() * t.per_image();
    let (cols, rows) = grid;
    let mut entries: Vec<TileEntry> = Vec::new();
    if cols == 0 || rows == 0 {
        proof {
            assert(total == 0) by (nonlinear_arith)
                requires
                    total == cells.len() * (rows * cols),
                    cols == 0 || rows == 0,
            ;
            assert(entry_views(entries@) =~= tile_entries(cells, t, prefix)->Ok_0);
        }
        return Ok(entries);
    }
    let mut index: usize = 0;
    while index < images.len()
        invariant
            index <= images@.len(),
            t == tiling_of(crop_size, offset, grid),
            grid == (cols, rows),
            cells == views(images@),
            prefix == filename_prefix@,
            total == cells.len() * t.per_image(),
            entries@.len() == index * t.per_image(),
            first_error(cells, t, prefix, entries@.len()) is None,
            forall|k: int|
                0 <= k < entries@.len() ==> Ok::<(Seq<char>, Seq<u8>), SazanError>(
                    (#[trigger] entries@[k])@,
                ) == tile_at(cells, t, prefix, k as nat),
        decreases images@.len() - index,
    {
        let image = &images[index];
        proof {
            assert(index * t.per_image() == (index * rows + 0) * cols) by (nonlinear_arith)
                requires
                    t.per_image() == rows * cols,
            ;
        }
        let mut row: usize = 0;
        while row < rows
            invariant
                index < images@.len(),
                row <= rows,
                t == tiling_of(crop_size, offset, grid),
                grid == (cols, rows),
                cells == views(images@),
                prefix == filename_prefix@,
                total == cells.len() * t.per_image(),
                *image == images@[index as int],
                entries@.len() == (index * rows + row) * cols,
                first_error(cells, t, prefix, entries@.len()) is None,
                forall|k: int|
                    0 <= k < entries@.len() ==> Ok::<(Seq<char>, Seq<u8>), SazanError>(
                        (#[trigger] entries@[k])@,
                    ) == tile_at(cells, t, prefix, k as nat),
            decreases rows - row,
        {
            let mut col: usize = 0;
            while col < cols
                invariant
                    index < images@.len(),
                    row < rows,
                    col <= cols,
                    t == tiling_of(crop_size, offset, grid),
                    grid == (cols, rows),
                    cells == views(images@),
                    prefix == filename_prefix@,
                    total == cells.len() * t.per_image(),
                    *image == images@[index as int],
                    entries@.len() == (index * rows + row) * cols + col,
                    first_error(cells, t, prefix, entries@.len()) is None,
                    forall|k: int|
                        0 <= k < entries@.len() ==> Ok::<(Seq<char>, Seq<u8>), SazanError>(
                            (#[trigger] entries@[k])@,
                        ) == tile_at(cells, t, prefix, k as nat),
                decreases cols - col,
            {
                let ghost n = entries@.len();
                proof {
                    lemma_tile_number(t, index as nat, row as nat, col as nat);
                    assert(n == t.number(index as nat, row as nat, col as nat));
                    assert(cells[index as int] == image@);
                    assert(n < total) by (nonlinear_arith)
                        requires
                            n < (index + 1) * t.per_image(),
                            index < cells.len(),
                            total == cells.len() * t.per_image(),
                    ;
                }
                match cut_tile(image, crop_size, offset, grid, filename_prefix, index, row, col) {
                    Ok(entry) => {
                        entries.push(entry);
                    },
                    Err(e) => {
                        proof {
                            assert(tile_at(cells, t, prefix, n) == Err::<
                                (Seq<char>, Seq<u8>),
                                SazanError,
                            >(e));
                            assert(first_error(cells, t, prefix, n + 1) == Some(e));
                            lemma_error_stays(cells, t, prefix, n + 1, total);
                        }
                        return Err(e);
                    },
                }
                col = col + 1;
            }
            proof {
                assert((index * rows + row) * cols + cols == (index * rows + (row + 1)) * cols)
                    by (nonlinear_arith);
            }
            row = row + 1;
        }
        proof {
            assert((index * rows + rows) * cols == (index + 1) * t.per_image()) by (nonlinear_arith)
                requires
                    t.per_image() == rows * cols,
            ;
        }
        index = index + 1;
    }
    proof {
        assert(entry_views(entries@) =~= tile_entries(cells, t, prefix)->Ok_0);
    }
    Ok(entries)
}

/// Takes what a step of the archive writer returned: its value where the step succeeded,
/// and an archive error where it failed.
pub fn archive_step<T, E>(step: Result<T, E>) -> (out: Result<T, SazanError>)
    ensures
        match step {
            Ok(value) => out == Ok::<T, SazanError>(value),
            Err(_) => out == Err::<T, SazanError>(SazanError::Archive),
        },
{
    match step {
        Ok(value) => Ok(value),
        Err(_) => Err(SazanError::Archive),
    }
}

/// No entry holds more than `u32::MAX` bytes, the most that the container takes for one
/// file.
pub open spec fn entries_fit(entries: Seq<(Seq<char>, Seq<u8>)>) -> bool {
    forall|i: int| 0 <= i < entries.len() ==> (#[trigger] entries[i]).1.len() <= 0xffff_ffff
}

/// The archive of entries: the container file that holds them, or an archive error where
/// one of them is too large for the container.
pub open spec fn packed(entries: Seq<(Seq<char>, Seq<u8>)>) -> Result<Seq<u8>, SazanError> {
    if entries_fit(entries) {
        Ok(archive_bytes(entries))
    } else {
        Err(SazanError::Archive)
    }
}

/// An archive or an error as bytes.
pub open spec fn archive_outcome(out: Result<Vec<u8>, SazanError>) -> Result<Seq<u8>, SazanError> {
    match out {
        Ok(bytes) => Ok(bytes@),
        Err(e) => Err(e),
    }
}

/// Packs entries into one archive, each stored under its name in the order given, without
/// compression of the container itself.
///
/// The result is the archive of exactly these entries. An entry of more than `u32::MAX`
/// bytes is more than the container takes: it fails the whole operation with an archive
/// error, and no archive is returned.
pub fn pack_archive(entries: &[TileEntry]) -> (out: Result<Vec<u8>, SazanError>)
    ensures
        archive_outcome(out) == packed(entry_views(entries@)),
{
    let ghost all = entry_views(entries@);
    let mut writer = archive_new();
    let mut i: usize = 0;
    while i < entries.len()
        invariant
            i <= entries@.len(),
            all == entry_views(entries@),
            archive_open(writer),
            archive_entries(writer) == all.take(i as int),
            entries_fit(all.take(i as int)),
        decreases entries@.len() - i,
    {
        let entry = &entries[i];
        let ghost before = archive_entries(writer);
        assert(all[i as int] == entry@);
        match archive_step(archive_start_file(&mut writer, entry.name.as_str())) {
            Ok(()) => {},
            Err(e) => {
                return Err(e);
            },
        }
        match archive_step(archive_write_all(&mut writer, entry.data.as_slice())) {
            Ok(()) => {},
            Err(e) => {
                assert(!entries_fit(all));
                return Err(e);
            },
        }
        proof {
            assert(Seq::<u8>::empty() + entry.data@ =~= entry.data@);
            assert(before.push((entry.name@, Seq::<u8>::empty())).drop_last() =~= before);
            assert(archive_entries(writer) =~= all.take(i + 1));
            assert forall|k: int| 0 <= k < i + 1 implies (#[trigger] all.take(i + 1)[k]).1.len()
                <= 0xffff_ffff by {
                if k < i {
                    assert(all.take(i as int)[k] == all[k]);
                }
            }
        }
        i = i + 1;
    }
    assert(all.take(i as int) =~= all);
    archive_step(archive_finish(writer))
}

/// The tile archive of a sequence of images: the archive of the tiles' entries; or the
/// error of the first tile that fails; or, where every tile has its entry but one of them
/// is too large for the container, an archive error.
pub open spec fn tile_archive(images: Seq<Raster>, t: Tiling, prefix: Seq<char>) -> Result<
    Seq<u8>,
    SazanError,
> {
    match tile_entries(images, t, prefix) {
        Ok(entries) => packed(entries),
        Err(e) => Err(e),
    }
}

/// Cuts every image into a grid of tiles and packs the tiles, each encoded as a PNG file,
/// into one archive in memory.
///
/// Each image is cut into `grid.0` columns and `grid.1` rows of tiles of `crop_size`,
/// starting at `offset`. The tile in row `r` and column `c` of image number `i` is stored
/// under the name `{prefix}_{i}_{r}_{c}.png`, each number with at least two digits. The
/// entries follow each other image by image, within an image row by row, and within a row
/// from left to right.
///
/// The first tile that reaches beyond its image (a bounds error) or that has no width or
/// no height (an encode error) fails the whole operation, before anything is packed. An
/// encoded tile of more than `u32::MAX` bytes is more than the container takes for one
/// file, and fails it with an archive error. No partial archive is returned.
pub fn crop_split_image_to_zip(
    images: &[Image],
    crop_size: (u32, u32),
    offset: (u32, u32),
    grid: (usize, usize),
    filename_prefix: &str,
) -> (out: Result<Vec<u8>, SazanError>)
    ensures
        archive_outcome(out) == tile_archive(
            views(images@),
            tiling_of(crop_size, offset, grid),
            filename_prefix@,
        ),
{
    match tile_images(images, crop_size, offset, grid, filename_prefix) {
        Ok(entries) => pack_archive(entries.as_slice()),
        Err(e) => Err(e),
    }
}

} // verus!
