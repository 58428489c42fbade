//! Showing images in the terminal.
//!
//! What works in every terminal, and through tmux, is the half block. Each
//! cell shows `▀` with the foreground painted for the upper pixel and the
//! background for the lower one, so one cell carries two pixels. Terminals
//! that speak a pixel protocol get an escape sequence instead.
pub mod codec;
pub mod kitty;
pub mod sixel;
pub mod sizing;

use vstd::prelude::*;
use crate::image::codec::{decode, decodes_to, resize_rgba, resized};
use crate::image::kitty::{kitty_delete_all, kitty_place};
use crate::image::sixel::sixel_image;
use crate::image::sizing::{
    half_block_box, half_block_cols, half_block_rows, lemma_half_block_box_within_limits, limit,
    pixel_box, pixel_box_cols, pixel_box_rows,
};

verus! {

/// A decoded picture: `width` x `height` pixels, four bytes (RGBA) each,
/// row by row from the top left.
pub struct Picture {
    width: u32,
    height: u32,
    rgba: Vec<u8>,
}

/// Whether `rgba` holds exactly `width` x `height` RGBA pixels.
pub open spec fn well_formed_rgba(width: u32, height: u32, rgba: Seq<u8>) -> bool {
    rgba.len() == 4 * width * height
}

impl View for Picture {
    type V = (u32, u32, Seq<u8>);

    closed spec fn view(&self) -> (u32, u32, Seq<u8>) {
        (self.width, self.height, self.rgba@)
    }
}

impl Picture {
    #[verifier::type_invariant]
    spec fn pixels_fill_the_picture(self) -> bool {
        well_formed_rgba(self.width, self.height, self.rgba@)
    }

    /// A picture from raw RGBA bytes, or `None` when their number does not
    /// match the size.
    pub fn from_rgba(width: u32, height: u32, rgba: Vec<u8>) -> (out: Option<Picture>)
        ensures
            match out {
                Some(p) => well_formed_rgba(width, height, rgba@) && p@ == (width, height, rgba@),
                None => !well_formed_rgba(width, height, rgba@),
            },
    {
        let w = width as u128;
        let h = height as u128;
        assert(w * h <= 0xffff_ffff * 0xffff_ffff) by (nonlinear_arith)
            requires
                w <= 0xffff_ffff,
                h <= 0xffff_ffff,
        ;
        let expected = 4 * (w * h);
        assert(expected == 4 * width * height) by (nonlinear_arith)
            requires
                expected == 4 * (w * h),
                w == width,
                h == height,
        ;
        if rgba.len() as u128 == expected {
            Some(Picture { width, height, rgba })
        } else {
            None
        }
    }

    pub fn width(&self) -> (out: u32)
        ensures
            out == self@.0,
    {
        self.width
    }

    pub fn height(&self) -> (out: u32)
        ensures
            out == self@.1,
    {
        self.height
    }

    pub fn rgba(&self) -> (out: &Vec<u8>)
        ensures
            out@ == self@.2,
            well_formed_rgba(self@.0, self@.1, out@),
    {
        proof {
            use_type_invariant(self);
        }
        &self.rgba
    }
}

/// A single cell of a rendered image: two stacked pixels.
#[derive(Debug, Clone, Copy, PartialEq, Eq)]
pub struct Cell {
    pub upper: (u8, u8, u8),
    pub lower: (u8, u8, u8),
}

#[derive(Debug, Clone)]
enum Payload {
    /// Two pixels per cell, drawn as ordinary text.
    HalfBlocks(Vec<Vec<Cell>>),
    /// A ready-made escape sequence, written past the text buffer.
    Escape(String),
}

/// A picture ready to be drawn, in whichever form the terminal takes.
#[derive(Debug, Clone)]
pub struct Rendered {
    /// Cells the picture occupies. The layout reserves this many lines either
    /// way, so text flows around the picture the same in every backend.
    cols: u16,
    rows: u16,
    payload: Payload,
}

/// What a [`Rendered`] holds: its size in cells, and either the rows of half
/// block cells or the escape sequence.
pub struct RenderedView {
    pub cols: u16,
    pub rows: u16,
    pub grid: Option<Seq<Seq<Cell>>>,
    pub escape: Option<Seq<char>>,
}

/// The rows of a grid of cells, each as a sequence.
pub open spec fn grid_view(rows: Seq<Vec<Cell>>) -> Seq<Seq<Cell>> {
    rows.map_values(|row: Vec<Cell>| row@)
}

impl View for Rendered {
    type V = RenderedView;

    closed spec fn view(&self) -> RenderedView {
        RenderedView {
            cols: self.cols,
            rows: self.rows,
            grid: match self.payload {
                Payload::HalfBlocks(rows) => Some(grid_view(rows@)),
                Payload::Escape(_) => None,
            },
            escape: match self.payload {
                Payload::HalfBlocks(_) => None,
                Payload::Escape(text) => Some(text@),
            },
        }
    }
}

impl Rendered {
    /// A picture drawn by an escape sequence over `cols` x `rows` cells.
    pub fn from_escape(cols: u16, rows: u16, escape: String) -> (out: Rendered)
        ensures
            out@ == (RenderedView { cols, rows, grid: None, escape: Some(escape@) }),
    {
        Rendered { cols, rows, payload: Payload::Escape(escape) }
    }

    pub fn height(&self) -> (out: usize)
        ensures
            out == self@.rows,
    {
        self.rows as usize
    }

    pub fn width(&self) -> (out: usize)
        ensures
            out == self@.cols,
    {
        self.cols as usize
    }

    /// The cell rows, for the half block backend.
    pub fn cells(&self) -> (out: Option<&[Vec<Cell>]>)
        ensures
            match self@.grid {
                Some(grid) => out matches Some(rows) && grid_view(rows@) == grid,
                None => out is None,
            },
    {
        match &self.payload {
            Payload::HalfBlocks(rows) => Some(rows.as_slice()),
            Payload::Escape(_) => None,
        }
    }

    /// The escape sequence that places this picture at the cursor.
    pub fn escape(&self) -> (out: Option<&str>)
        ensures
            match self@.escape {
                Some(text) => out matches Some(s) && s@ == text,
                None => out is None,
            },
    {
        match &self.payload {
            Payload::Escape(text) => Some(text.as_str()),
            Payload::HalfBlocks(_) => None,
        }
    }
}

/// A pixel channel composited onto white with coverage `a` (out of 255),
/// rounded to the nearest integer.
pub open spec fn over_white(channel: u8, a: u8) -> u8 {
    ((2 * (channel * a + 255 * (255 - a)) + 255) / 510) as u8
}

/// The colour an RGBA pixel shows on white.
pub open spec fn composite(r: u8, g: u8, b: u8, a: u8) -> (u8, u8, u8) {
    if a == 255 {
        (r, g, b)
    } else {
        (over_white(r, a), over_white(g, a), over_white(b, a))
    }
}

/// Composites an RGBA pixel onto white.
pub open spec fn spec_flatten(px: [u8; 4]) -> (u8, u8, u8) {
    composite(px[0], px[1], px[2], px[3])
}

fn over(channel: u8, a: u8) -> (out: u8)
    ensures
        out == over_white(channel, a),
{
    let c = channel as u32;
    let al = a as u32;
    assert(c * al + 255 * (255 - al) <= 255 * 255) by (nonlinear_arith)
        requires
            c <= 255,
            al <= 255,
    ;
    let mixed = c * al + 255 * (255 - al);
    let out = (2 * mixed + 255) / 510;
    out as u8
}

/// Composites a pixel onto white.
///
/// Many book illustrations are line drawings on transparency. Left alone they
/// would come out as black on black in a dark terminal, so transparency is
/// resolved against white, the colour the author assumed.
pub fn flatten(px: [u8; 4]) -> (out: (u8, u8, u8))
    ensures
        out == spec_flatten(px),
{
    let r = px[0];
    let g = px[1];
    let b = px[2];
    let a = px[3];
    if a == 255 {
        return (r, g, b);
    }
    (over(r, a), over(g, a), over(b, a))
}

/// The colour on white of pixel `(x, y)` of an RGBA buffer `width` pixels wide.
pub open spec fn pixel_on_white(rgba: Seq<u8>, width: int, x: int, y: int) -> (u8, u8, u8) {
    let i = 4 * (y * width + x);
    composite(rgba[i], rgba[i + 1], rgba[i + 2], rgba[i + 3])
}

/// The half block cell in `column` of `row`, from an RGBA buffer `cols`
/// pixels wide and twice as many pixels tall as there are rows.
pub open spec fn half_block_cell(rgba: Seq<u8>, cols: int, column: int, row: int) -> Cell {
    Cell {
        upper: pixel_on_white(rgba, cols, column, 2 * row),
        lower: pixel_on_white(rgba, cols, column, 2 * row + 1),
    }
}

/// The grid of half block cells for an RGBA buffer of `cols` x `2 * rows` pixels.
pub open spec fn half_block_grid(rgba: Seq<u8>, cols: int, rows: int) -> Seq<Seq<Cell>> {
    Seq::new(
        rows as nat,
        |row: int| Seq::new(cols as nat, |column: int| half_block_cell(rgba, cols, column, row)),
    )
}

/// What [`fit`] makes of a picture `width` x `height` with pixels `rgba`.
pub open spec fn spec_fit(
    width: u32,
    height: u32,
    rgba: Seq<u8>,
    max_cols: u16,
    max_rows: u16,
) -> RenderedView {
    if width == 0 || height == 0 {
        RenderedView { cols: 0, rows: 0, grid: Some(Seq::empty()), escape: None }
    } else {
        let cols = half_block_cols(width, height, max_cols, max_rows);
        let rows = half_block_rows(width, height, max_cols, max_rows);
        let scaled = resized(width, height, rgba, cols as u32, (2 * rows) as u32);
        RenderedView {
            cols: cols as u16,
            rows: rows as u16,
            grid: Some(half_block_grid(scaled, cols, rows)),
            escape: None,
        }
    }
}

fn cell_from(scaled: &Vec<u8>, cols: usize, column: usize, row: usize) -> (out: Cell)
    requires
        column < cols,
        4 * cols * (2 * (row + 1)) <= scaled@.len(),
    ensures
        out == half_block_cell(scaled@, cols as int, column as int, row as int),
{
    let total = scaled.len();
    assert(total == scaled@.len());
    assert(4 * ((2 * row + 1) * cols + column) + 3 < 4 * cols * (2 * (row + 1))) by (nonlinear_arith)
        requires
            column < cols,
    ;
    assert((2 * row) * cols <= (2 * row + 1) * cols) by (nonlinear_arith);
    assert(2 * row <= 2 * row + 1);
    assert(2 * row + 1 <= (2 * row + 1) * cols) by (nonlinear_arith)
        requires
            column < cols,
    ;
    let upper_at = 4 * ((2 * row) * cols + column);
    let lower_at = 4 * ((2 * row + 1) * cols + column);
    let upper = flatten([scaled[upper_at], scaled[upper_at + 1], scaled[upper_at + 2], scaled[upper_at + 3]]);
    let lower = flatten([scaled[lower_at], scaled[lower_at + 1], scaled[lower_at + 2], scaled[lower_at + 3]]);
    Cell { upper, lower }
}

/// Scales a picture to half block cells, at most `max_cols` wide and
/// `max_rows` tall (a limit of 0 counts as 1), keeping its proportions.
pub fn fit(picture: &Picture, max_cols: u16, max_rows: u16) -> (out: Rendered)
    ensures
        out@ == spec_fit(picture@.0, picture@.1, picture@.2, max_cols, max_rows),
{
    let width = picture.width();
    let height = picture.height();
    if width == 0 || height == 0 {
        let out = Rendered { cols: 0, rows: 0, payload: Payload::HalfBlocks(Vec::new()) };
        assert(grid_view(Seq::<Vec<Cell>>::empty()) =~= Seq::<Seq<Cell>>::empty());
        return out;
    }
    let (cols, rows) = half_block_box(width, height, max_cols, max_rows);
    let pixel_width = cols as u32;
    let pixel_height = 2 * (rows as u32);
    let scaled = resize_rgba(picture, pixel_width, pixel_height);
    half_blocks(&scaled, cols, rows)
}

/// The half block cells of an RGBA buffer `cols` pixels wide and `2 * rows`
/// tall: each cell shows two pixels stacked, composited onto white.
pub fn half_blocks(scaled: &Vec<u8>, cols: u16, rows: u16) -> (out: Rendered)
    requires
        scaled@.len() == 4 * cols * (2 * rows),
    ensures
        out@ == (RenderedView {
            cols,
            rows,
            grid: Some(half_block_grid(scaled@, cols as int, rows as int)),
            escape: None,
        }),
{
    let ghost grid = half_block_grid(scaled@, cols as int, rows as int);
    let n_cols = cols as usize;
    let n_rows = rows as usize;
    let mut out: Vec<Vec<Cell>> = Vec::new();
    let mut row: usize = 0;
    while row < n_rows
        invariant
            row <= n_rows,
            n_rows == rows,
            n_cols == cols,
            scaled@.len() == 4 * n_cols * (2 * n_rows),
            grid == half_block_grid(scaled@, n_cols as int, n_rows as int),
            out@.len() == row,
            forall|i: int| 0 <= i < row ==> (#[trigger] out@[i])@ == grid[i],
        decreases n_rows - row,
    {
        let mut cells: Vec<Cell> = Vec::new();
        let mut column: usize = 0;
        assert(4 * n_cols * (2 * (row + 1)) <= 4 * n_cols * (2 * n_rows)) by (nonlinear_arith)
            requires
                row < n_rows,
        ;
        while column < n_cols
            invariant
                column <= n_cols,
                row < n_rows,
                n_cols == cols,
                scaled@.len() == 4 * n_cols * (2 * n_rows),
                4 * n_cols * (2 * (row + 1)) <= 4 * n_cols * (2 * n_rows),
                grid == half_block_grid(scaled@, n_cols as int, n_rows as int),
                cells@.len() == column,
                forall|j: int| 0 <= j < column ==> #[trigger] cells@[j] == grid[row as int][j],
            decreases n_cols - column,
        {
            let cell = cell_from(&scaled, n_cols, column, row);
            cells.push(cell);
            column += 1;
        }
        assert(cells@ =~= grid[row as int]);
        out.push(cells);
        row += 1;
    }
    assert(grid_view(out@) =~= grid);
    Rendered { cols, rows, payload: Payload::HalfBlocks(out) }
}

/// How the terminal is asked to show pictures.
#[derive(Debug, Clone, Copy, PartialEq, Eq)]
pub enum Backend {
    /// Coloured half blocks, which every terminal shows.
    HalfBlocks,
    /// The Kitty graphics protocol.
    Kitty,
    /// Sixel graphics.
    Sixel,
}

/// Size of one terminal cell in pixels. Needed to scale a picture to a whole
/// number of cells, so the reserved lines match what the terminal paints.
#[derive(Debug, Clone, Copy)]
pub struct CellSize {
    pub width: u16,
    pub height: u16,
}

impl Default for CellSize {
    /// A common size; the real one is read from the terminal when it reports one.
    fn default() -> (out: CellSize)
        ensures
            out.width == 8,
            out.height == 16,
    {
        CellSize { width: 8, height: 16 }
    }
}

/// Why a picture could not be prepared.
#[derive(Debug)]
pub enum RenderError {
    /// The bytes are no image the decoder knows; the decoder's own error.
    CannotDecode(::image::ImageError),
}

/// The escape sequence for a picture over a `cols` x `rows` cell box.
pub open spec fn pixel_escape(
    width: u32,
    height: u32,
    rgba: Seq<u8>,
    file: Seq<u8>,
    cols: int,
    rows: int,
    backend: Backend,
    id: u32,
    cell: CellSize,
) -> Seq<char> {
    match backend {
        Backend::Kitty => kitty_place(file, cols as u16, rows as u16, id),
        Backend::Sixel => {
            let pixel_width = (cols * limit(cell.width)) as u32;
            let pixel_height = (rows * limit(cell.height)) as u32;
            sixel_image(
                resized(width, height, rgba, pixel_width, pixel_height),
                pixel_width,
                pixel_height,
            )
        },
        Backend::HalfBlocks => Seq::empty(),
    }
}

/// What [`fit_pixels`] makes of a picture.
pub open spec fn spec_fit_pixels(
    width: u32,
    height: u32,
    rgba: Seq<u8>,
    file: Seq<u8>,
    max_cols: u16,
    max_rows: u16,
    backend: Backend,
    id: u32,
    cell: CellSize,
) -> RenderedView {
    if width == 0 || height == 0 {
        RenderedView { cols: 0, rows: 0, grid: None, escape: Some(Seq::empty()) }
    } else {
        let cols = pixel_box_cols(width, height, max_cols, max_rows, cell.width, cell.height);
        let rows = pixel_box_rows(width, height, max_cols, max_rows, cell.width, cell.height);
        RenderedView {
            cols: cols as u16,
            rows: rows as u16,
            grid: None,
            escape: Some(pixel_escape(width, height, rgba, file, cols, rows, backend, id, cell)),
        }
    }
}

/// Prepares a picture for a pixel protocol, sized to a whole number of
/// cells: Kitty scales the PNG itself, which keeps every pixel; Sixel carries
/// no scaling, so the pixels are resized to the cell box.
pub fn fit_pixels(
    picture: &Picture,
    file: &[u8],
    max_cols: u16,
    max_rows: u16,
    backend: Backend,
    id: u32,
    cell: CellSize,
) -> (out: Rendered)
    ensures
        out@ == spec_fit_pixels(
            picture@.0,
            picture@.1,
            picture@.2,
            file@,
            max_cols,
            max_rows,
            backend,
            id,
            cell,
        ),
{
    let width = picture.width();
    let height = picture.height();
    if width == 0 || height == 0 {
        return Rendered::from_escape(0, 0, String::new());
    }
    let (cols, rows) = pixel_box(width, height, max_cols, max_rows, cell.width, cell.height);
    let escape = match backend {
        Backend::Kitty => kitty::encode_png(file, cols, rows, id),
        Backend::Sixel => {
            let cell_w: u32 = if cell.width == 0 {
                1
            } else {
                cell.width as u32
            };
            let cell_h: u32 = if cell.height == 0 {
                1
            } else {
                cell.height as u32
            };
            assert((cols as u32) * cell_w <= 65535 * 65535) by (nonlinear_arith)
                requires
                    cols <= 65535,
                    cell_w <= 65535,
            ;
            assert((rows as u32) * cell_h <= 65535 * 65535) by (nonlinear_arith)
                requires
                    rows <= 65535,
                    cell_h <= 65535,
            ;
            assert((cols as u32) * cell_w >= 1 && (rows as u32) * cell_h >= 1) by (nonlinear_arith)
                requires
                    cols >= 1,
                    rows >= 1,
                    cell_w >= 1,
                    cell_h >= 1,
            ;
            let pixel_width = (cols as u32) * cell_w;
            let pixel_height = (rows as u32) * cell_h;
            let scaled = resize_rgba(picture, pixel_width, pixel_height);
            sixel::encode(&scaled, pixel_width, pixel_height)
        },
        Backend::HalfBlocks => String::new(),
    };
    Rendered::from_escape(cols, rows, escape)
}

/// What [`render_picture`] makes of a decoded picture and the file it came
/// from, for the given backend.
pub open spec fn spec_render_picture(
    width: u32,
    height: u32,
    rgba: Seq<u8>,
    file: Seq<u8>,
    max_cols: u16,
    max_rows: u16,
    backend: Backend,
    id: u32,
    cell: CellSize,
) -> RenderedView {
    if backend == Backend::HalfBlocks {
        spec_fit(width, height, rgba, max_cols, max_rows)
    } else {
        spec_fit_pixels(width, height, rgba, file, max_cols, max_rows, backend, id, cell)
    }
}

/// Prepares a decoded picture for the given backend; `file` is the image
/// file it was decoded from, which the Kitty backend sends as it is.
pub fn render_picture(
    picture: &Picture,
    file: &[u8],
    max_cols: u16,
    max_rows: u16,
    backend: Backend,
    id: u32,
    cell: CellSize,
) -> (out: Rendered)
    ensures
        out@ == spec_render_picture(
            picture@.0,
            picture@.1,
            picture@.2,
            file@,
            max_cols,
            max_rows,
            backend,
            id,
            cell,
        ),
{
    match backend {
        Backend::HalfBlocks => fit(picture, max_cols, max_rows),
        Backend::Kitty | Backend::Sixel => fit_pixels(
            picture,
            file,
            max_cols,
            max_rows,
            backend,
            id,
            cell,
        ),
    }
}

/// Decodes image bytes and prepares them for the given backend.
///
/// `max_rows` caps the height so a full-page illustration cannot push the
/// text off the screen. `id` distinguishes pictures for backends that address
/// them, which is how a stale picture gets removed before the next draw.
///
/// Whether the bytes decode, and to which picture, is up to the `image`
/// crate; what is promised is that a failure is `CannotDecode`, with the
/// decoder's error, and a success is [`render_picture`] applied to a picture
/// the decoder gave for these bytes (see `decodes_to`), and to the bytes
/// themselves.
pub fn render(
    bytes: &[u8],
    max_cols: u16,
    max_rows: u16,
    backend: Backend,
    id: u32,
    cell: CellSize,
) -> (out: Result<Rendered, RenderError>)
    ensures
        match out {
            Ok(r) => exists|width: u32, height: u32, rgba: Seq<u8>|
                #[trigger] decodes_to(bytes@, width, height, rgba) && well_formed_rgba(
                    width,
                    height,
                    rgba,
                ) && r@ == spec_render_picture(
                    width,
                    height,
                    rgba,
                    bytes@,
                    max_cols,
                    max_rows,
                    backend,
                    id,
                    cell,
                ),
            Err(e) => e is CannotDecode,
        },
{
    match decode(bytes) {
        Ok(picture) => {
            proof {
                use_type_invariant(&picture);
                assert(decodes_to(bytes@, picture@.0, picture@.1, picture@.2));
            }
            Ok(render_picture(&picture, bytes, max_cols, max_rows, backend, id, cell))
        },
        Err(err) => Err(RenderError::CannotDecode(err)),
    }
}

/// What [`clear_all`] gives for a backend.
pub open spec fn spec_clear_all(backend: Backend) -> Option<Seq<char>> {
    match backend {
        Backend::Kitty => Some(kitty_delete_all()),
        Backend::Sixel | Backend::HalfBlocks => None,
    }
}

/// Removes every picture a pixel backend has placed. Called before a
/// redraw, because pictures live outside the text buffer and would otherwise
/// stay put. Sixel pictures are part of the screen contents and vanish with it.
pub fn clear_all(backend: Backend) -> (out: Option<String>)
    ensures
        match spec_clear_all(backend) {
            Some(text) => out matches Some(s) && s@ == text,
            None => out is None,
        },
{
    match backend {
        Backend::Kitty => Some(kitty::delete_all()),
        Backend::Sixel | Backend::HalfBlocks => None,
    }
}

/// A half-block picture fits the given columns and rows (a limit of 0
/// counting as 1), is at least one cell each way unless the picture is empty,
/// and holds exactly as many rows of as many cells as it says; an empty
/// picture renders to nothing.
pub proof fn lemma_fit_shape(width: u32, height: u32, rgba: Seq<u8>, max_cols: u16, max_rows: u16)
    ensures
        ({
            let view = spec_fit(width, height, rgba, max_cols, max_rows);
            &&& view.escape is None
            &&& view.grid is Some
            &&& view.grid->0.len() == view.rows
            &&& forall|r: int| 0 <= r < view.rows ==> (#[trigger] view.grid->0[r]).len() == view.cols
            &&& (width == 0 || height == 0) ==> view.cols == 0 && view.rows == 0
            &&& (width > 0 && height > 0) ==> 1 <= view.cols <= limit(max_cols) && 1 <= view.rows
                <= limit(max_rows)
        }),
{
    lemma_half_block_box_within_limits(width, height, max_cols, max_rows);
}

/// An opaque pixel keeps its colour; a fully transparent one shows white; a
/// partly transparent one is never darker than its own colour.
pub proof fn lemma_flatten_against_white(r: u8, g: u8, b: u8, a: u8)
    ensures
        spec_flatten([r, g, b, 255]) == (r, g, b),
        spec_flatten([r, g, b, 0]) == (255u8, 255u8, 255u8),
        spec_flatten([r, g, b, a]).0 >= r,
        spec_flatten([r, g, b, a]).1 >= g,
        spec_flatten([r, g, b, a]).2 >= b,
{
    assert([r, g, b, 255u8]@ == seq![r, g, b, 255u8]);
    assert([r, g, b, 0u8]@ == seq![r, g, b, 0u8]);
    assert([r, g, b, a]@ == seq![r, g, b, a]);
    lemma_over_white_lighter(r, a);
    lemma_over_white_lighter(g, a);
    lemma_over_white_lighter(b, a);
}

proof fn lemma_over_white_lighter(c: u8, a: u8)
    ensures
        over_white(c, a) >= c,
        a == 0 ==> over_white(c, a) == 255,
{
    let ci = c as int;
    let ai = a as int;
    assert(2 * ci * (255 - ai) <= 510 * (255 - ai)) by (nonlinear_arith)
        requires
            0 <= ci <= 255,
            0 <= ai <= 255,
    ;
    assert((2 * (ci * ai + 255 * (255 - ai)) + 255) / 510 >= ci) by (nonlinear_arith)
        requires
            0 <= ci <= 255,
            0 <= ai <= 255,
            2 * ci * (255 - ai) <= 510 * (255 - ai),
    ;
    assert((2 * (ci * ai + 255 * (255 - ai)) + 255) / 510 <= 255) by (nonlinear_arith)
        requires
            0 <= ci <= 255,
            0 <= ai <= 255,
    ;
}

proof fn lemma_over_white_monotone(c1: u8, c2: u8, a1: u8, a2: u8)
    ensures
        over_white(c1, 255) == c1,
        c1 <= c2 ==> over_white(c1, a1) <= over_white(c2, a1),
        a1 <= a2 ==> over_white(c1, a1) >= over_white(c1, a2),
{
    let x1 = c1 as int;
    let x2 = c2 as int;
    let b1 = a1 as int;
    let b2 = a2 as int;
    assert((2 * (x1 * 255 + 255 * (255 - 255)) + 255) / 510 == x1) by (nonlinear_arith)
        requires
            0 <= x1 <= 255,
    ;
    assert(x1 <= x2 ==> (2 * (x1 * b1 + 255 * (255 - b1)) + 255) / 510 <= (2 * (x2 * b1 + 255 * (
    255 - b1)) + 255) / 510) by (nonlinear_arith)
        requires
            0 <= x1 <= 255,
            0 <= x2 <= 255,
            0 <= b1 <= 255,
    ;
    assert(b1 <= b2 ==> (2 * (x1 * b1 + 255 * (255 - b1)) + 255) / 510 >= (2 * (x1 * b2 + 255 * (
    255 - b2)) + 255) / 510) by (nonlinear_arith)
        requires
            0 <= x1 <= 255,
            0 <= b1 <= 255,
            0 <= b2 <= 255,
    ;
    assert((2 * (x1 * b1 + 255 * (255 - b1)) + 255) / 510 <= 255) by (nonlinear_arith)
        requires
            0 <= x1 <= 255,
            0 <= b1 <= 255,
    ;
    assert((2 * (x2 * b1 + 255 * (255 - b1)) + 255) / 510 <= 255) by (nonlinear_arith)
        requires
            0 <= x2 <= 255,
            0 <= b1 <= 255,
    ;
    assert((2 * (x1 * b2 + 255 * (255 - b2)) + 255) / 510 <= 255) by (nonlinear_arith)
        requires
            0 <= x1 <= 255,
            0 <= b2 <= 255,
    ;
}

/// Compositing onto white keeps the order of channel values, and more
/// opacity never makes a channel lighter, in each of the three channels.
pub proof fn lemma_flatten_monotone(r1: u8, r2: u8, g1: u8, g2: u8, b1: u8, b2: u8, a1: u8, a2: u8)
    ensures
        r1 <= r2 && g1 <= g2 && b1 <= b2 ==> {
            &&& spec_flatten([r1, g1, b1, a1]).0 <= spec_flatten([r2, g2, b2, a1]).0
            &&& spec_flatten([r1, g1, b1, a1]).1 <= spec_flatten([r2, g2, b2, a1]).1
            &&& spec_flatten([r1, g1, b1, a1]).2 <= spec_flatten([r2, g2, b2, a1]).2
        },
        a1 <= a2 ==> {
            &&& spec_flatten([r1, g1, b1, a1]).0 >= spec_flatten([r1, g1, b1, a2]).0
            &&& spec_flatten([r1, g1, b1, a1]).1 >= spec_flatten([r1, g1, b1, a2]).1
            &&& spec_flatten([r1, g1, b1, a1]).2 >= spec_flatten([r1, g1, b1, a2]).2
        },
{
    assert([r1, g1, b1, a1]@ == seq![r1, g1, b1, a1]);
    assert([r2, g2, b2, a1]@ == seq![r2, g2, b2, a1]);
    assert([r1, g1, b1, a2]@ == seq![r1, g1, b1, a2]);
    lemma_over_white_monotone(r1, r2, a1, a2);
    lemma_over_white_monotone(g1, g2, a1, a2);
    lemma_over_white_monotone(b1, b2, a1, a2);
    lemma_over_white_monotone(r2, r2, a1, a1);
    lemma_over_white_monotone(g2, g2, a1, a1);
    lemma_over_white_monotone(b2, b2, a1, a1);
}

/// Each pixel row `y` of a buffer `cols` x `2 * rows` pixels shows in cell
/// row `y / 2`: as the upper half when `y` is even, as the lower half when it
/// is odd, composited onto white.
pub proof fn lemma_half_blocks_pair_pixel_rows(rgba: Seq<u8>, cols: int, rows: int, x: int, y: int)
    requires
        0 <= x < cols,
        0 <= y < 2 * rows,
    ensures
        ({
            let cell = half_block_grid(rgba, cols, rows)[y / 2][x];
            let i = 4 * (y * cols + x);
            let colour = composite(rgba[i], rgba[i + 1], rgba[i + 2], rgba[i + 3]);
            &&& y % 2 == 0 ==> cell.upper == colour
            &&& y % 2 == 1 ==> cell.lower == colour
        }),
{
    let r = y / 2;
    assert(0 <= r < rows);
    assert(y == 2 * r + y % 2);
    assert(half_block_grid(rgba, cols, rows)[r][x] == half_block_cell(rgba, cols, x, r));
}

} // verus!
