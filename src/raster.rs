//! RGB8 image buffers: single pixels, rectangles, and a whole colour grid
//! laid out with image rows stored bottom-up.
use vstd::prelude::*;

verus! {

/// Colour of the obstruction footprints drawn over a coverage image.
pub const FOOTPRINT_RGB: (u8, u8, u8) = (255, 0, 0);

/// Byte offset of pixel (x, y) in an RGB8 buffer with rows of `dim_x`
/// pixels; image row `y` is stored in buffer row `dim_y - y`.
pub open spec fn pixel_offset(dim_x: int, dim_y: int, x: int, y: int) -> int {
    3 * (x + (dim_y - y) * dim_x)
}

/// Channel `c` (0 red, 1 green, 2 blue) of a colour.
pub open spec fn channel(rgb: (u8, u8, u8), c: int) -> u8 {
    if c == 0 {
        rgb.0
    } else if c == 1 {
        rgb.1
    } else {
        rgb.2
    }
}

/// Writes colour `rgb` at pixel (x, y).
pub fn set_pixel(
    pixels: &mut Vec<u8>,
    dim_x: usize,
    dim_y: usize,
    x: usize,
    y: usize,
    rgb: (u8, u8, u8),
)
    requires
        y <= dim_y,
        pixel_offset(dim_x as int, dim_y as int, x as int, y as int) + 3 <= old(pixels)@.len(),
    ensures
        final(pixels)@ == old(pixels)@.update(
            pixel_offset(dim_x as int, dim_y as int, x as int, y as int),
            rgb.0,
        ).update(pixel_offset(dim_x as int, dim_y as int, x as int, y as int) + 1, rgb.1).update(
            pixel_offset(dim_x as int, dim_y as int, x as int, y as int) + 2,
            rgb.2,
        ),
{
    // the length fits in usize: bounds every offset below
    let _len = pixels.len();
    let row = dim_y - y;
    assert(row * dim_x >= 0) by (nonlinear_arith);
    let base = 3 * (x + row * dim_x);
    pixels.set(base, rgb.0);
    pixels.set(base + 1, rgb.1);
    pixels.set(base + 2, rgb.2);
}

/// Pixels x0 <= x < x1 of image row `y` cover byte `b`.
pub open spec fn span_covers(dim_x: int, dim_y: int, x0: int, x1: int, y: int, b: int) -> bool {
    pixel_offset(dim_x, dim_y, x0, y) <= b < pixel_offset(dim_x, dim_y, x1, y)
}

/// Paints pixels x0 <= x < x1 of image row `y` with one colour.
fn paint_span(
    pixels: &mut Vec<u8>,
    dim_x: usize,
    dim_y: usize,
    x0: usize,
    x1: usize,
    y: usize,
    rgb: (u8, u8, u8),
)
    requires
        x0 < x1 ==> y <= dim_y && pixel_offset(dim_x as int, dim_y as int, x1 as int, y as int)
            <= old(pixels)@.len(),
    ensures
        final(pixels)@.len() == old(pixels)@.len(),
        forall|b: int|
            0 <= b < old(pixels)@.len() ==> #[trigger] final(pixels)@[b] == if span_covers(
                dim_x as int,
                dim_y as int,
                x0 as int,
                x1 as int,
                y as int,
                b,
            ) {
                channel(rgb, b % 3)
            } else {
                old(pixels)@[b]
            },
{
    let ghost start = pixels@;
    let mut x = x0;
    while x < x1
        invariant
            x0 <= x <= x1 || x1 <= x0 == x,
            x0 < x1 ==> y <= dim_y && pixel_offset(dim_x as int, dim_y as int, x1 as int, y as int)
                <= start.len(),
            pixels@.len() == start.len(),
            forall|b: int|
                0 <= b < start.len() ==> #[trigger] pixels@[b] == if span_covers(
                    dim_x as int,
                    dim_y as int,
                    x0 as int,
                    x as int,
                    y as int,
                    b,
                ) {
                    channel(rgb, b % 3)
                } else {
                    start[b]
                },
        decreases x1 - x,
    {
        let ghost o = pixel_offset(dim_x as int, dim_y as int, x as int, y as int);
        set_pixel(pixels, dim_x, dim_y, x, y, rgb);
        assert forall|b: int| 0 <= b < start.len() implies #[trigger] pixels@[b] == if span_covers(
            dim_x as int,
            dim_y as int,
            x0 as int,
            x + 1,
            y as int,
            b,
        ) {
            channel(rgb, b % 3)
        } else {
            start[b]
        } by {
            if o <= b < o + 3 {
                assert(b % 3 == b - o);
            }
        }
        x = x + 1;
    }
}

/// Rows y0 <= y < y1, each over pixels x0 <= x < x1, cover byte `b`.
pub open spec fn rows_cover(
    dim_x: int,
    dim_y: int,
    x0: int,
    x1: int,
    y0: int,
    y1: int,
    b: int,
) -> bool {
    exists|y: int| y0 <= y < y1 && #[trigger] span_covers(dim_x, dim_y, x0, x1, y, b)
}

/// A rectangle with half-sides `side_x`, `side_y` around (origin_x,
/// origin_y) can be drawn into a buffer of `len` bytes without leaving it.
pub open spec fn rect_fits(
    len: int,
    dim_x: int,
    dim_y: int,
    side_x: int,
    side_y: int,
    origin_x: int,
    origin_y: int,
) -> bool {
    &&& side_x <= origin_x
    &&& side_y <= origin_y
    &&& origin_x + side_x <= usize::MAX
    &&& origin_y + side_y <= usize::MAX
    &&& (0 < side_x && 0 < side_y) ==> {
        &&& origin_y + side_y <= dim_y + 1
        &&& pixel_offset(dim_x, dim_y, origin_x + side_x, origin_y - side_y) <= len
    }
}

/// The rectangle with half-sides `side_x`, `side_y` around (origin_x,
/// origin_y) covers byte `b`.
pub open spec fn rect_covers(
    dim_x: int,
    dim_y: int,
    side_x: int,
    side_y: int,
    origin_x: int,
    origin_y: int,
    b: int,
) -> bool {
    rows_cover(
        dim_x,
        dim_y,
        origin_x - side_x,
        origin_x + side_x,
        origin_y - side_y,
        origin_y + side_y,
        b,
    )
}

proof fn lemma_lower_row_ends_earlier(dim_x: int, dim_y: int, x1: int, y0: int, y: int)
    requires
        0 <= dim_x,
        y0 <= y,
    ensures
        pixel_offset(dim_x, dim_y, x1, y) <= pixel_offset(dim_x, dim_y, x1, y0),
{
    assert((dim_y - y) * dim_x <= (dim_y - y0) * dim_x) by (nonlinear_arith)
        requires
            0 <= dim_x,
            y0 <= y,
    ;
}

/// Fills the rectangle with half-sides `side_x`, `side_y` around (origin_x,
/// origin_y) with the footprint colour.
pub fn draw_rectangle(
    pixels: &mut Vec<u8>,
    dim_x: usize,
    dim_y: usize,
    side_x: usize,
    side_y: usize,
    origin_x: usize,
    origin_y: usize,
)
    requires
        rect_fits(
            old(pixels)@.len() as int,
            dim_x as int,
            dim_y as int,
            side_x as int,
            side_y as int,
            origin_x as int,
            origin_y as int,
        ),
    ensures
        final(pixels)@.len() == old(pixels)@.len(),
        forall|b: int|
            0 <= b < old(pixels)@.len() ==> #[trigger] final(pixels)@[b] == if rect_covers(
                dim_x as int,
                dim_y as int,
                side_x as int,
                side_y as int,
                origin_x as int,
                origin_y as int,
                b,
            ) {
                channel(FOOTPRINT_RGB, b % 3)
            } else {
                old(pixels)@[b]
            },
{
    let ghost start = pixels@;
    let x0 = origin_x - side_x;
    let x1 = origin_x + side_x;
    let y0 = origin_y - side_y;
    let y1 = origin_y + side_y;
    let mut y = y0;
    while y < y1
        invariant
            y0 <= y <= y1 || y1 <= y0 == y,
            x0 == origin_x - side_x,
            x1 == origin_x + side_x,
            y0 == origin_y - side_y,
            y1 == origin_y + side_y,
            rect_fits(
                start.len() as int,
                dim_x as int,
                dim_y as int,
                side_x as int,
                side_y as int,
                origin_x as int,
                origin_y as int,
            ),
            pixels@.len() == start.len(),
            forall|b: int|
                0 <= b < start.len() ==> #[trigger] pixels@[b] == if rows_cover(
                    dim_x as int,
                    dim_y as int,
                    x0 as int,
                    x1 as int,
                    y0 as int,
                    y as int,
                    b,
                ) {
                    channel(FOOTPRINT_RGB, b % 3)
                } else {
                    start[b]
                },
        decreases y1 - y,
    {
        proof {
            lemma_lower_row_ends_earlier(dim_x as int, dim_y as int, x1 as int, y0 as int, y as int);
        }
        paint_span(pixels, dim_x, dim_y, x0, x1, y, FOOTPRINT_RGB);
        assert forall|b: int| 0 <= b < start.len() implies #[trigger] pixels@[b] == if rows_cover(
            dim_x as int,
            dim_y as int,
            x0 as int,
            x1 as int,
            y0 as int,
            y + 1,
            b,
        ) {
            channel(FOOTPRINT_RGB, b % 3)
        } else {
            start[b]
        } by {
            let x0i = x0 as int;
            let x1i = x1 as int;
            let dx = dim_x as int;
            let dy = dim_y as int;
            if span_covers(dx, dy, x0i, x1i, y as int, b) {
                assert(rows_cover(dx, dy, x0i, x1i, y0 as int, y + 1, b));
            } else if rows_cover(dx, dy, x0i, x1i, y0 as int, y + 1, b) {
                let w = choose|w: int|
                    y0 <= w < y + 1 && #[trigger] span_covers(dx, dy, x0i, x1i, w, b);
                assert(rows_cover(dx, dy, x0i, x1i, y0 as int, y as int, b));
            } else {
                assert(!rows_cover(dx, dy, x0i, x1i, y0 as int, y as int, b));
            }
        }
        y = y + 1;
    }
}

/// The ground rectangle of an elevated obstruction, as half-sides and a
/// centre in whole cells.
#[derive(Clone, Copy, Debug, PartialEq, Eq, Structural)]
pub struct Footprint {
    pub side_x: usize,
    pub side_y: usize,
    pub origin_x: usize,
    pub origin_y: usize,
}

pub open spec fn footprint_fits_spec(f: Footprint, len: int, dim_x: int, dim_y: int) -> bool {
    rect_fits(
        len,
        dim_x,
        dim_y,
        f.side_x as int,
        f.side_y as int,
        f.origin_x as int,
        f.origin_y as int,
    )
}

pub open spec fn footprint_covers(f: Footprint, dim_x: int, dim_y: int, b: int) -> bool {
    rect_covers(
        dim_x,
        dim_y,
        f.side_x as int,
        f.side_y as int,
        f.origin_x as int,
        f.origin_y as int,
        b,
    )
}

/// One of the first `k` footprints covers byte `b`.
pub open spec fn footprints_cover(fs: Seq<Footprint>, k: int, dim_x: int, dim_y: int, b: int) -> bool {
    exists|i: int| 0 <= i < k && #[trigger] footprint_covers(fs[i], dim_x, dim_y, b)
}

/// Whether footprint `f` can be drawn into a buffer of `len` bytes for an
/// image of `dim_x` by `dim_y` pixels.
pub fn footprint_fits(f: &Footprint, len: usize, dim_x: usize, dim_y: usize) -> (r: bool)
    ensures
        r == footprint_fits_spec(*f, len as int, dim_x as int, dim_y as int),
{
    if f.side_x > f.origin_x || f.side_y > f.origin_y {
        return false;
    }
    if f.side_x > usize::MAX - f.origin_x || f.side_y > usize::MAX - f.origin_y {
        return false;
    }
    if f.side_x == 0 || f.side_y == 0 {
        return true;
    }
    if f.origin_y + f.side_y - 1 > dim_y {
        return false;
    }
    let row = dim_y - (f.origin_y - f.side_y);
    match row.checked_mul(dim_x) {
        Some(rows) => match rows.checked_add(f.origin_x + f.side_x) {
            Some(cells) => match cells.checked_mul(3) {
                Some(end) => end <= len,
                None => false,
            },
            None => false,
        },
        None => {
            assert(row * dim_x >= 0) by (nonlinear_arith);
            false
        },
    }
}

/// Draws the footprints of elevated obstructions over a coverage image, each
/// as a rectangle in the footprint colour.
pub fn add_buildings(
    footprints: &Vec<Footprint>,
    pixels: &mut Vec<u8>,
    image_width: usize,
    image_height: usize,
)
    requires
        forall|i: int|
            0 <= i < footprints@.len() ==> footprint_fits_spec(
                #[trigger] footprints@[i],
                old(pixels)@.len() as int,
                image_width as int,
                image_height as int,
            ),
    ensures
        final(pixels)@.len() == old(pixels)@.len(),
        forall|b: int|
            0 <= b < old(pixels)@.len() ==> #[trigger] final(pixels)@[b] == if footprints_cover(
                footprints@,
                footprints@.len() as int,
                image_width as int,
                image_height as int,
                b,
            ) {
                channel(FOOTPRINT_RGB, b % 3)
            } else {
                old(pixels)@[b]
            },
{
    let ghost start = pixels@;
    let ghost fs = footprints@;
    let ghost dx = image_width as int;
    let ghost dy = image_height as int;
    let mut k: usize = 0;
    while k < footprints.len()
        invariant
            k <= fs.len(),
            fs == footprints@,
            dx == image_width as int,
            dy == image_height as int,
            pixels@.len() == start.len(),
            forall|i: int|
                0 <= i < fs.len() ==> footprint_fits_spec(
                    #[trigger] fs[i],
                    start.len() as int,
                    dx,
                    dy,
                ),
            forall|b: int|
                0 <= b < start.len() ==> #[trigger] pixels@[b] == if footprints_cover(
                    fs,
                    k as int,
                    dx,
                    dy,
                    b,
                ) {
                    channel(FOOTPRINT_RGB, b % 3)
                } else {
                    start[b]
                },
        decreases fs.len() - k,
    {
        let f = footprints[k];
        assert(footprint_fits_spec(fs[k as int], start.len() as int, dx, dy));
        draw_rectangle(
            pixels,
            image_width,
            image_height,
            f.side_x,
            f.side_y,
            f.origin_x,
            f.origin_y,
        );
        assert forall|b: int| 0 <= b < start.len() implies #[trigger] pixels@[b] == if footprints_cover(
            fs,
            k + 1,
            dx,
            dy,
            b,
        ) {
            channel(FOOTPRINT_RGB, b % 3)
        } else {
            start[b]
        } by {
            if footprint_covers(fs[k as int], dx, dy, b) {
                assert(footprints_cover(fs, k + 1, dx, dy, b));
            } else if footprints_cover(fs, k + 1, dx, dy, b) {
                let w = choose|w: int| 0 <= w < k + 1 && #[trigger] footprint_covers(fs[w], dx, dy, b);
                assert(footprints_cover(fs, k as int, dx, dy, b));
            } else {
                assert(!footprints_cover(fs, k as int, dx, dy, b));
            }
        }
        k = k + 1;
    }
}

/// Byte `c` of pixel (x, y): the trigger for statements about single pixels.
pub open spec fn pixel_byte(dim_x: int, dim_y: int, x: int, y: int, c: int) -> int {
    pixel_offset(dim_x, dim_y, x, y) + c
}

proof fn lemma_next_row(dim_x: int, dim_y: int, y: int)
    ensures
        pixel_offset(dim_x, dim_y, dim_x, y + 1) == pixel_offset(dim_x, dim_y, 0, y),
{
    assert((dim_y - y) * dim_x == (dim_y - (y + 1)) * dim_x + dim_x) by (nonlinear_arith);
}

proof fn lemma_row_before(dim_x: int, dim_y: int, y0: int, y: int)
    requires
        0 <= dim_x,
        y0 < y,
    ensures
        pixel_offset(dim_x, dim_y, dim_x, y) <= pixel_offset(dim_x, dim_y, 0, y0),
{
    assert((dim_y - y) * dim_x + dim_x <= (dim_y - y0) * dim_x) by (nonlinear_arith)
        requires
            0 <= dim_x,
            y0 < y,
    ;
}

proof fn lemma_cell_in_grid(dim_x: int, dim_y: int, x: int, y: int)
    requires
        0 <= x < dim_x,
        0 <= y < dim_y,
    ensures
        0 <= x + y * dim_x < dim_x * dim_y,
{
    assert(0 <= y * dim_x <= (dim_y - 1) * dim_x) by (nonlinear_arith)
        requires
            0 <= y < dim_y,
            0 <= dim_x,
    ;
    assert((dim_y - 1) * dim_x + dim_x == dim_x * dim_y) by (nonlinear_arith);
}

/// Paints image row `y` from grid row `y` of `colors`.
fn paint_grid_row(
    colors: &Vec<(u8, u8, u8)>,
    pixels: &mut Vec<u8>,
    dim_x: usize,
    dim_y: usize,
    y: usize,
)
    requires
        y < dim_y,
        dim_x * dim_y <= colors@.len(),
        pixel_offset(dim_x as int, dim_y as int, dim_x as int, y as int) <= old(pixels)@.len(),
    ensures
        final(pixels)@.len() == old(pixels)@.len(),
        forall|x: int, c: int|
            0 <= x < dim_x && 0 <= c < 3 ==> final(pixels)@[#[trigger] pixel_byte(
                dim_x as int,
                dim_y as int,
                x,
                y as int,
                c,
            )] == channel(colors@[x + y * dim_x], c),
        forall|b: int|
            0 <= b < old(pixels)@.len() && !(pixel_offset(dim_x as int, dim_y as int, 0, y as int)
                <= b < pixel_offset(dim_x as int, dim_y as int, dim_x as int, y as int))
                ==> #[trigger] final(pixels)@[b] == old(pixels)@[b],
{
    let ghost start = pixels@;
    let ghost dx = dim_x as int;
    let ghost dy = dim_y as int;
    let nc = colors.len();
    let mut x: usize = 0;
    while x < dim_x
        invariant
            nc == colors@.len(),
            x <= dim_x,
            y < dim_y,
            dx == dim_x as int,
            dy == dim_y as int,
            dim_x * dim_y <= colors@.len(),
            pixel_offset(dx, dy, dx, y as int) <= start.len(),
            pixels@.len() == start.len(),
            forall|x2: int, c: int|
                0 <= x2 < x && 0 <= c < 3 ==> pixels@[#[trigger] pixel_byte(dx, dy, x2, y as int, c)]
                    == channel(colors@[x2 + y * dim_x], c),
            forall|b: int|
                0 <= b < start.len() && !(pixel_offset(dx, dy, 0, y as int) <= b < pixel_offset(
                    dx,
                    dy,
                    x as int,
                    y as int,
                )) ==> #[trigger] pixels@[b] == start[b],
        decreases dim_x - x,
    {
        proof {
            lemma_cell_in_grid(dx, dy, x as int, y as int);
        }
        let cell = x + y * dim_x;
        let rgb = colors[cell];
        set_pixel(pixels, dim_x, dim_y, x, y, rgb);
        x = x + 1;
    }
}

/// Lays a grid of colours, `dim_x` per row and row-major, out as an image of
/// `dim_x` by `dim_y` pixels: grid cell (x, y) becomes pixel (x, y), stored
/// in buffer row `dim_y - y`. Buffer row 0 and the bytes past row `dim_y`
/// are left as they were.
pub fn grid_to_pixels(colors: &Vec<(u8, u8, u8)>, pixels: &mut Vec<u8>, dim_x: usize, dim_y: usize)
    requires
        dim_x * dim_y <= colors@.len(),
        pixel_offset(dim_x as int, dim_y as int, dim_x as int, 0) <= old(pixels)@.len(),
    ensures
        final(pixels)@.len() == old(pixels)@.len(),
        forall|x: int, y: int, c: int|
            0 <= x < dim_x && 0 <= y < dim_y && 0 <= c < 3 ==> final(pixels)@[#[trigger] pixel_byte(
                dim_x as int,
                dim_y as int,
                x,
                y,
                c,
            )] == channel(colors@[x + y * dim_x], c),
        forall|b: int|
            0 <= b < old(pixels)@.len() && (b < 3 * dim_x || pixel_offset(
                dim_x as int,
                dim_y as int,
                dim_x as int,
                0,
            ) <= b) ==> #[trigger] final(pixels)@[b] == old(pixels)@[b],
{
    let ghost start = pixels@;
    let ghost dx = dim_x as int;
    let ghost dy = dim_y as int;
    let mut y: usize = 0;
    while y < dim_y
        invariant
            y <= dim_y,
            dx == dim_x as int,
            dy == dim_y as int,
            dim_x * dim_y <= colors@.len(),
            pixel_offset(dx, dy, dx, 0) <= start.len(),
            pixels@.len() == start.len(),
            forall|x2: int, y2: int, c: int|
                0 <= x2 < dim_x && 0 <= y2 < y && 0 <= c < 3 ==> pixels@[#[trigger] pixel_byte(
                    dx,
                    dy,
                    x2,
                    y2,
                    c,
                )] == channel(colors@[x2 + y2 * dim_x], c),
            forall|b: int|
                0 <= b < start.len() && (b < pixel_offset(dx, dy, dx, y as int) || pixel_offset(
                    dx,
                    dy,
                    dx,
                    0,
                ) <= b) ==> #[trigger] pixels@[b] == start[b],
        decreases dim_y - y,
    {
        let ghost before = pixels@;
        proof {
            lemma_lower_row_ends_earlier(dx, dy, dx, 0, y as int);
        }
        paint_grid_row(colors, pixels, dim_x, dim_y, y);
        proof {
            lemma_next_row(dx, dy, y as int);
            assert forall|x2: int, y2: int, c: int|
                0 <= x2 < dim_x && 0 <= y2 < y && 0 <= c < 3 implies pixels@[#[trigger] pixel_byte(
                dx,
                dy,
                x2,
                y2,
                c,
            )] == channel(colors@[x2 + y2 * dim_x], c) by {
                lemma_row_before(dx, dy, y2, y as int);
                lemma_lower_row_ends_earlier(dx, dy, dx, 0, y2);
                assert(before[pixel_byte(dx, dy, x2, y2, c)] == channel(
                    colors@[x2 + y2 * dim_x],
                    c,
                ));
            }
        }
        y = y + 1;
    }
    proof {
        assert(pixel_offset(dx, dy, dx, dy) == 3 * dx) by (nonlinear_arith);
    }
}

/// The colour of pixel (col, row) of an RGB8 buffer with rows of `width`
/// pixels, counted from the first byte.
pub fn pixel_at(pixels: &Vec<u8>, width: usize, col: usize, row: usize) -> (r: (u8, u8, u8))
    requires
        3 * (col + row * width) + 3 <= pixels@.len(),
    ensures
        r == (
            pixels@[3 * (col + row * width)],
            pixels@[3 * (col + row * width) + 1],
            pixels@[3 * (col + row * width) + 2],
        ),
{
    // the length fits in usize: bounds the offset below
    let _len = pixels.len();
    assert(row * width >= 0) by (nonlinear_arith);
    let base = 3 * (col + row * width);
    (pixels[base], pixels[base + 1], pixels[base + 2])
}

} // verus!
