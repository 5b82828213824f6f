//! The pixel buffer: a `width x height` board stored as RGBA bytes, four per
//! cell, where the RGB triple of each cell encodes one of the four board
//! colors. The buffer is the sole representation of the board; there is no
//! separate logical grid.

use super::coord::Coord;
use vstd::arithmetic::div_mod::lemma_fundamental_div_mod_converse;
use vstd::prelude::*;

verus! {

/// The semantic color of one board cell.
#[derive(Clone, Copy, Debug, PartialEq, Eq, Structural)]
pub enum Color {
    Background,
    Snake,
    Food,
    Fail,
}

/// The fixed RGB triple bound to each color.
pub open spec fn rgb_of(c: Color) -> (u8, u8, u8) {
    match c {
        Color::Background => (0u8, 0u8, 0u8),
        Color::Snake => (0u8, 255u8, 0u8),
        Color::Food => (0u8, 0u8, 255u8),
        Color::Fail => (255u8, 0u8, 0u8),
    }
}

/// Classify an RGB triple; only the four triples of `rgb_of` decode.
pub open spec fn color_of_rgb(r: u8, g: u8, b: u8) -> Option<Color> {
    if r == 0 && g == 0 && b == 0 {
        Some(Color::Background)
    } else if r == 0 && g == 255 && b == 0 {
        Some(Color::Snake)
    } else if r == 0 && g == 0 && b == 255 {
        Some(Color::Food)
    } else if r == 255 && g == 0 && b == 0 {
        Some(Color::Fail)
    } else {
        None
    }
}

impl Color {
    /// Encode this color as its RGB triple.
    pub fn to_rgb(self) -> (t: (u8, u8, u8))
        ensures
            t == rgb_of(self),
    {
        match self {
            Color::Background => (0u8, 0u8, 0u8),
            Color::Snake => (0u8, 255u8, 0u8),
            Color::Food => (0u8, 0u8, 255u8),
            Color::Fail => (255u8, 0u8, 0u8),
        }
    }

    /// Decode an RGB triple back into a color, if it is one of the four
    /// defined triples.
    pub fn from_rgb(r: u8, g: u8, b: u8) -> (c: Option<Color>)
        ensures
            c == color_of_rgb(r, g, b),
    {
        if r == 0 && g == 0 && b == 0 {
            Some(Color::Background)
        } else if r == 0 && g == 255 && b == 0 {
            Some(Color::Snake)
        } else if r == 0 && g == 0 && b == 255 {
            Some(Color::Food)
        } else if r == 255 && g == 0 && b == 0 {
            Some(Color::Fail)
        } else {
            None
        }
    }
}

/// Encoding a color to its RGB triple and decoding it back yields the
/// original color, for all four colors.
pub proof fn lemma_color_rgb_round_trip(c: Color)
    ensures
        color_of_rgb(rgb_of(c).0, rgb_of(c).1, rgb_of(c).2) == Some(c),
{
}

/// Decoding is the inverse of encoding: a triple that decodes to a color is
/// that color's triple.
pub proof fn lemma_rgb_of_decoded(r: u8, g: u8, b: u8, c: Color)
    requires
        color_of_rgb(r, g, b) == Some(c),
    ensures
        rgb_of(c) == (r, g, b),
{
}

/// How many cells of a grid hold the color `c`.
pub open spec fn count_color(g: Seq<Color>, c: Color) -> nat
    decreases g.len(),
{
    if g.len() == 0 {
        0
    } else {
        count_color(g.drop_last(), c) + (if g.last() == c {
            1nat
        } else {
            0nat
        })
    }
}

/// Overwriting one cell changes the count of a color by the contribution of
/// the new value minus the contribution of the old one.
pub proof fn lemma_count_color_update(g: Seq<Color>, i: int, v: Color, c: Color)
    requires
        0 <= i < g.len(),
    ensures
        count_color(g.update(i, v), c) == count_color(g, c) + (if v == c {
            1int
        } else {
            0int
        }) - (if g[i] == c {
            1int
        } else {
            0int
        }),
    decreases g.len(),
{
    let gu = g.update(i, v);
    if i == g.len() - 1 {
        assert(gu.drop_last() =~= g.drop_last());
    } else {
        assert(gu.drop_last() =~= g.drop_last().update(i, v));
        lemma_count_color_update(g.drop_last(), i, v, c);
    }
}

/// A grid with no cell of color `c` counts zero of it.
pub proof fn lemma_count_color_zero(g: Seq<Color>, c: Color)
    requires
        forall|i: int| 0 <= i < g.len() ==> g[i] != c,
    ensures
        count_color(g, c) == 0,
    decreases g.len(),
{
    if g.len() > 0 {
        lemma_count_color_zero(g.drop_last(), c);
    }
}

/// A rectangular pixel buffer with four bytes per cell in RGBA order.
pub struct Screen {
    pub pixel_buffer: Vec<u8>,
    pub pixel_count: u32,
    pub width: u32,
    pub height: u32,
}

impl Screen {
    /// The dimensions are positive and consistent with the buffer length,
    /// and the whole buffer size fits in a `u32`.
    pub open spec fn sized(self) -> bool {
        &&& 1 <= self.width
        &&& 1 <= self.height
        &&& self.width * self.height * 4 <= u32::MAX
        &&& self.pixel_count == self.width * self.height
        &&& self.pixel_buffer@.len() == self.pixel_count * 4
    }

    /// Every alpha byte is 255; the colors never touch it.
    pub open spec fn alpha_ok(self) -> bool {
        forall|j: int|
            0 <= j < self.pixel_buffer@.len() && j % 4 == 3 ==> self.pixel_buffer@[j] == 255
    }

    /// The RGB bytes of cell `i`.
    pub open spec fn cell_rgb(self, i: int) -> (u8, u8, u8) {
        (self.pixel_buffer@[4 * i], self.pixel_buffer@[4 * i + 1], self.pixel_buffer@[4 * i + 2])
    }

    /// Cell `i` holds one of the four defined color triples.
    pub open spec fn cell_valid(self, i: int) -> bool {
        color_of_rgb(self.cell_rgb(i).0, self.cell_rgb(i).1, self.cell_rgb(i).2).is_some()
    }

    /// The color of cell `i`, reading its RGB bytes. A triple outside the
    /// four defined ones is mapped to `Fail`; well-formed screens never hold
    /// such a triple.
    pub open spec fn cell_color(self, i: int) -> Color {
        match color_of_rgb(self.cell_rgb(i).0, self.cell_rgb(i).1, self.cell_rgb(i).2) {
            Some(c) => c,
            None => Color::Fail,
        }
    }

    /// Every cell holds a defined color triple.
    pub open spec fn cells_ok(self) -> bool {
        forall|i: int| 0 <= i < self.width * self.height ==> #[trigger] self.cell_valid(i)
    }

    /// A well-formed screen: consistent dimensions, defined colors
    /// everywhere, alpha fixed at 255.
    pub open spec fn wf(self) -> bool {
        &&& self.sized()
        &&& self.alpha_ok()
        &&& self.cells_ok()
    }

    /// The board as a sequence of colors, row-major.
    pub open spec fn grid(self) -> Seq<Color> {
        Seq::new((self.width * self.height) as nat, |i: int| self.cell_color(i))
    }

    /// The coordinate lies inside the board.
    pub open spec fn coord_in_bounds(self, c: Coord) -> bool {
        &&& 0 <= c.x < self.width
        &&& 0 <= c.y < self.height
    }

    /// The row-major cell index of a coordinate.
    pub open spec fn cell_of(self, c: Coord) -> int {
        c.y * self.width + c.x
    }

    /// The color of the cell at `(x, y)`.
    pub open spec fn color_at(self, x: int, y: int) -> Color {
        self.cell_color(y * self.width + x)
    }

    /// Allocate a buffer of `width * height` cells, every byte 255; the
    /// colors are not yet meaningful and the caller must clear before use.
    pub fn new(width: u32, height: u32) -> (s: Screen)
        requires
            1 <= width,
            1 <= height,
            width * height * 4 <= u32::MAX,
        ensures
            s.width == width,
            s.height == height,
            s.sized(),
            s.alpha_ok(),
            forall|j: int| 0 <= j < s.pixel_buffer@.len() ==> s.pixel_buffer@[j] == 255,
    {
        let pixel_count = width * height;
        let screen_size_in_bytes = pixel_count * 4;
        let mut pixel_buffer: Vec<u8> = Vec::new();
        let mut j: u32 = 0;
        while j < screen_size_in_bytes
            invariant
                j <= screen_size_in_bytes,
                pixel_buffer@.len() == j,
                forall|k: int| 0 <= k < j ==> pixel_buffer@[k] == 255,
            decreases screen_size_in_bytes - j,
        {
            pixel_buffer.push(255);
            j = j + 1;
        }
        Screen { pixel_buffer, pixel_count, width, height }
    }

    /// The byte offset of a coordinate's cell in the buffer.
    pub fn get_buffer_index_for(&self, coord: &Coord) -> (i: usize)
        requires
            self.sized(),
            self.coord_in_bounds(*coord),
        ensures
            i == 4 * self.cell_of(*coord),
            i + 4 <= self.pixel_buffer@.len(),
    {
        proof {
            lemma_cell_from_xy(
                self.width as int,
                self.height as int,
                coord.x as int,
                coord.y as int,
            );
        }
        (coord.y as usize * self.width as usize + coord.x as usize) * 4
    }

    /// Write the three color bytes of one cell; the alpha byte is untouched.
    pub fn set_color_at(&mut self, coord: &Coord, color: Color)
        requires
            old(self).sized(),
            old(self).coord_in_bounds(*coord),
        ensures
            final(self).sized(),
            final(self).width == old(self).width,
            final(self).height == old(self).height,
            final(self).pixel_count == old(self).pixel_count,
            final(self).pixel_buffer@.len() == old(self).pixel_buffer@.len(),
            forall|j: int|
                0 <= j < final(self).pixel_buffer@.len() && !(4 * old(self).cell_of(*coord) <= j < 4
                    * old(self).cell_of(*coord) + 3) ==> final(self).pixel_buffer@[j] == old(self).pixel_buffer@[j],
            final(self).cell_rgb(old(self).cell_of(*coord)) == rgb_of(color),
            final(self).cell_color(old(self).cell_of(*coord)) == color,
            final(self).cell_valid(old(self).cell_of(*coord)),
            forall|i: int|
                0 <= i < final(self).pixel_count && i != old(self).cell_of(*coord)
                    ==> #[trigger] final(self).cell_color(i) == old(self).cell_color(i),
            forall|i: int|
                0 <= i < final(self).pixel_count && i != old(self).cell_of(*coord)
                    ==> (#[trigger] final(self).cell_valid(i) <==> old(self).cell_valid(i)),
            old(self).alpha_ok() ==> final(self).alpha_ok(),
            final(self).grid() == old(self).grid().update(old(self).cell_of(*coord), color),
    {
        let ghost k = old(self).cell_of(*coord);
        let i = self.get_buffer_index_for(coord);
        let rgb = color.to_rgb();
        self.pixel_buffer.set(i, rgb.0);
        self.pixel_buffer.set(i + 1, rgb.1);
        self.pixel_buffer.set(i + 2, rgb.2);
        proof {
            lemma_rgb_of_decoded(rgb_of(color).0, rgb_of(color).1, rgb_of(color).2, color);
            assert forall|i2: int|
                0 <= i2 < self.pixel_count && i2 != k implies #[trigger] self.cell_rgb(i2) == old(
                self,
            ).cell_rgb(i2) by {
                assert(4 * i2 + 2 < 4 * k || 4 * i2 > 4 * k + 2);
            }
            assert(self.grid() =~= old(self).grid().update(k, color));
        }
    }

    /// Read and classify the color bytes of one cell.
    pub fn get_color_at(&self, coord: &Coord) -> (c: Color)
        requires
            self.sized(),
            self.cells_ok(),
            self.coord_in_bounds(*coord),
        ensures
            c == self.cell_color(self.cell_of(*coord)),
            c == self.color_at(coord.x as int, coord.y as int),
    {
        let i = self.get_buffer_index_for(coord);
        let r = self.pixel_buffer[i];
        let g = self.pixel_buffer[i + 1];
        let b = self.pixel_buffer[i + 2];
        proof {
            lemma_cell_from_xy(
                self.width as int,
                self.height as int,
                coord.x as int,
                coord.y as int,
            );
            assert(self.cell_valid(self.cell_of(*coord)));
        }
        match Color::from_rgb(r, g, b) {
            Some(c) => c,
            None => vstd::pervasive::unreached(),
        }
    }

    /// Paint every cell `Background`.
    pub fn clear(&mut self)
        requires
            old(self).sized(),
            old(self).alpha_ok(),
        ensures
            final(self).wf(),
            final(self).width == old(self).width,
            final(self).height == old(self).height,
            final(self).pixel_count == old(self).pixel_count,
            final(self).pixel_buffer@.len() == old(self).pixel_buffer@.len(),
            forall|i: int|
                0 <= i < final(self).width * final(self).height ==> #[trigger] final(self).cell_color(i) == Color::Background,
            forall|x: int, y: int|
                0 <= x < final(self).width && 0 <= y < final(self).height ==> #[trigger] final(self).color_at(x, y) == Color::Background,
    {
        let mut k: u32 = 0;
        let pixel_count = self.pixel_count;
        let width = self.width;
        while k < pixel_count
            invariant
                k <= pixel_count,
                pixel_count == self.pixel_count,
                width == self.width,
                self.sized(),
                self.alpha_ok(),
                self.width == old(self).width,
                self.height == old(self).height,
                self.pixel_buffer@.len() == old(self).pixel_buffer@.len(),
                forall|i: int| 0 <= i < k ==> #[trigger] self.cell_color(i) == Color::Background,
                forall|i: int| 0 <= i < k ==> #[trigger] self.cell_valid(i),
            decreases pixel_count - k,
        {
            let x = k % width;
            let y = k / width;
            proof {
                lemma_cell_split(self.width as int, self.height as int, k as int);
                lemma_dims_fit(self.width as int, self.height as int);
            }
            let coord = Coord { x: x as i32, y: y as i32 };
            self.set_color_at(&coord, Color::Background);
            k = k + 1;
        }
        proof {
            assert forall|x: int, y: int|
                0 <= x < self.width && 0 <= y < self.height implies #[trigger] self.color_at(x, y)
                == Color::Background by {
                lemma_cell_from_xy(self.width as int, self.height as int, x, y);
            }
        }
    }

    /// Paint every cell on the outer border with `color`, leaving the
    /// interior untouched.
    pub fn set_color_at_edges(&mut self, color: Color)
        requires
            old(self).sized(),
            old(self).alpha_ok(),
        ensures
            final(self).sized(),
            final(self).alpha_ok(),
            final(self).width == old(self).width,
            final(self).height == old(self).height,
            final(self).pixel_count == old(self).pixel_count,
            final(self).pixel_buffer@.len() == old(self).pixel_buffer@.len(),
            old(self).cells_ok() ==> final(self).cells_ok(),
            forall|x: int, y: int|
                0 <= x < final(self).width && 0 <= y < final(self).height
                    ==> #[trigger] final(self).color_at(x, y) == (if x == 0 || y == 0 || x == final(self).width - 1 || y == final(self).height - 1 {
                    color
                } else {
                    old(self).color_at(x, y)
                }),
    {
        let mut k: u32 = 0;
        let pixel_count = self.pixel_count;
        let width = self.width;
        let height = self.height;
        while k < pixel_count
            invariant
                k <= pixel_count,
                pixel_count == self.pixel_count,
                width == self.width,
                height == self.height,
                self.sized(),
                self.alpha_ok(),
                self.width == old(self).width,
                self.height == old(self).height,
                self.pixel_buffer@.len() == old(self).pixel_buffer@.len(),
                old(self).cells_ok() ==> self.cells_ok(),
                forall|i: int|
                    0 <= i < k ==> #[trigger] self.cell_color(i) == (if i % (width as int) == 0 || i
                        / (width as int) == 0 || i % (width as int) == width - 1 || i / (
                    width as int) == height - 1 {
                        color
                    } else {
                        old(self).cell_color(i)
                    }),
                forall|i: int|
                    k <= i < pixel_count ==> #[trigger] self.cell_color(i) == old(self).cell_color(
                        i,
                    ),
            decreases pixel_count - k,
        {
            let x = k % width;
            let y = k / width;
            proof {
                lemma_cell_split(self.width as int, self.height as int, k as int);
            }
            if x == 0 || y == 0 || x == width - 1 || y == height - 1 {
                let coord = Coord { x: x as i32, y: y as i32 };
                self.set_color_at(&coord, color);
            }
            k = k + 1;
        }
        proof {
            assert forall|x: int, y: int|
                0 <= x < self.width && 0 <= y < self.height implies #[trigger] self.color_at(x, y)
                == (if x == 0 || y == 0 || x == self.width - 1 || y == self.height - 1 {
                color
            } else {
                old(self).color_at(x, y)
            }) by {
                lemma_cell_from_xy(self.width as int, self.height as int, x, y);
            }
        }
    }

    /// Scan cells cyclically starting at `skip` and return the first one
    /// colored `Background`, or `None` when no cell is free.
    pub fn first_background_from(&self, skip: u32) -> (r: Option<Coord>)
        requires
            self.sized(),
            self.cells_ok(),
            skip < self.pixel_count,
        ensures
            match r {
                Some(c) => self.coord_in_bounds(c) && self.color_at(c.x as int, c.y as int)
                    == Color::Background && (self.cell_of(c) >= skip ==> forall|j: int|
                    skip <= j < self.cell_of(c) ==> #[trigger] self.cell_color(j)
                        != Color::Background) && (self.cell_of(c) < skip ==> (forall|j: int|
                    skip <= j < self.width * self.height ==> #[trigger] self.cell_color(j)
                        != Color::Background) && (forall|j: int|
                    0 <= j < self.cell_of(c) ==> #[trigger] self.cell_color(j)
                        != Color::Background)),
                None => forall|x: int, y: int|
                    0 <= x < self.width && 0 <= y < self.height ==> #[trigger] self.color_at(x, y)
                        != Color::Background,
            },
    {
        let pixel_count = self.pixel_count;
        let width = self.width;
        let mut k = skip;
        while k < pixel_count
            invariant
                skip <= k <= pixel_count,
                pixel_count == self.pixel_count,
                width == self.width,
                self.sized(),
                self.cells_ok(),
                forall|i: int|
                    skip <= i < k ==> #[trigger] self.cell_color(i) != Color::Background,
            decreases pixel_count - k,
        {
            let x = k % width;
            let y = k / width;
            proof {
                lemma_cell_split(self.width as int, self.height as int, k as int);
            }
            let coord = Coord { x: x as i32, y: y as i32 };
            if self.get_color_at(&coord) == Color::Background {
                return Some(coord);
            }
            k = k + 1;
        }
        let mut k2: u32 = 0;
        while k2 < skip
            invariant
                k2 <= skip,
                skip < pixel_count,
                pixel_count == self.pixel_count,
                width == self.width,
                self.sized(),
                self.cells_ok(),
                forall|i: int|
                    skip <= i < pixel_count ==> #[trigger] self.cell_color(i) != Color::Background,
                forall|i: int| 0 <= i < k2 ==> #[trigger] self.cell_color(i) != Color::Background,
            decreases skip - k2,
        {
            let x = k2 % width;
            let y = k2 / width;
            proof {
                lemma_cell_split(self.width as int, self.height as int, k2 as int);
            }
            let coord = Coord { x: x as i32, y: y as i32 };
            if self.get_color_at(&coord) == Color::Background {
                return Some(coord);
            }
            k2 = k2 + 1;
        }
        proof {
            assert forall|x: int, y: int|
                0 <= x < self.width && 0 <= y < self.height implies #[trigger] self.color_at(x, y)
                != Color::Background by {
                lemma_cell_from_xy(self.width as int, self.height as int, x, y);
            }
        }
        None
    }
}

/// Row-major indexing: for in-bounds `(x, y)` the index `y * w + x` is in
/// range and decomposes back into `x` and `y`.
pub proof fn lemma_cell_from_xy(w: int, h: int, x: int, y: int)
    requires
        0 < w,
        0 < h,
        0 <= x < w,
        0 <= y < h,
    ensures
        0 <= y * w + x < w * h,
        (y * w + x) % w == x,
        (y * w + x) / w == y,
{
    assert(0 <= y * w + x < w * h) by (nonlinear_arith)
        requires
            0 < w,
            0 < h,
            0 <= x < w,
            0 <= y < h,
    ;
    lemma_fundamental_div_mod_converse(y * w + x, w, y, x);
}

/// Row-major indexing, the other way: an in-range index `k` splits into the
/// in-bounds coordinate `(k % w, k / w)`.
pub proof fn lemma_cell_split(w: int, h: int, k: int)
    requires
        0 < w,
        0 < h,
        0 <= k < w * h,
    ensures
        0 <= k % w < w,
        0 <= k / w < h,
        (k / w) * w + k % w == k,
{
    vstd::arithmetic::div_mod::lemma_fundamental_div_mod(k, w);
    vstd::arithmetic::div_mod::lemma_mod_pos_bound(k, w);
    assert(w * (k / w) == (k / w) * w) by (nonlinear_arith);
    assert(k / w < h) by (nonlinear_arith)
        requires
            0 < w,
            0 < h,
            0 <= k < w * h,
            k == w * (k / w) + k % w,
            0 <= k % w < w,
    ;
}

/// The colors determine the bytes: two well-formed screens of the same
/// dimensions whose cells are colored alike hold identical buffers.
pub proof fn lemma_grid_determines_buffer(a: Screen, b: Screen)
    requires
        a.wf(),
        b.wf(),
        a.width == b.width,
        a.height == b.height,
        forall|x: int, y: int|
            0 <= x < a.width && 0 <= y < a.height ==> #[trigger] a.color_at(x, y) == b.color_at(
                x,
                y,
            ),
    ensures
        a.pixel_buffer@ == b.pixel_buffer@,
{
    let w = a.width as int;
    let h = a.height as int;
    lemma_dims_fit(w, h);
    assert(a.pixel_buffer@.len() == (w * h) * 4);
    assert(b.pixel_buffer@.len() == (w * h) * 4);
    assert forall|j: int|
        0 <= j < a.pixel_buffer@.len() implies a.pixel_buffer@[j] == b.pixel_buffer@[j] by {
        lemma_cell_split(4, w * h, j);
        let k = j / 4;
        let m = j % 4;
        lemma_cell_split(w, h, k);
        let x = k % w;
        let y = k / w;
        assert(a.color_at(x, y) == a.cell_color(k));
        assert(b.color_at(x, y) == b.cell_color(k));
        if m == 3 {
            assert(a.pixel_buffer@[j] == 255);
            assert(b.pixel_buffer@[j] == 255);
        } else {
            assert(a.cell_valid(k));
            assert(b.cell_valid(k));
            let c = a.cell_color(k);
            lemma_rgb_of_decoded(a.cell_rgb(k).0, a.cell_rgb(k).1, a.cell_rgb(k).2, c);
            lemma_rgb_of_decoded(b.cell_rgb(k).0, b.cell_rgb(k).1, b.cell_rgb(k).2, c);
            assert(j == 4 * k + m);
            if m == 0 {
                assert(a.pixel_buffer@[j] == a.cell_rgb(k).0);
                assert(b.pixel_buffer@[j] == b.cell_rgb(k).0);
            } else if m == 1 {
                assert(a.pixel_buffer@[j] == a.cell_rgb(k).1);
                assert(b.pixel_buffer@[j] == b.cell_rgb(k).1);
            } else {
                assert(m == 2);
                assert(a.pixel_buffer@[j] == a.cell_rgb(k).2);
                assert(b.pixel_buffer@[j] == b.cell_rgb(k).2);
            }
        }
    }
    assert(a.pixel_buffer@ =~= b.pixel_buffer@);
}

/// Dimensions whose RGBA buffer fits in a `u32` are themselves small enough
/// to fit in an `i32`.
pub proof fn lemma_dims_fit(w: int, h: int)
    requires
        1 <= w,
        1 <= h,
        w * h * 4 <= u32::MAX,
    ensures
        w < 0x4000_0000,
        h < 0x4000_0000,
        w * h < 0x4000_0000,
        w <= w * h,
        h <= w * h,
{
    assert(w * h < 0x4000_0000 && w <= w * h && h <= w * h) by (nonlinear_arith)
        requires
            1 <= w,
            1 <= h,
            w * h * 4 <= u32::MAX,
    ;
}

} // verus!
