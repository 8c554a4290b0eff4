//! RGBA images held as rows of pixels, and the pixel operations the
//! capture, scrolling, OCR and clipboard code share.
use image::ImageEncoder;
use vstd::prelude::*;

verus! {

/// One RGBA pixel.
#[derive(Clone, Copy, Debug, PartialEq, Eq, Structural)]
pub struct Rgba {
    pub r: u8,
    pub g: u8,
    pub b: u8,
    pub a: u8,
}

/// Whether `rows` is a `width` x `height` grid.
pub open spec fn is_grid(rows: Seq<Seq<Rgba>>, width: nat, height: nat) -> bool {
    &&& rows.len() == height
    &&& forall|y: int| 0 <= y < rows.len() ==> (#[trigger] rows[y]).len() == width
}

/// An RGBA image of `width` x `height` pixels, stored row by row.
#[derive(Debug)]
pub struct Raster {
    width: u32,
    height: u32,
    rows: Vec<Vec<Rgba>>,
}

/// The bytes of one row, four per pixel in R, G, B, A order.
pub open spec fn row_bytes(row: Seq<Rgba>) -> Seq<u8>
    decreases row.len(),
{
    if row.len() == 0 {
        Seq::empty()
    } else {
        row_bytes(row.drop_last()) + seq![row.last().r, row.last().g, row.last().b, row.last().a]
    }
}

/// The bytes of an image, row after row, as `RgbaImage::as_raw` lays them out.
pub open spec fn grid_bytes(rows: Seq<Seq<Rgba>>) -> Seq<u8>
    decreases rows.len(),
{
    if rows.len() == 0 {
        Seq::empty()
    } else {
        grid_bytes(rows.drop_last()) + row_bytes(rows.last())
    }
}

pub proof fn lemma_row_bytes_len(row: Seq<Rgba>)
    ensures
        row_bytes(row).len() == 4 * row.len(),
    decreases row.len(),
{
    if row.len() > 0 {
        lemma_row_bytes_len(row.drop_last());
    }
}

pub proof fn lemma_grid_bytes_len(rows: Seq<Seq<Rgba>>, width: nat)
    requires
        forall|y: int| 0 <= y < rows.len() ==> (#[trigger] rows[y]).len() == width,
    ensures
        grid_bytes(rows).len() == 4 * width * rows.len(),
    decreases rows.len(),
{
    if rows.len() > 0 {
        lemma_grid_bytes_len(rows.drop_last(), width);
        lemma_row_bytes_len(rows.last());
        assert(4 * width * rows.len() == 4 * width * (rows.len() - 1) + 4 * width)
            by (nonlinear_arith);
    }
}

/// The grid turned by `quarters` quarter turns clockwise, as the `image`
/// crate's `rotate90`, `rotate180` and `rotate270` turn it.
pub open spec fn rotated_grid(rows: Seq<Seq<Rgba>>, width: nat, height: nat, quarters: nat) -> Seq<
    Seq<Rgba>,
> {
    if quarters % 4 == 1 {
        Seq::new(width, |r: int| Seq::new(height, |c: int| rows[height - 1 - c][r]))
    } else if quarters % 4 == 2 {
        Seq::new(height, |r: int| Seq::new(width, |c: int| rows[height - 1 - r][width - 1 - c]))
    } else if quarters % 4 == 3 {
        Seq::new(width, |r: int| Seq::new(height, |c: int| rows[c][width - 1 - r]))
    } else {
        rows
    }
}

/// The `w` x `h` block of the grid whose top-left pixel is `(x, y)`.
pub open spec fn cropped_grid(rows: Seq<Seq<Rgba>>, x: nat, y: nat, w: nat, h: nat) -> Seq<Seq<Rgba>> {
    Seq::new(h, |r: int| rows[y + r].subrange(x as int, (x + w) as int))
}

/// The pixel rows of a vector of row vectors.
pub open spec fn rows_view(rows: Seq<Vec<Rgba>>) -> Seq<Seq<Rgba>> {
    rows.map_values(|row: Vec<Rgba>| row@)
}

pub proof fn lemma_rows_view_push(rows: Seq<Vec<Rgba>>, row: Vec<Rgba>)
    ensures
        rows_view(rows.push(row)) == rows_view(rows).push(row@),
{
    assert(rows_view(rows.push(row)) =~= rows_view(rows).push(row@));
}

impl Raster {
    #[verifier::type_invariant]
    closed spec fn grid_shape(self) -> bool {
        is_grid(rows_view(self.rows@), self.width as nat, self.height as nat)
    }

    /// The pixels, row by row.
    pub closed spec fn grid(self) -> Seq<Seq<Rgba>> {
        rows_view(self.rows@)
    }

    pub closed spec fn spec_width(self) -> nat {
        self.width as nat
    }

    pub closed spec fn spec_height(self) -> nat {
        self.height as nat
    }

    /// Both sides of an image fit in `u32`.
    pub proof fn lemma_extent_fits(self)
        ensures
            self.spec_width() <= u32::MAX,
            self.spec_height() <= u32::MAX,
    {
    }

    /// The image's bytes in `RgbaImage` layout.
    pub open spec fn bytes(self) -> Seq<u8> {
        grid_bytes(self.grid())
    }

    pub fn width(&self) -> (r: u32)
        ensures
            r == self.spec_width(),
            is_grid(self.grid(), self.spec_width(), self.spec_height()),
    {
        proof {
            use_type_invariant(self);
        }
        self.width
    }

    pub fn height(&self) -> (r: u32)
        ensures
            r == self.spec_height(),
            is_grid(self.grid(), self.spec_width(), self.spec_height()),
    {
        proof {
            use_type_invariant(self);
        }
        self.height
    }

    /// An image of the given size with every pixel set to `pixel`.
    pub fn filled(width: u32, height: u32, pixel: Rgba) -> (r: Raster)
        ensures
            r.spec_width() == width,
            r.spec_height() == height,
            r.grid() == Seq::new(height as nat, |y: int| Seq::new(width as nat, |x: int| pixel)),
    {
        let mut rows: Vec<Vec<Rgba>> = Vec::new();
        let mut y: u32 = 0;
        while y < height
            invariant
                y <= height,
                rows_view(rows@) == Seq::new(
                    y as nat,
                    |j: int| Seq::new(width as nat, |x: int| pixel),
                ),
            decreases height - y,
        {
            let mut row: Vec<Rgba> = Vec::new();
            let mut x: u32 = 0;
            while x < width
                invariant
                    x <= width,
                    row@ == Seq::new(x as nat, |i: int| pixel),
                decreases width - x,
            {
                row.push(pixel);
                x += 1;
                assert(row@ =~= Seq::new(x as nat, |i: int| pixel));
            }
            proof {
                lemma_rows_view_push(rows@, row);
            }
            rows.push(row);
            y += 1;
            assert(rows_view(rows@) =~= Seq::new(
                y as nat,
                |j: int| Seq::new(width as nat, |x: int| pixel),
            ));
        }
        Raster { width, height, rows }
    }

    /// The pixel in column `x` of row `y`.
    pub fn pixel(&self, x: u32, y: u32) -> (r: Rgba)
        requires
            x < self.spec_width(),
            y < self.spec_height(),
        ensures
            r == self.grid()[y as int][x as int],
    {
        proof {
            use_type_invariant(self);
            assert(self.grid()[y as int] == self.rows@[y as int]@);
        }
        self.rows[y as usize][x as usize]
    }

    /// The image whose bytes are `bytes` in `RgbaImage` layout, when there
    /// are exactly four bytes for each of the `width` x `height` pixels.
    pub fn from_rgba_bytes(width: u32, height: u32, bytes: &[u8]) -> (r: Option<Raster>)
        ensures
            match r {
                Some(img) => img.spec_width() == width && img.spec_height() == height
                    && img.bytes() == bytes@,
                None => bytes@.len() != 4 * (width as nat) * (height as nat),
            },
    {
        proof {
            assert((width as nat) * (height as nat) <= 0xffff_ffff * 0xffff_ffff) by (nonlinear_arith)
                requires
                    width <= 0xffff_ffff,
                    height <= 0xffff_ffff,
            ;
        }
        let needed: u128 = 4 * ((width as u128) * (height as u128));
        proof {
            assert(needed == 4 * (width as nat) * (height as nat)) by (nonlinear_arith)
                requires
                    needed == 4 * ((width as nat) * (height as nat)),
            ;
        }
        if bytes.len() as u128 != needed {
            return None;
        }
        proof {
            assert(bytes@.len() == 4 * (width as nat) * (height as nat));
        }
        let mut rows: Vec<Vec<Rgba>> = Vec::new();
        let mut offset: usize = 0;
        let mut y: u32 = 0;
        while y < height
            invariant
                y <= height,
                bytes@.len() == 4 * (width as nat) * (height as nat),
                offset == 4 * (width as nat) * (y as nat),
                is_grid(rows_view(rows@), width as nat, y as nat),
                grid_bytes(rows_view(rows@)) == bytes@.take(offset as int),
            decreases height - y,
        {
            proof {
                assert(4 * (width as nat) * (y as nat) + 4 * (width as nat) <= 4 * (width as nat)
                    * (height as nat)) by (nonlinear_arith)
                    requires
                        y < height,
                ;
            }
            let mut row: Vec<Rgba> = Vec::new();
            let mut x: u32 = 0;
            let row_start = offset;
            while x < width
                invariant
                    x <= width,
                    offset == row_start + 4 * (x as nat),
                    row_start + 4 * (width as nat) <= bytes@.len(),
                    row@.len() == x,
                    row_bytes(row@) == bytes@.subrange(row_start as int, offset as int),
                decreases width - x,
            {
                let px = Rgba {
                    r: bytes[offset],
                    g: bytes[offset + 1],
                    b: bytes[offset + 2],
                    a: bytes[offset + 3],
                };
                let ghost before = row@;
                row.push(px);
                assert(row@.drop_last() =~= before);
                offset += 4;
                x += 1;
                assert(row_bytes(row@) =~= bytes@.subrange(row_start as int, offset as int));
            }
            let ghost prev = rows_view(rows@);
            proof {
                lemma_rows_view_push(rows@, row);
            }
            rows.push(row);
            proof {
                let now = rows_view(rows@);
                assert(now.drop_last() =~= prev);
                assert(bytes@.take(offset as int) =~= bytes@.take(row_start as int) + bytes@.subrange(
                    row_start as int,
                    offset as int,
                ));
                assert(offset == 4 * (width as nat) * ((y + 1) as nat)) by (nonlinear_arith)
                    requires
                        offset == row_start + 4 * (width as nat),
                        row_start == 4 * (width as nat) * (y as nat),
                ;
            }
            y += 1;
        }
        assert(bytes@.take(offset as int) =~= bytes@);
        Some(Raster { width, height, rows })
    }

    /// The image's bytes in `RgbaImage` layout.
    pub fn to_rgba_bytes(&self) -> (r: Vec<u8>)
        ensures
            r@ == self.bytes(),
            r@.len() == 4 * self.spec_width() * self.spec_height(),
    {
        proof {
            use_type_invariant(self);
        }
        let mut out: Vec<u8> = Vec::new();
        let mut y: usize = 0;
        while y < self.rows.len()
            invariant
                y <= self.rows@.len(),
                is_grid(self.grid(), self.spec_width(), self.spec_height()),
                out@ == grid_bytes(self.grid().take(y as int)),
            decreases self.rows@.len() - y,
        {
            let row = &self.rows[y];
            assert(row@ == self.grid()[y as int]);
            let ghost start = out@;
            let mut x: usize = 0;
            while x < row.len()
                invariant
                    x <= row@.len(),
                    out@ == start + row_bytes(row@.take(x as int)),
                decreases row@.len() - x,
            {
                let px = row[x];
                out.push(px.r);
                out.push(px.g);
                out.push(px.b);
                out.push(px.a);
                x += 1;
                assert(row@.take(x as int).drop_last() =~= row@.take(x - 1));
                assert(out@ =~= start + row_bytes(row@.take(x as int)));
            }
            assert(row@.take(row@.len() as int) =~= row@);
            y += 1;
            assert(self.grid().take(y as int).drop_last() =~= self.grid().take(y - 1));
        }
        assert(self.grid().take(self.rows@.len() as int) =~= self.grid());
        proof {
            lemma_grid_bytes_len(self.grid(), self.spec_width());
        }
        out
    }

    /// A copy of the image.
    pub fn copy(&self) -> (r: Raster)
        ensures
            r.spec_width() == self.spec_width(),
            r.spec_height() == self.spec_height(),
            r.grid() == self.grid(),
    {
        proof {
            use_type_invariant(self);
        }
        let copy = self.crop(0, 0, self.width, self.height);
        proof {
            let g = self.grid();
            let c = cropped_grid(g, 0, 0, self.spec_width(), self.spec_height());
            assert forall|y: int| 0 <= y < g.len() implies #[trigger] c[y] == g[y] by {
                assert(c[y] =~= g[y]);
            }
            assert(c =~= g);
        }
        copy
    }

    /// The `w` x `h` block whose top-left pixel is `(x, y)`.
    pub fn crop(&self, x: u32, y: u32, w: u32, h: u32) -> (r: Raster)
        requires
            x + w <= self.spec_width(),
            y + h <= self.spec_height(),
        ensures
            r.spec_width() == w,
            r.spec_height() == h,
            r.grid() == cropped_grid(self.grid(), x as nat, y as nat, w as nat, h as nat),
    {
        proof {
            use_type_invariant(self);
        }
        let ghost g = self.grid();
        let mut rows: Vec<Vec<Rgba>> = Vec::new();
        let mut r: u32 = 0;
        while r < h
            invariant
                r <= h,
                x + w <= self.spec_width(),
                y + h <= self.spec_height(),
                g == self.grid(),
                is_grid(g, self.spec_width(), self.spec_height()),
                rows_view(rows@) == cropped_grid(
                    g,
                    x as nat,
                    y as nat,
                    w as nat,
                    r as nat,
                ),
            decreases h - r,
        {
            let source = &self.rows[(y + r) as usize];
            assert(source@ == g[(y + r) as int]);
            let mut row: Vec<Rgba> = Vec::new();
            let mut c: u32 = 0;
            while c < w
                invariant
                    c <= w,
                    x + w <= source@.len(),
                    x + w <= self.spec_width(),
                    row@ == source@.subrange(x as int, x + c),
                decreases w - c,
            {
                row.push(source[(x + c) as usize]);
                c += 1;
                assert(row@ =~= source@.subrange(x as int, x + c));
            }
            proof {
                lemma_rows_view_push(rows@, row);
            }
            rows.push(row);
            r += 1;
            assert(rows_view(rows@) =~= cropped_grid(
                g,
                x as nat,
                y as nat,
                w as nat,
                r as nat,
            ));
        }
        Raster { width: w, height: h, rows }
    }
}

impl Raster {
    /// A copy of row `y`.
    fn row_vec(&self, y: u32) -> (r: Vec<Rgba>)
        requires
            y < self.spec_height(),
        ensures
            r@ == self.grid()[y as int],
            r@.len() == self.spec_width(),
    {
        proof {
            use_type_invariant(self);
        }
        let source = &self.rows[y as usize];
        assert(source@ == self.grid()[y as int]);
        let mut row: Vec<Rgba> = Vec::new();
        let mut c: usize = 0;
        while c < source.len()
            invariant
                c <= source@.len(),
                row@ == source@.take(c as int),
            decreases source.len() - c,
        {
            row.push(source[c]);
            c += 1;
            assert(row@ =~= source@.take(c as int));
        }
        assert(row@ =~= source@);
        row
    }

    /// The image whose rows are `rows`, each `width` pixels long.
    pub fn from_rows(width: u32, height: u32, rows: Vec<Vec<Rgba>>) -> (r: Raster)
        requires
            rows@.len() == height,
            forall|k: int| 0 <= k < rows@.len() ==> (#[trigger] rows@[k])@.len() == width,
        ensures
            r.spec_width() == width,
            r.spec_height() == height,
            r.grid() == rows_view(rows@),
    {
        proof {
            assert forall|k: int| 0 <= k < rows_view(rows@).len() implies (#[trigger] rows_view(rows@)[k]).len() == width by {
                assert(rows_view(rows@)[k] == rows@[k]@);
            }
        }
        Raster { width, height, rows }
    }

    /// The first `top_rows` rows of `top` followed by the rows of `bottom`
    /// from row `bottom_from` on.
    pub fn stacked(top: &Raster, top_rows: u32, bottom: &Raster, bottom_from: u32) -> (r: Raster)
        requires
            top.spec_width() == bottom.spec_width(),
            top_rows <= top.spec_height(),
            bottom_from <= bottom.spec_height(),
            top_rows + (bottom.spec_height() - bottom_from) <= u32::MAX,
        ensures
            r.spec_width() == top.spec_width(),
            r.spec_height() == top_rows + (bottom.spec_height() - bottom_from),
            r.grid() == top.grid().take(top_rows as int) + bottom.grid().skip(bottom_from as int),
    {
        let width = top.width();
        let _ = top.height();
        let bottom_height = bottom.height();
        let ghost target = top.grid().take(top_rows as int) + bottom.grid().skip(bottom_from as int);
        let mut rows: Vec<Vec<Rgba>> = Vec::new();
        let mut y: u32 = 0;
        while y < top_rows
            invariant
                y <= top_rows,
                top_rows <= top.spec_height(),
                width == top.spec_width(),
                is_grid(top.grid(), top.spec_width(), top.spec_height()),
                rows_view(rows@) == top.grid().take(y as int),
                forall|k: int| 0 <= k < rows@.len() ==> (#[trigger] rows_view(rows@)[k]).len() == width,
            decreases top_rows - y,
        {
            let row = top.row_vec(y);
            proof {
                lemma_rows_view_push(rows@, row);
            }
            rows.push(row);
            y += 1;
            assert(rows_view(rows@) =~= top.grid().take(y as int));
        }
        let mut z: u32 = bottom_from;
        while z < bottom_height
            invariant
                bottom_from <= z <= bottom_height,
                bottom_height == bottom.spec_height(),
                width == bottom.spec_width(),
                top_rows <= top.spec_height(),
                is_grid(top.grid(), top.spec_width(), top.spec_height()),
                is_grid(bottom.grid(), bottom.spec_width(), bottom.spec_height()),
                rows_view(rows@) == top.grid().take(top_rows as int) + bottom.grid().subrange(bottom_from as int, z as int),
                forall|k: int| 0 <= k < rows@.len() ==> (#[trigger] rows_view(rows@)[k]).len() == width,
            decreases bottom_height - z,
        {
            let row = bottom.row_vec(z);
            proof {
                lemma_rows_view_push(rows@, row);
            }
            rows.push(row);
            z += 1;
            assert(rows_view(rows@) =~= top.grid().take(top_rows as int) + bottom.grid().subrange(bottom_from as int, z as int));
        }
        assert(bottom.grid().subrange(bottom_from as int, bottom_height as int) =~= bottom.grid().skip(bottom_from as int));
        Raster { width, height: top_rows + (bottom_height - bottom_from), rows }
    }

    /// This image with the start of its rows `at..at + count` overwritten
    /// by rows `from..from + count` of `source`, which is no wider.
    pub fn with_rows_replaced(&self, at: u32, source: &Raster, from: u32, count: u32) -> (r: Raster)
        requires
            source.spec_width() <= self.spec_width(),
            at + count <= self.spec_height(),
            from + count <= source.spec_height(),
        ensures
            r.spec_width() == self.spec_width(),
            r.spec_height() == self.spec_height(),
            r.grid() == Seq::new(
                self.spec_height(),
                |y: int|
                    if at <= y < at + count {
                        source.grid()[from + y - at] + self.grid()[y].skip(source.spec_width() as int)
                    } else {
                        self.grid()[y]
                    },
            ),
    {
        let width = self.width();
        let height = self.height();
        let source_width = source.width();
        let ghost target = Seq::new(
            self.spec_height(),
            |y: int|
                if at <= y < at + count {
                    source.grid()[from + y - at] + self.grid()[y].skip(source.spec_width() as int)
                } else {
                    self.grid()[y]
                },
        );
        let mut rows: Vec<Vec<Rgba>> = Vec::new();
        let mut y: u32 = 0;
        while y < height
            invariant
                y <= height,
                height == self.spec_height(),
                width == self.spec_width(),
                source_width == source.spec_width(),
                source_width <= width,
                at + count <= self.spec_height(),
                from + count <= source.spec_height(),
                is_grid(source.grid(), source.spec_width(), source.spec_height()),
                is_grid(self.grid(), self.spec_width(), self.spec_height()),
                target == Seq::new(
                    self.spec_height(),
                    |y: int|
                        if at <= y < at + count {
                            source.grid()[from + y - at] + self.grid()[y].skip(source.spec_width() as int)
                        } else {
                            self.grid()[y]
                        },
                ),
                rows_view(rows@) == target.take(y as int),
                forall|k: int| 0 <= k < rows@.len() ==> (#[trigger] rows_view(rows@)[k]).len() == width,
            decreases height - y,
        {
            let row = if at <= y && y < at + count {
                let mut row = source.row_vec(from + (y - at));
                let old_row = self.row_vec(y);
                let mut x: usize = source_width as usize;
                while x < old_row.len()
                    invariant
                        source_width <= x <= old_row@.len(),
                        row@ == source.grid()[from + y - at] + old_row@.subrange(source_width as int, x as int),
                    decreases old_row.len() - x,
                {
                    row.push(old_row[x]);
                    x += 1;
                    assert(row@ =~= source.grid()[from + y - at] + old_row@.subrange(source_width as int, x as int));
                }
                assert(old_row@.subrange(source_width as int, old_row@.len() as int) =~= old_row@.skip(source_width as int));
                row
            } else {
                self.row_vec(y)
            };
            proof {
                lemma_rows_view_push(rows@, row);
            }
            rows.push(row);
            y += 1;
            assert(rows_view(rows@) =~= target.take(y as int));
        }
        assert(target.take(height as int) =~= target);
        Raster { width, height, rows }
    }
}

/// The width and height of a grid after `quarters` quarter turns.
pub open spec fn rotated_extent(width: nat, height: nat, quarters: nat) -> (nat, nat) {
    if quarters % 2 == 1 {
        (height, width)
    } else {
        (width, height)
    }
}

/// Turning an image left as many quarters as it was turned right gives it
/// back unchanged: rotating the selection left and right again loses
/// nothing.
pub proof fn lemma_turn_back(rows: Seq<Seq<Rgba>>, width: nat, height: nat, quarters: nat)
    requires
        is_grid(rows, width, height),
        quarters < 4,
    ensures
        ({
            let (w, h) = rotated_extent(width, height, quarters);
            rotated_grid(rotated_grid(rows, width, height, quarters), w, h, ((4 - quarters) % 4) as nat) == rows
        }),
{
    let (w, h) = rotated_extent(width, height, quarters);
    let once = rotated_grid(rows, width, height, quarters);
    let back = rotated_grid(once, w, h, ((4 - quarters) % 4) as nat);
    assert forall|r: int| 0 <= r < rows.len() implies #[trigger] back[r] =~= rows[r] by {
        assert(rows[r].len() == width);
        if quarters == 1 {
            assert forall|c: int| 0 <= c < width implies back[r][c] == rows[r][c] by {
                assert(back[r][c] == once[c][height - 1 - r]);
            }
        } else if quarters == 3 {
            assert forall|c: int| 0 <= c < width implies back[r][c] == rows[r][c] by {
                assert(back[r][c] == once[width - 1 - c][r]);
            }
        }
    }
    assert(back =~= rows);
}

impl Raster {
    /// The pixel that lands at column `c` of row `r` after `quarters`
    /// quarter turns.
    fn rotated_source(&self, quarters: u8, r: u32, c: u32) -> (p: Rgba)
        requires
            1 <= quarters <= 3,
            r < rotated_extent(self.spec_width(), self.spec_height(), quarters as nat).1,
            c < rotated_extent(self.spec_width(), self.spec_height(), quarters as nat).0,
        ensures
            p == rotated_grid(self.grid(), self.spec_width(), self.spec_height(), quarters as nat)[r as int][c as int],
    {
        proof {
            use_type_invariant(self);
        }
        let w = self.width;
        let h = self.height;
        if quarters == 1 {
            self.pixel(r, h - 1 - c)
        } else if quarters == 2 {
            self.pixel(w - 1 - c, h - 1 - r)
        } else {
            self.pixel(w - 1 - r, c)
        }
    }

    /// The image turned by `quarters` quarter turns clockwise.
    pub fn rotated(&self, quarters: u8) -> (r: Raster)
        requires
            quarters < 4,
        ensures
            (r.spec_width(), r.spec_height()) == rotated_extent(
                self.spec_width(),
                self.spec_height(),
                quarters as nat,
            ),
            r.grid() == rotated_grid(self.grid(), self.spec_width(), self.spec_height(), quarters as nat),
    {
        proof {
            use_type_invariant(self);
        }
        if quarters == 0 {
            return self.copy();
        }
        let ghost target = rotated_grid(self.grid(), self.spec_width(), self.spec_height(), quarters as nat);
        let (out_width, out_height) = if quarters % 2 == 1 {
            (self.height, self.width)
        } else {
            (self.width, self.height)
        };
        let mut rows: Vec<Vec<Rgba>> = Vec::new();
        let mut r: u32 = 0;
        while r < out_height
            invariant
                1 <= quarters <= 3,
                r <= out_height,
                (out_width as nat, out_height as nat) == rotated_extent(
                    self.spec_width(),
                    self.spec_height(),
                    quarters as nat,
                ),
                target == rotated_grid(self.grid(), self.spec_width(), self.spec_height(), quarters as nat),
                is_grid(target, out_width as nat, out_height as nat),
                rows_view(rows@) == target.take(r as int),
            decreases out_height - r,
        {
            let mut row: Vec<Rgba> = Vec::new();
            let mut c: u32 = 0;
            while c < out_width
                invariant
                    1 <= quarters <= 3,
                    c <= out_width,
                    r < out_height,
                    (out_width as nat, out_height as nat) == rotated_extent(
                        self.spec_width(),
                        self.spec_height(),
                        quarters as nat,
                    ),
                    target == rotated_grid(self.grid(), self.spec_width(), self.spec_height(), quarters as nat),
                    row@ == target[r as int].take(c as int),
                decreases out_width - c,
            {
                row.push(self.rotated_source(quarters, r, c));
                c += 1;
                assert(row@ =~= target[r as int].take(c as int));
            }
            assert(target[r as int].take(out_width as int) =~= target[r as int]);
            proof {
                lemma_rows_view_push(rows@, row);
            }
            rows.push(row);
            r += 1;
            assert(rows_view(rows@) =~= target.take(r as int));
        }
        assert(target.take(out_height as int) =~= target);
        Raster { width: out_width, height: out_height, rows }
    }
}

/// `bytes` with the first and third byte of every complete group of four
/// exchanged and the fourth set to 255; a trailing incomplete group is
/// kept as it is.
pub open spec fn swapped_red_blue_opaque(bytes: Seq<u8>) -> Seq<u8> {
    let complete = bytes.len() - bytes.len() % 4;
    Seq::new(
        bytes.len(),
        |i: int|
            if i < complete {
                if i % 4 == 0 {
                    bytes[i + 2]
                } else if i % 4 == 2 {
                    bytes[i - 2]
                } else if i % 4 == 3 {
                    255u8
                } else {
                    bytes[i]
                }
            } else {
                bytes[i]
            },
    )
}

/// Exchanges the first and third byte of every complete group of four and
/// makes the fourth opaque.
pub fn swap_red_blue_opaque(bytes: &mut Vec<u8>)
    ensures
        final(bytes)@ == swapped_red_blue_opaque(old(bytes)@),
{
    let ghost before = bytes@;
    let n = bytes.len();
    let complete = n - n % 4;
    let mut i: usize = 0;
    while i < complete
        invariant
            n == before.len() == bytes@.len(),
            complete == n - n % 4,
            i % 4 == 0,
            i <= complete,
            forall|k: int| 0 <= k < i ==> #[trigger] bytes@[k] == swapped_red_blue_opaque(before)[k],
            forall|k: int| i <= k < n ==> #[trigger] bytes@[k] == before[k],
        decreases complete - i,
    {
        let first = bytes[i];
        let third = bytes[i + 2];
        bytes.set(i, third);
        bytes.set(i + 2, first);
        bytes.set(i + 3, 255);
        i += 4;
    }
    assert(bytes@ =~= swapped_red_blue_opaque(before));
}

/// A pixel as it looks over a white background, made opaque:
/// each color channel becomes `(c * a + 255 * (255 - a) + 127) / 255`.
pub open spec fn flattened_channel(c: u8, a: u8) -> u8 {
    ((c as int * a as int + 255 * (255 - a as int) + 127) / 255) as u8
}

pub open spec fn flattened_pixel(p: Rgba) -> Rgba {
    Rgba { r: flattened_channel(p.r, p.a), g: flattened_channel(p.g, p.a), b: flattened_channel(p.b, p.a), a: 255 }
}

/// Flattening lays a pixel over white: each color channel is `c * a / 255
/// + 255 * (255 - a) / 255` rounded to the nearest integer, so an opaque
/// pixel keeps its color, a fully transparent one turns white, and the
/// result is opaque.
pub proof fn lemma_flattened_pixel_over_white(p: Rgba)
    ensures
        flattened_pixel(p).a == 255,
        255 * flattened_pixel(p).r - 127 <= p.r * p.a + 255 * (255 - p.a),
        p.r * p.a + 255 * (255 - p.a) < 255 * flattened_pixel(p).r + 128,
        255 * flattened_pixel(p).g - 127 <= p.g * p.a + 255 * (255 - p.a),
        p.g * p.a + 255 * (255 - p.a) < 255 * flattened_pixel(p).g + 128,
        255 * flattened_pixel(p).b - 127 <= p.b * p.a + 255 * (255 - p.a),
        p.b * p.a + 255 * (255 - p.a) < 255 * flattened_pixel(p).b + 128,
        p.a == 255 ==> flattened_pixel(p).r == p.r && flattened_pixel(p).g == p.g && flattened_pixel(p).b == p.b,
        p.a == 0 ==> flattened_pixel(p).r == 255 && flattened_pixel(p).g == 255 && flattened_pixel(p).b == 255,
{
    lemma_flattened_channel_rounds(p.r, p.a);
    lemma_flattened_channel_rounds(p.g, p.a);
    lemma_flattened_channel_rounds(p.b, p.a);
}

proof fn lemma_flattened_channel_rounds(c: u8, a: u8)
    ensures
        255 * flattened_channel(c, a) - 127 <= c * a + 255 * (255 - a),
        c * a + 255 * (255 - a) < 255 * flattened_channel(c, a) + 128,
        a == 255 ==> flattened_channel(c, a) == c,
        a == 0 ==> flattened_channel(c, a) == 255,
{
    let x = c as int * a as int + 255 * (255 - a as int) + 127;
    assert(0 <= x / 255 <= 255) by (nonlinear_arith)
        requires
            x == c as int * a as int + 255 * (255 - a as int) + 127,
            0 <= c <= 255,
            0 <= a <= 255,
    ;
    assert(255 * (x / 255) <= x < 255 * (x / 255) + 255) by (nonlinear_arith)
        requires
            x >= 0,
    ;
    if a == 255 {
        assert(x / 255 == c) by (nonlinear_arith)
            requires
                x == c as int * 255 + 127,
                0 <= c <= 255,
        ;
    }
    if a == 0 {
        assert(x / 255 == 255) by (nonlinear_arith)
            requires
                x == 255 * 255 + 127,
        ;
    }
}

fn flatten_channel(c: u8, a: u8) -> (r: u8)
    ensures
        r == flattened_channel(c, a),
{
    let c32 = c as u32;
    let a32 = a as u32;
    assert(c32 * a32 <= 255 * 255) by (nonlinear_arith)
        requires
            c32 <= 255,
            a32 <= 255,
    ;
    assert((c32 * a32 + 255 * (255 - a32) + 127) / 255 <= 255) by (nonlinear_arith)
        requires
            c32 <= 255,
            a32 <= 255,
    ;
    ((c32 * a32 + 255 * (255 - a32) + 127) / 255) as u8
}

impl Raster {
    /// The image over a white background, every pixel opaque.
    pub fn flatten_transparency(&self) -> (r: Raster)
        ensures
            r.spec_width() == self.spec_width(),
            r.spec_height() == self.spec_height(),
            r.grid() == self.grid().map_values(|row: Seq<Rgba>| row.map_values(|p: Rgba| flattened_pixel(p))),
    {
        proof {
            use_type_invariant(self);
        }
        let ghost target = self.grid().map_values(|row: Seq<Rgba>| row.map_values(|p: Rgba| flattened_pixel(p)));
        let mut rows: Vec<Vec<Rgba>> = Vec::new();
        let mut y: usize = 0;
        while y < self.rows.len()
            invariant
                y <= self.rows@.len(),
                is_grid(self.grid(), self.spec_width(), self.spec_height()),
                target == self.grid().map_values(|row: Seq<Rgba>| row.map_values(|p: Rgba| flattened_pixel(p))),
                rows_view(rows@) == target.take(y as int),
            decreases self.rows@.len() - y,
        {
            let source = &self.rows[y];
            assert(source@ == self.grid()[y as int]);
            let mut row: Vec<Rgba> = Vec::new();
            let mut x: usize = 0;
            while x < source.len()
                invariant
                    x <= source@.len(),
                    row@ == source@.take(x as int).map_values(|p: Rgba| flattened_pixel(p)),
                decreases source@.len() - x,
            {
                let p = source[x];
                row.push(Rgba { r: flatten_channel(p.r, p.a), g: flatten_channel(p.g, p.a), b: flatten_channel(p.b, p.a), a: 255 });
                x += 1;
                assert(row@ =~= source@.take(x as int).map_values(|p: Rgba| flattened_pixel(p)));
            }
            assert(source@.take(source@.len() as int) =~= source@);
            proof {
                lemma_rows_view_push(rows@, row);
            }
            rows.push(row);
            y += 1;
            assert(rows_view(rows@) =~= target.take(y as int));
        }
        assert(target.take(self.rows@.len() as int) =~= target);
        Raster { width: self.width, height: self.height, rows }
    }
}

/// Color channel `k` (red, green, blue for 0, 1, 2) of a pixel.
pub open spec fn channel(p: Rgba, k: int) -> int {
    if k == 0 {
        p.r as int
    } else if k == 1 {
        p.g as int
    } else {
        p.b as int
    }
}

/// The sum of channel `k` over the top and bottom rows, columns `0..n`.
pub open spec fn edge_row_sum(g: Seq<Seq<Rgba>>, height: nat, n: nat, k: int) -> int
    decreases n,
{
    if n == 0 {
        0
    } else {
        edge_row_sum(g, height, (n - 1) as nat, k) + channel(g[0][n - 1], k) + if height > 1 {
            channel(g[height - 1][n - 1], k)
        } else {
            0
        }
    }
}

/// The sum of channel `k` over the leftmost and rightmost pixels of rows
/// `1..n`.
pub open spec fn edge_side_sum(g: Seq<Seq<Rgba>>, width: nat, n: nat, k: int) -> int
    decreases n,
{
    if n <= 1 {
        0
    } else {
        edge_side_sum(g, width, (n - 1) as nat, k) + channel(g[n - 1][0], k) + if width > 1 {
            channel(g[n - 1][width - 1], k)
        } else {
            0
        }
    }
}

/// How many border samples an image of this size has.
pub open spec fn edge_count(width: nat, height: nat) -> nat {
    let per_column: nat = if height > 1 { 2 } else { 1 };
    let per_row: nat = if width > 1 { 2 } else { 1 };
    let side_rows: nat = if height >= 2 { (height - 2) as nat } else { 0 };
    width * per_column + side_rows * per_row
}

/// The average color of the border pixels, opaque; black when there are
/// none.
pub open spec fn edge_average(g: Seq<Seq<Rgba>>, width: nat, height: nat) -> Rgba {
    let count: nat = if edge_count(width, height) == 0 { 1 } else { edge_count(width, height) };
    let side_end: nat = if height >= 1 { (height - 1) as nat } else { 0 };
    Rgba {
        r: ((edge_row_sum(g, height, width, 0) + edge_side_sum(g, width, side_end, 0)) / count as int) as u8,
        g: ((edge_row_sum(g, height, width, 1) + edge_side_sum(g, width, side_end, 1)) / count as int) as u8,
        b: ((edge_row_sum(g, height, width, 2) + edge_side_sum(g, width, side_end, 2)) / count as int) as u8,
        a: 255,
    }
}

/// Whether position `(x, y)` lies on the border of a `width` x `height`
/// image: in its first or last column, or its first or last row.
pub open spec fn on_border(x: int, y: int, width: int, height: int) -> bool {
    x == 0 || x == width - 1 || y == 0 || y == height - 1
}

/// Channel `k` of a pixel for `k` below 3; for `k == 3`, one, so that a sum
/// of it counts pixels.
pub open spec fn border_value(p: Rgba, k: int) -> int {
    if k == 3 {
        1
    } else {
        channel(p, k)
    }
}

/// The sum of `border_value(_, k)` over the border pixels among the first
/// `n` of row `y`.
pub open spec fn border_row_sum(row: Seq<Rgba>, y: int, width: int, height: int, k: int, n: int) -> int
    decreases n,
{
    if n <= 0 {
        0
    } else {
        border_row_sum(row, y, width, height, k, n - 1) + if on_border(n - 1, y, width, height) {
            border_value(row[n - 1], k)
        } else {
            0
        }
    }
}

/// The sum of `border_value(_, k)` over the border pixels of the first `m`
/// rows.
pub open spec fn border_sum(g: Seq<Seq<Rgba>>, width: int, height: int, k: int, m: int) -> int
    decreases m,
{
    if m <= 0 {
        0
    } else {
        border_sum(g, width, height, k, m - 1) + border_row_sum(g[m - 1], m - 1, width, height, k, width)
    }
}

spec fn row_value_sum(row: Seq<Rgba>, k: int, n: int) -> int
    decreases n,
{
    if n <= 0 {
        0
    } else {
        row_value_sum(row, k, n - 1) + border_value(row[n - 1], k)
    }
}

spec fn middle_sum(g: Seq<Seq<Rgba>>, width: int, k: int, m: int) -> int
    decreases m,
{
    if m <= 1 {
        0
    } else {
        middle_sum(g, width, k, m - 1) + border_value(g[m - 1][0], k) + if width > 1 {
            border_value(g[m - 1][width - 1], k)
        } else {
            0
        }
    }
}

proof fn lemma_border_row_full(row: Seq<Rgba>, y: int, width: int, height: int, k: int, n: int)
    requires
        y == 0 || y == height - 1,
    ensures
        border_row_sum(row, y, width, height, k, n) == row_value_sum(row, k, n),
    decreases n,
{
    if n > 0 {
        lemma_border_row_full(row, y, width, height, k, n - 1);
    }
}

proof fn lemma_border_row_middle(row: Seq<Rgba>, y: int, width: int, height: int, k: int, n: int)
    requires
        0 < y < height - 1,
        0 <= n <= width,
    ensures
        border_row_sum(row, y, width, height, k, n) == (if n >= 1 { border_value(row[0], k) } else { 0 }) + (if n
            == width && width > 1 {
            border_value(row[width - 1], k)
        } else {
            0
        }),
    decreases n,
{
    if n > 0 {
        lemma_border_row_middle(row, y, width, height, k, n - 1);
    }
}

proof fn lemma_border_rows_above_bottom(g: Seq<Seq<Rgba>>, width: int, height: int, k: int, m: int)
    requires
        width >= 1,
        1 <= m <= height - 1,
    ensures
        border_sum(g, width, height, k, m) == row_value_sum(g[0], k, width) + middle_sum(g, width, k, m),
    decreases m,
{
    if m == 1 {
        lemma_border_row_full(g[0], 0, width, height, k, width);
        assert(border_sum(g, width, height, k, 0) == 0);
    } else {
        lemma_border_rows_above_bottom(g, width, height, k, m - 1);
        lemma_border_row_middle(g[m - 1], m - 1, width, height, k, width);
    }
}

proof fn lemma_edge_row_sum_rows(g: Seq<Seq<Rgba>>, height: nat, n: nat, k: int)
    requires
        0 <= k < 3,
    ensures
        edge_row_sum(g, height, n, k) == row_value_sum(g[0], k, n as int) + if height > 1 {
            row_value_sum(g[height - 1], k, n as int)
        } else {
            0
        },
    decreases n,
{
    if n > 0 {
        lemma_edge_row_sum_rows(g, height, (n - 1) as nat, k);
    }
}

proof fn lemma_edge_side_sum_rows(g: Seq<Seq<Rgba>>, width: nat, n: nat, k: int)
    requires
        0 <= k < 3,
    ensures
        edge_side_sum(g, width, n, k) == middle_sum(g, width as int, k, n as int),
    decreases n,
{
    if n > 1 {
        lemma_edge_side_sum_rows(g, width, (n - 1) as nat, k);
    }
}

proof fn lemma_row_count(row: Seq<Rgba>, n: int)
    requires
        n >= 0,
    ensures
        row_value_sum(row, 3, n) == n,
    decreases n,
{
    if n > 0 {
        lemma_row_count(row, n - 1);
    }
}

proof fn lemma_middle_count(g: Seq<Seq<Rgba>>, width: int, m: int)
    requires
        m >= 1,
    ensures
        middle_sum(g, width, 3, m) == (m - 1) * (if width > 1 { 2int } else { 1int }),
    decreases m,
{
    if m > 1 {
        lemma_middle_count(g, width, m - 1);
        assert((m - 2) * (if width > 1 { 2int } else { 1int }) + (if width > 1 { 2int } else { 1int }) == (m - 1) * (
        if width > 1 { 2int } else { 1int }));
    }
}

proof fn lemma_border_row_bound(row: Seq<Rgba>, y: int, width: int, height: int, k: int, n: int)
    requires
        0 <= k < 3,
    ensures
        0 <= border_row_sum(row, y, width, height, k, n) <= 255 * border_row_sum(row, y, width, height, 3, n),
    decreases n,
{
    if n > 0 {
        lemma_border_row_bound(row, y, width, height, k, n - 1);
    }
}

proof fn lemma_border_sum_bound(g: Seq<Seq<Rgba>>, width: int, height: int, k: int, m: int)
    requires
        0 <= k < 3,
    ensures
        0 <= border_sum(g, width, height, k, m) <= 255 * border_sum(g, width, height, 3, m),
    decreases m,
{
    if m > 0 {
        lemma_border_sum_bound(g, width, height, k, m - 1);
        lemma_border_row_bound(g[m - 1], m - 1, width, height, k, width);
    }
}

proof fn lemma_border_sum_is_edge_sum(g: Seq<Seq<Rgba>>, width: nat, height: nat, k: int)
    requires
        width >= 1,
        height >= 1,
        0 <= k < 3,
    ensures
        border_sum(g, width as int, height as int, k, height as int) == edge_row_sum(g, height, width, k)
            + edge_side_sum(g, width, (height - 1) as nat, k),
        border_sum(g, width as int, height as int, 3, height as int) == edge_count(width, height),
{
    let w = width as int;
    let h = height as int;
    lemma_edge_row_sum_rows(g, height, width, k);
    lemma_edge_side_sum_rows(g, width, (height - 1) as nat, k);
    lemma_row_count(g[0], w);
    lemma_row_count(g[h - 1], w);
    assert(border_sum(g, w, h, k, 0) == 0);
    assert(border_sum(g, w, h, 3, 0) == 0);
    if h == 1 {
        lemma_border_row_full(g[0], 0, w, h, k, w);
        lemma_border_row_full(g[0], 0, w, h, 3, w);
        assert(edge_side_sum(g, width, 0, k) == 0);
        assert(edge_count(width, height) == width) by (nonlinear_arith)
            requires
                height == 1,
        ;
    } else {
        lemma_border_rows_above_bottom(g, w, h, k, h - 1);
        lemma_border_rows_above_bottom(g, w, h, 3, h - 1);
        lemma_border_row_full(g[h - 1], h - 1, w, h, k, w);
        lemma_border_row_full(g[h - 1], h - 1, w, h, 3, w);
        lemma_middle_count(g, w, h - 1);
        if w > 1 {
            assert((h - 2) * 2int == 2 * h - 4);
            assert(edge_count(width, height) == 2 * w + 2 * h - 4) by (nonlinear_arith)
                requires
                    height >= 2,
                    width > 1,
                    w == width,
                    h == height,
            ;
        } else {
            assert((h - 2) * 1int == h - 2);
            assert(edge_count(width, height) == 2 * w + h - 2) by (nonlinear_arith)
                requires
                    height >= 2,
                    width == 1,
                    w == width,
                    h == height,
            ;
        }
    }
}

/// The edge color is the mean of the image's border pixels: each of red,
/// green and blue is that channel summed over every pixel in the first or
/// last row or the first or last column, divided by how many such pixels
/// there are, rounded down; alpha is opaque.
pub proof fn lemma_edge_color_is_border_mean(g: Seq<Seq<Rgba>>, width: nat, height: nat)
    requires
        width >= 1,
        height >= 1,
    ensures
        border_sum(g, width as int, height as int, 3, height as int) >= 1,
        edge_average(g, width, height).r == border_sum(g, width as int, height as int, 0, height as int)
            / border_sum(g, width as int, height as int, 3, height as int),
        edge_average(g, width, height).g == border_sum(g, width as int, height as int, 1, height as int)
            / border_sum(g, width as int, height as int, 3, height as int),
        edge_average(g, width, height).b == border_sum(g, width as int, height as int, 2, height as int)
            / border_sum(g, width as int, height as int, 3, height as int),
        edge_average(g, width, height).a == 255,
{
    let w = width as int;
    let h = height as int;
    lemma_border_sum_is_edge_sum(g, width, height, 0);
    lemma_border_sum_is_edge_sum(g, width, height, 1);
    lemma_border_sum_is_edge_sum(g, width, height, 2);
    let count = border_sum(g, w, h, 3, h);
    assert(count >= 1) by {
        if h == 1 {
            assert(count == w);
        } else {
            assert(count >= 2 * w);
        }
    }
    assert forall|k: int| 0 <= k < 3 implies #[trigger] border_sum(g, w, h, k, h) / count <= 255 by {
        lemma_border_sum_bound(g, w, h, k, h);
        assert(border_sum(g, w, h, k, h) / count <= 255) by (nonlinear_arith)
            requires
                0 <= border_sum(g, w, h, k, h) <= 255 * count,
                count >= 1,
        ;
    }
    assert(border_sum(g, w, h, 0, h) / count <= 255);
    assert(border_sum(g, w, h, 1, h) / count <= 255);
    assert(border_sum(g, w, h, 2, h) / count <= 255);
    assert(border_sum(g, w, h, 0, h) >= 0) by {
        lemma_border_sum_bound(g, w, h, 0, h);
    }
    assert(border_sum(g, w, h, 1, h) >= 0) by {
        lemma_border_sum_bound(g, w, h, 1, h);
    }
    assert(border_sum(g, w, h, 2, h) >= 0) by {
        lemma_border_sum_bound(g, w, h, 2, h);
    }
}

fn add_channels(sums: (u64, u64, u64), p: Rgba) -> (r: (u64, u64, u64))
    requires
        sums.0 <= 0xffff_ffff_ffff,
        sums.1 <= 0xffff_ffff_ffff,
        sums.2 <= 0xffff_ffff_ffff,
    ensures
        r.0 == sums.0 + channel(p, 0),
        r.1 == sums.1 + channel(p, 1),
        r.2 == sums.2 + channel(p, 2),
{
    (sums.0 + p.r as u64, sums.1 + p.g as u64, sums.2 + p.b as u64)
}

impl Raster {
    /// The average color of the pixels on the image's border; opaque black
    /// for an image without pixels. An image with columns but no rows, or
    /// with more than two rows but no columns, has border positions that
    /// hold no pixel, and is not accepted.
    pub fn edge_average_color(&self) -> (r: Rgba)
        requires
            self.spec_width() == 0 ==> self.spec_height() <= 2,
            self.spec_height() == 0 ==> self.spec_width() == 0,
        ensures
            r == edge_average(self.grid(), self.spec_width(), self.spec_height()),
    {
        proof {
            use_type_invariant(self);
        }
        let ghost g = self.grid();
        let w = self.width;
        let h = self.height;
        if w == 0 || h == 0 {
            proof {
                assert(edge_count(w as nat, h as nat) == 0);
                let side_end: nat = if h >= 1 { (h - 1) as nat } else { 0 };
                assert forall|k: int| edge_side_sum(g, w as nat, side_end, k) == 0 by {
                    assert(side_end <= 1);
                }
                assert forall|k: int| edge_row_sum(g, h as nat, w as nat, k) == 0 by {}
            }
            return Rgba { r: 0, g: 0, b: 0, a: 255 };
        }
        let ghost per_column: nat = if h > 1 { 2 } else { 1 };
        let ghost per_row: nat = if w > 1 { 2 } else { 1 };
        let mut sums: (u64, u64, u64) = (0, 0, 0);
        let mut count: u64 = 0;
        let mut x: u32 = 0;
        while x < w
            invariant
                x <= w,
                w == self.spec_width(),
                h == self.spec_height(),
                h >= 1,
                g == self.grid(),
                per_column == if h > 1 { 2nat } else { 1nat },
                count == (x as nat) * per_column,
                count <= 2 * (x as nat),
                sums.0 <= 255 * count,
                sums.1 <= 255 * count,
                sums.2 <= 255 * count,
                sums.0 == edge_row_sum(g, h as nat, x as nat, 0),
                sums.1 == edge_row_sum(g, h as nat, x as nat, 1),
                sums.2 == edge_row_sum(g, h as nat, x as nat, 2),
            decreases w - x,
        {
            sums = add_channels(sums, self.pixel(x, 0));
            count += 1;
            if h > 1 {
                sums = add_channels(sums, self.pixel(x, h - 1));
                count += 1;
            }
            x += 1;
            proof {
                assert((x as nat) * per_column == ((x - 1) as nat) * per_column + per_column)
                    by (nonlinear_arith)
                    requires
                        x >= 1,
                ;
            }
        }
        let ghost top_count = count;
        let mut y: u32 = 1;
        while y < h - 1
            invariant
                1 <= y,
                y <= h - 1 || h == 1,
                h == 1 ==> y == 1,
                w == self.spec_width(),
                h == self.spec_height(),
                w >= 1,
                h >= 1,
                g == self.grid(),
                per_row == if w > 1 { 2nat } else { 1nat },
                top_count == (w as nat) * per_column,
                top_count <= 2 * (w as nat),
                count == top_count + ((y - 1) as nat) * per_row,
                count <= top_count + 2 * ((y - 1) as nat),
                sums.0 <= 255 * count,
                sums.1 <= 255 * count,
                sums.2 <= 255 * count,
                sums.0 == edge_row_sum(g, h as nat, w as nat, 0) + edge_side_sum(g, w as nat, y as nat, 0),
                sums.1 == edge_row_sum(g, h as nat, w as nat, 1) + edge_side_sum(g, w as nat, y as nat, 1),
                sums.2 == edge_row_sum(g, h as nat, w as nat, 2) + edge_side_sum(g, w as nat, y as nat, 2),
            decreases h - y,
        {
            sums = add_channels(sums, self.pixel(0, y));
            count += 1;
            if w > 1 {
                sums = add_channels(sums, self.pixel(w - 1, y));
                count += 1;
            }
            y += 1;
            proof {
                assert(((y - 1) as nat) * per_row == ((y - 2) as nat) * per_row + per_row)
                    by (nonlinear_arith)
                    requires
                        y >= 2,
                ;
            }
        }
        proof {
            let side_rows: nat = if h >= 2 { (h - 2) as nat } else { 0 };
            assert((y - 1) as nat == side_rows);
            assert(count == edge_count(w as nat, h as nat));
            assert(count >= 1) by (nonlinear_arith)
                requires
                    count >= top_count,
                    top_count == (w as nat) * per_column,
                    w >= 1,
                    per_column >= 1,
            ;
        }
        let divisor = if count > 1 { count } else { 1 };
        proof {
            assert(sums.0 / divisor <= 255) by (nonlinear_arith)
                requires
                    sums.0 <= 255 * divisor,
                    divisor >= 1,
            ;
            assert(sums.1 / divisor <= 255) by (nonlinear_arith)
                requires
                    sums.1 <= 255 * divisor,
                    divisor >= 1,
            ;
            assert(sums.2 / divisor <= 255) by (nonlinear_arith)
                requires
                    sums.2 <= 255 * divisor,
                    divisor >= 1,
            ;
        }
        Rgba { r: (sums.0 / divisor) as u8, g: (sums.1 / divisor) as u8, b: (sums.2 / divisor) as u8, a: 255 }
    }
}

/// The bytes of the PNG file that `image`'s PNG encoder writes for an RGBA
/// image, or the text of its error.
pub uninterp spec fn spec_png_encoding(width: nat, height: nat, rgba: Seq<u8>) -> Result<Seq<u8>, Seq<char>>;

/// Encodes RGBA bytes with `image::codecs::png::PngEncoder::new_with_quality`
/// (fast compression, `Sub` filter) and `ImageEncoder::write_image`; on
/// failure, the `Display` text of the `ImageError`. The encoder panics unless
/// there are four bytes per pixel, which `requires` rules out. The contract
/// only names the result, a function of the size and the bytes; the PNG
/// format itself is not restated here.
#[verifier::external_body]
fn encode_png_rgba(width: u32, height: u32, rgba: &[u8]) -> (r: Result<Vec<u8>, String>)
    requires
        rgba@.len() == 4 * (width as nat) * (height as nat),
    ensures
        match r {
            Ok(png) => spec_png_encoding(width as nat, height as nat, rgba@) == Ok::<Seq<u8>, Seq<char>>(png@),
            Err(e) => spec_png_encoding(width as nat, height as nat, rgba@) == Err::<Seq<u8>, Seq<char>>(e@),
        },
{
    let mut png = Vec::new();
    image::codecs::png::PngEncoder::new_with_quality(
        &mut png,
        image::codecs::png::CompressionType::Fast,
        image::codecs::png::FilterType::Sub,
    ).write_image(rgba, width, height, image::ExtendedColorType::Rgba8).map_err(|error| error.to_string())?;
    Ok(png)
}

/// The PNG file of an image, or the message that reports the encoder's error.
pub open spec fn spec_encode_png(image: Raster) -> Result<Seq<u8>, Seq<char>> {
    match spec_png_encoding(image.spec_width(), image.spec_height(), image.bytes()) {
        Ok(png) => Ok(png),
        Err(e) => Err("failed to encode screen capture: "@ + e),
    }
}

pub fn encode_png(image: &Raster) -> (r: Result<Vec<u8>, String>)
    ensures
        match r {
            Ok(png) => spec_encode_png(*image) == Ok::<Seq<u8>, Seq<char>>(png@),
            Err(e) => spec_encode_png(*image) == Err::<Seq<u8>, Seq<char>>(e@),
        },
{
    let bytes = image.to_rgba_bytes();
    match encode_png_rgba(image.width(), image.height(), bytes.as_slice()) {
        Ok(png) => Ok(png),
        Err(e) => Err(crate::text::concat_str("failed to encode screen capture: ", e.as_str())),
    }
}

} // verus!
