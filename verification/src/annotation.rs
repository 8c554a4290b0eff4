//! The integer parts of annotations: colors written as hexadecimal text,
//! the limits on text and brush annotations, and mosaic blocks.
use vstd::prelude::*;

use crate::raster::Raster;
use crate::raster::Rgba;
use crate::text::chars_of;
use crate::text::utf8_len;
use crate::text::utf8_len_exceeds;

verus! {

/// An annotation color.
#[derive(Clone, Copy, Debug, PartialEq, Eq, Structural)]
pub struct Color(pub Rgba);

/// The value of a hexadecimal digit.
pub open spec fn hex_digit(c: char) -> Option<u8> {
    if '0' <= c && c <= '9' {
        Some(((c as u32) - 48) as u8)
    } else if 'a' <= c && c <= 'f' {
        Some(((c as u32) - 87) as u8)
    } else if 'A' <= c && c <= 'F' {
        Some(((c as u32) - 55) as u8)
    } else {
        None
    }
}

/// The byte written as two hexadecimal digits.
pub open spec fn hex_byte(a: char, b: char) -> Option<u8> {
    match (hex_digit(a), hex_digit(b)) {
        (Some(high), Some(low)) => Some((high * 16 + low) as u8),
        _ => None,
    }
}

/// The color text without its leading `#`, if it has one.
pub open spec fn color_digits(value: Seq<char>) -> Seq<char> {
    if value.len() > 0 && value[0] == '#' {
        value.drop_first()
    } else {
        value
    }
}

pub open spec fn all_ascii(s: Seq<char>) -> bool {
    forall|i: int| 0 <= i < s.len() ==> (#[trigger] s[i] as u32) < 0x80
}

/// `#RRGGBB` (opaque) or `#RRGGBBAA`, the `#` being optional.
pub open spec fn spec_parse_color(value: Seq<char>) -> Result<Rgba, Seq<char>> {
    let d = color_digits(value);
    if utf8_len(d) != 6 && utf8_len(d) != 8 {
        Err("annotation color must be #RRGGBB or #RRGGBBAA"@)
    } else if !all_ascii(d) {
        Err("annotation color contains non-hexadecimal characters"@)
    } else {
        match (
            hex_byte(d[0], d[1]),
            hex_byte(d[2], d[3]),
            hex_byte(d[4], d[5]),
            if d.len() == 8 { hex_byte(d[6], d[7]) } else { Some(255u8) },
        ) {
            (Some(r), Some(g), Some(b), Some(a)) => Ok(Rgba { r, g, b, a }),
            _ => Err("annotation color contains non-hexadecimal characters"@),
        }
    }
}

fn hex_digit_value(c: char) -> (r: Option<u8>)
    ensures
        r == hex_digit(c),
{
    if '0' <= c && c <= '9' {
        Some((c as u32 - 48) as u8)
    } else if 'a' <= c && c <= 'f' {
        Some((c as u32 - 87) as u8)
    } else if 'A' <= c && c <= 'F' {
        Some((c as u32 - 55) as u8)
    } else {
        None
    }
}

fn hex_byte_value(a: char, b: char) -> (r: Option<u8>)
    ensures
        r == hex_byte(a, b),
{
    match (hex_digit_value(a), hex_digit_value(b)) {
        (Some(high), Some(low)) => Some(high * 16 + low),
        _ => None,
    }
}

proof fn lemma_ascii_utf8_len(s: Seq<char>)
    requires
        all_ascii(s),
    ensures
        utf8_len(s) == s.len(),
    decreases s.len(),
{
    if s.len() > 0 {
        assert(all_ascii(s.drop_last())) by {
            assert forall|i: int| 0 <= i < s.drop_last().len() implies (#[trigger] s.drop_last()[i] as u32) < 0x80 by {
                assert(s.drop_last()[i] == s[i]);
            }
        }
        assert((s[s.len() - 1] as u32) < 0x80);
        lemma_ascii_utf8_len(s.drop_last());
    }
}

/// The lower-case hexadecimal digit for `n` below 16.
pub open spec fn hex_char(n: int) -> char {
    if n < 10 {
        (48 + n) as char
    } else {
        (87 + n) as char
    }
}

/// A byte written as two lower-case hexadecimal digits.
pub open spec fn hex_pair(v: u8) -> Seq<char> {
    seq![hex_char(v as int / 16), hex_char(v as int % 16)]
}

proof fn lemma_hex_char_reads_back(n: int)
    requires
        0 <= n < 16,
    ensures
        hex_digit(hex_char(n)) == Some(n as u8),
        (hex_char(n) as u32) < 0x80,
        hex_char(n) != '#',
{
}

proof fn lemma_hex_pair_reads_back(v: u8)
    ensures
        hex_byte(hex_pair(v)[0], hex_pair(v)[1]) == Some(v),
        (hex_pair(v)[0] as u32) < 0x80,
        (hex_pair(v)[1] as u32) < 0x80,
        hex_pair(v)[0] != '#',
{
    lemma_hex_char_reads_back(v as int / 16);
    lemma_hex_char_reads_back(v as int % 16);
    assert((v as int / 16) * 16 + v as int % 16 == v);
}

proof fn lemma_six_digits(c: Rgba)
    ensures
        spec_parse_color(seq!['#'] + (hex_pair(c.r) + hex_pair(c.g) + hex_pair(c.b))) == Ok::<Rgba, Seq<char>>(
            Rgba { r: c.r, g: c.g, b: c.b, a: 255 },
        ),
{
    lemma_hex_pair_reads_back(c.r);
    lemma_hex_pair_reads_back(c.g);
    lemma_hex_pair_reads_back(c.b);
    let six = hex_pair(c.r) + hex_pair(c.g) + hex_pair(c.b);
    assert(six.len() == 6);
    assert(six[0] == hex_pair(c.r)[0] && six[1] == hex_pair(c.r)[1]);
    assert(six[2] == hex_pair(c.g)[0] && six[3] == hex_pair(c.g)[1]);
    assert(six[4] == hex_pair(c.b)[0] && six[5] == hex_pair(c.b)[1]);
    assert((seq!['#'] + six)[0] == '#');
    assert((seq!['#'] + six).drop_first() =~= six);
    assert(all_ascii(six));
    lemma_ascii_utf8_len(six);
}

proof fn lemma_eight_digits(c: Rgba)
    ensures
        spec_parse_color(seq!['#'] + (hex_pair(c.r) + hex_pair(c.g) + hex_pair(c.b) + hex_pair(c.a))) == Ok::<
            Rgba,
            Seq<char>,
        >(c),
{
    lemma_hex_pair_reads_back(c.r);
    lemma_hex_pair_reads_back(c.g);
    lemma_hex_pair_reads_back(c.b);
    lemma_hex_pair_reads_back(c.a);
    let eight = hex_pair(c.r) + hex_pair(c.g) + hex_pair(c.b) + hex_pair(c.a);
    assert(eight.len() == 8);
    assert(eight[0] == hex_pair(c.r)[0] && eight[1] == hex_pair(c.r)[1]);
    assert(eight[2] == hex_pair(c.g)[0] && eight[3] == hex_pair(c.g)[1]);
    assert(eight[4] == hex_pair(c.b)[0] && eight[5] == hex_pair(c.b)[1]);
    assert(eight[6] == hex_pair(c.a)[0] && eight[7] == hex_pair(c.a)[1]);
    assert((seq!['#'] + eight)[0] == '#');
    assert((seq!['#'] + eight).drop_first() =~= eight);
    assert(all_ascii(eight));
    lemma_ascii_utf8_len(eight);
}

/// Writing a color as `#rrggbb` (or `#rrggbbaa`) in hexadecimal and parsing
/// the text gives the color back; six digits give it opaque.
pub proof fn lemma_hex_color_reads_back(c: Rgba)
    ensures
        spec_parse_color(seq!['#'] + hex_pair(c.r) + hex_pair(c.g) + hex_pair(c.b)) == Ok::<Rgba, Seq<char>>(
            Rgba { a: 255, ..c },
        ),
        spec_parse_color(seq!['#'] + hex_pair(c.r) + hex_pair(c.g) + hex_pair(c.b) + hex_pair(c.a)) == Ok::<
            Rgba,
            Seq<char>,
        >(c),
{
    lemma_six_digits(c);
    lemma_eight_digits(c);
    assert(seq!['#'] + hex_pair(c.r) + hex_pair(c.g) + hex_pair(c.b) =~= seq!['#'] + (hex_pair(c.r) + hex_pair(c.g)
        + hex_pair(c.b)));
    assert(seq!['#'] + hex_pair(c.r) + hex_pair(c.g) + hex_pair(c.b) + hex_pair(c.a) =~= seq!['#'] + (hex_pair(c.r)
        + hex_pair(c.g) + hex_pair(c.b) + hex_pair(c.a)));
}

impl Color {
    /// Reads `#RRGGBB` or `#RRGGBBAA` (the `#` may be left out); six digits
    /// give an opaque color.
    pub fn parse(value: &str) -> (r: Result<Color, String>)
        ensures
            match spec_parse_color(value@) {
                Ok(rgba) => r == Ok::<Color, String>(Color(rgba)),
                Err(message) => r matches Err(e) && e@ == message,
            },
    {
        let all = chars_of(value);
        let mut digits: Vec<char> = Vec::new();
        let start: usize = if all.len() > 0 && all[0] == '#' {
            1
        } else {
            0
        };
        let mut i = start;
        while i < all.len()
            invariant
                start <= i <= all@.len(),
                digits@ == all@.subrange(start as int, i as int),
            decreases all.len() - i,
        {
            digits.push(all[i]);
            i = i + 1;
            assert(digits@ =~= all@.subrange(start as int, i as int));
        }
        assert(digits@ =~= color_digits(value@));
        let six = !utf8_len_exceeds(digits.as_slice(), 6) && utf8_len_exceeds(digits.as_slice(), 5);
        let eight = !utf8_len_exceeds(digits.as_slice(), 8) && utf8_len_exceeds(digits.as_slice(), 7);
        if !six && !eight {
            return Err("annotation color must be #RRGGBB or #RRGGBBAA".to_owned());
        }
        let mut k: usize = 0;
        while k < digits.len()
            invariant
                k <= digits@.len(),
                digits@ == color_digits(value@),
                utf8_len(digits@) == 6 || utf8_len(digits@) == 8,
                forall|j: int| 0 <= j < k ==> (#[trigger] digits@[j] as u32) < 0x80,
            decreases digits.len() - k,
        {
            if digits[k] as u32 >= 0x80 {
                assert((digits@[k as int] as u32) >= 0x80);
                return Err("annotation color contains non-hexadecimal characters".to_owned());
            }
            k = k + 1;
        }
        proof {
            lemma_ascii_utf8_len(digits@);
        }
        let r = hex_byte_value(digits[0], digits[1]);
        let g = hex_byte_value(digits[2], digits[3]);
        let b = hex_byte_value(digits[4], digits[5]);
        let a = if digits.len() == 8 {
            hex_byte_value(digits[6], digits[7])
        } else {
            Some(255u8)
        };
        match (r, g, b, a) {
            (Some(r), Some(g), Some(b), Some(a)) => Ok(Color(Rgba { r, g, b, a })),
            _ => Err("annotation color contains non-hexadecimal characters".to_owned()),
        }
    }
}

/// Refuses text annotations that are empty or longer than 512 characters.
pub fn check_annotation_text(text: &str) -> (r: Result<(), String>)
    ensures
        text@.len() == 0 || text@.len() > 512 ==> (r matches Err(e) && e@
            == "text must contain between 1 and 512 characters"@),
        !(text@.len() == 0 || text@.len() > 512) ==> r is Ok,
{
    let chars = chars_of(text);
    if chars.len() == 0 || chars.len() > 512 {
        return Err("text must contain between 1 and 512 characters".to_owned());
    }
    Ok(())
}

/// Refuses brush annotations without points or with more than 20000.
pub fn check_brush_point_count(count: usize) -> (r: Result<(), String>)
    ensures
        count == 0 || count > 20000 ==> (r matches Err(e) && e@ == "brush must contain between 1 and 20000 points"@),
        !(count == 0 || count > 20000) ==> r is Ok,
{
    if count == 0 || count > 20000 {
        return Err("brush must contain between 1 and 20000 points".to_owned());
    }
    Ok(())
}


/// Channel `k` of a pixel: red, green, blue, then alpha.
pub open spec fn component(p: Rgba, k: int) -> nat {
    if k == 0 {
        p.r as nat
    } else if k == 1 {
        p.g as nat
    } else if k == 2 {
        p.b as nat
    } else {
        p.a as nat
    }
}

/// The sum of channel `k` over columns `x0..x1` of a row.
pub open spec fn row_total(row: Seq<Rgba>, k: int, x0: int, x1: int) -> nat
    decreases x1 - x0,
{
    if x1 <= x0 {
        0
    } else {
        row_total(row, k, x0, x1 - 1) + component(row[x1 - 1], k)
    }
}

/// The sum of channel `k` over the block of columns `x0..x1` and rows
/// `y0..y1`.
pub open spec fn block_total(g: Seq<Seq<Rgba>>, k: int, x0: int, x1: int, y0: int, y1: int) -> nat
    decreases y1 - y0,
{
    if y1 <= y0 {
        0
    } else {
        block_total(g, k, x0, x1, y0, y1 - 1) + row_total(g[y1 - 1], k, x0, x1)
    }
}

/// The average color of a block, each channel rounded down.
pub open spec fn block_average(g: Seq<Seq<Rgba>>, x0: int, x1: int, y0: int, y1: int) -> Rgba {
    let n = (x1 - x0) * (y1 - y0);
    Rgba {
        r: (block_total(g, 0, x0, x1, y0, y1) as int / n) as u8,
        g: (block_total(g, 1, x0, x1, y0, y1) as int / n) as u8,
        b: (block_total(g, 2, x0, x1, y0, y1) as int / n) as u8,
        a: (block_total(g, 3, x0, x1, y0, y1) as int / n) as u8,
    }
}

/// Where the block holding position `v` starts, blocks of `block` pixels
/// being laid from `origin` on.
pub open spec fn block_start(v: int, origin: int, block: int) -> int {
    origin + (v - origin) / block * block
}

/// A pixel after the mosaic: inside the area (and the image), the average
/// of its block, cut at the area's and the image's edges; elsewhere as it
/// was.
pub open spec fn mosaic_pixel(
    g: Seq<Seq<Rgba>>,
    width: int,
    height: int,
    area: (int, int, int, int),
    block: int,
    x: int,
    y: int,
) -> Rgba {
    let (left, top, right, bottom) = area;
    let x_end = crate::scroll::smaller(right, width);
    let y_end = crate::scroll::smaller(bottom, height);
    if left <= x < x_end && top <= y < y_end {
        let bx = block_start(x, left, block);
        let by = block_start(y, top, block);
        block_average(
            g,
            bx,
            crate::scroll::smaller(bx + block, x_end),
            by,
            crate::scroll::smaller(by + block, y_end),
        )
    } else {
        g[y][x]
    }
}

pub open spec fn spec_mosaic(
    g: Seq<Seq<Rgba>>,
    width: nat,
    height: nat,
    area: (int, int, int, int),
    block: int,
) -> Seq<Seq<Rgba>> {
    Seq::new(height, |y: int| Seq::new(width, |x: int| mosaic_pixel(g, width as int, height as int, area, block, x, y)))
}

proof fn lemma_row_total_bound(row: Seq<Rgba>, k: int, x0: int, x1: int)
    ensures
        row_total(row, k, x0, x1) <= 255 * (if x1 > x0 { x1 - x0 } else { 0 }),
    decreases x1 - x0,
{
    if x1 > x0 {
        lemma_row_total_bound(row, k, x0, x1 - 1);
    }
}

proof fn lemma_block_total_bound(g: Seq<Seq<Rgba>>, k: int, x0: int, x1: int, y0: int, y1: int)
    requires
        x0 <= x1,
    ensures
        block_total(g, k, x0, x1, y0, y1) <= 255 * (x1 - x0) * (if y1 > y0 { y1 - y0 } else { 0 }),
    decreases y1 - y0,
{
    if y1 > y0 {
        lemma_block_total_bound(g, k, x0, x1, y0, y1 - 1);
        lemma_row_total_bound(g[y1 - 1], k, x0, x1);
        assert(255 * (x1 - x0) * (y1 - 1 - y0) + 255 * (x1 - x0) == 255 * (x1 - x0) * (y1 - y0)) by (nonlinear_arith);
        if y1 - 1 <= y0 {
            assert(255 * (x1 - x0) * 0 == 0) by (nonlinear_arith);
        }
    }
}

/// Every pixel inside the pixelated area (and the image) takes, in each
/// channel, the sum of that channel over its block divided by the block's
/// pixel count, rounded down. Blocks are `block` x `block` squares laid
/// from the area's top-left corner and cut at the area's and the image's
/// edges. Pixels outside the area keep their color.
pub proof fn lemma_mosaic_pixel_is_block_mean(
    g: Seq<Seq<Rgba>>,
    width: nat,
    height: nat,
    area: (int, int, int, int),
    block: int,
    x: int,
    y: int,
    k: int,
)
    requires
        block >= 1,
        0 <= x < width,
        0 <= y < height,
        0 <= k < 4,
    ensures
        ({
            let (left, top, right, bottom) = area;
            let x_end = if right < width { right } else { width as int };
            let y_end = if bottom < height { bottom } else { height as int };
            let bx = left + (x - left) / block * block;
            let by = top + (y - top) / block * block;
            let bx1 = if bx + block < x_end { bx + block } else { x_end };
            let by1 = if by + block < y_end { by + block } else { y_end };
            let n = (bx1 - bx) * (by1 - by);
            let pixel = spec_mosaic(g, width, height, area, block)[y][x];
            if left <= x < x_end && top <= y < y_end {
                &&& bx <= x < bx1
                &&& by <= y < by1
                &&& n > 0
                &&& component(pixel, k) as int == block_total(g, k, bx, bx1, by, by1) as int / n
            } else {
                pixel == g[y][x]
            }
        }),
{
    let (left, top, right, bottom) = area;
    let x_end = if right < width { right } else { width as int };
    let y_end = if bottom < height { bottom } else { height as int };
    if left <= x < x_end && top <= y < y_end {
        let bx = left + (x - left) / block * block;
        let by = top + (y - top) / block * block;
        lemma_block_index(x, left, block, (x - left) / block);
        lemma_block_index(y, top, block, (y - top) / block);
        let bx1 = if bx + block < x_end { bx + block } else { x_end };
        let by1 = if by + block < y_end { by + block } else { y_end };
        let n = (bx1 - bx) * (by1 - by);
        assert(n > 0) by (nonlinear_arith)
            requires
                bx1 - bx >= 1,
                by1 - by >= 1,
                n == (bx1 - bx) * (by1 - by),
        ;
        assert forall|c: int| 0 <= c < 4 implies (#[trigger] block_total(g, c, bx, bx1, by, by1)) as int / n <= 255 by {
            lemma_block_total_bound(g, c, bx, bx1, by, by1);
            assert(block_total(g, c, bx, bx1, by, by1) as int / n <= 255) by (nonlinear_arith)
                requires
                    block_total(g, c, bx, bx1, by, by1) <= 255 * (bx1 - bx) * (by1 - by),
                    n == (bx1 - bx) * (by1 - by),
                    n > 0,
            ;
        }
        assert(block_total(g, 0, bx, bx1, by, by1) as int / n <= 255);
        assert(block_total(g, 1, bx, bx1, by, by1) as int / n <= 255);
        assert(block_total(g, 2, bx, bx1, by, by1) as int / n <= 255);
        assert(block_total(g, 3, bx, bx1, by, by1) as int / n <= 255);
    }
}

fn row_totals(image: &Raster, y: u32, x0: u32, x1: u32) -> (r: [u128; 4])
    requires
        y < image.spec_height(),
        x0 <= x1 <= image.spec_width(),
    ensures
        forall|k: int| 0 <= k < 4 ==> r@[k] == row_total(image.grid()[y as int], k, x0 as int, x1 as int),
        forall|k: int| 0 <= k < 4 ==> r@[k] <= 255 * (x1 - x0),
{
    let ghost row = image.grid()[y as int];
    let mut t: [u128; 4] = [0, 0, 0, 0];
    let mut x = x0;
    while x < x1
        invariant
            x0 <= x <= x1 <= image.spec_width(),
            y < image.spec_height(),
            row == image.grid()[y as int],
            forall|k: int| 0 <= k < 4 ==> t@[k] == row_total(row, k, x0 as int, x as int),
            forall|k: int| 0 <= k < 4 ==> t@[k] <= 255 * (x - x0),
        decreases x1 - x,
    {
        let p = image.pixel(x, y);
        t = [t[0] + p.r as u128, t[1] + p.g as u128, t[2] + p.b as u128, t[3] + p.a as u128];
        x = x + 1;
    }
    t
}

fn block_color(image: &Raster, x0: u32, x1: u32, y0: u32, y1: u32) -> (r: Rgba)
    requires
        x0 < x1 <= image.spec_width(),
        y0 < y1 <= image.spec_height(),
    ensures
        r == block_average(image.grid(), x0 as int, x1 as int, y0 as int, y1 as int),
{
    let ghost g = image.grid();
    let mut t: [u128; 4] = [0, 0, 0, 0];
    let mut y = y0;
    while y < y1
        invariant
            y0 <= y <= y1 <= image.spec_height(),
            x0 < x1 <= image.spec_width(),
            g == image.grid(),
            forall|k: int| 0 <= k < 4 ==> t@[k] == block_total(g, k, x0 as int, x1 as int, y0 as int, y as int),
            forall|k: int| 0 <= k < 4 ==> t@[k] <= 255 * (x1 - x0) * (y - y0),
        decreases y1 - y,
    {
        let row = row_totals(image, y, x0, x1);
        proof {
            assert(255 * (x1 - x0) * (y + 1 - y0) == 255 * (x1 - x0) * (y - y0) + 255 * (x1 - x0)) by (nonlinear_arith);
            assert(255 * (x1 - x0) * (y - y0) <= 255 * 0xffff_ffff * 0xffff_ffff) by (nonlinear_arith)
                requires
                    x1 - x0 <= 0xffff_ffff,
                    y - y0 <= 0xffff_ffff,
                    y >= y0,
                    x1 >= x0,
            ;
        }
        t = [t[0] + row[0], t[1] + row[1], t[2] + row[2], t[3] + row[3]];
        y = y + 1;
    }
    let ghost a: int = x1 - x0;
    let ghost b: int = y1 - y0;
    assert(a * b <= 0xffff_ffff * 0xffff_ffff) by (nonlinear_arith)
        requires
            0 <= a <= 0xffff_ffff,
            0 <= b <= 0xffff_ffff,
    ;
    assert(a * b >= 1) by (nonlinear_arith)
        requires
            a >= 1,
            b >= 1,
    ;
    let n: u128 = ((x1 - x0) as u128) * ((y1 - y0) as u128);
    Rgba { r: (t[0] / n) as u8, g: (t[1] / n) as u8, b: (t[2] / n) as u8, a: (t[3] / n) as u8 }
}


/// The average colors of the blocks of one block row: blocks start every
/// `block` columns from `left` and stop at `x_end`; the row covers rows
/// `y0..y1`.
fn block_row_colors(image: &Raster, left: u32, x_end: u32, y0: u32, y1: u32, block: u32) -> (r: Vec<Rgba>)
    requires
        left < x_end <= image.spec_width(),
        y0 < y1 <= image.spec_height(),
        block >= 1,
    ensures
        forall|i: int|
            0 <= i < r@.len() ==> #[trigger] r@[i] == block_average(
                image.grid(),
                left + i * block,
                crate::scroll::smaller(left + i * block + block, x_end as int),
                y0 as int,
                y1 as int,
            ),
        r@.len() * block >= x_end - left,
{
    let mut colors: Vec<Rgba> = Vec::new();
    let mut start: u64 = left as u64;
    assert(0 * (block as int) == 0) by (nonlinear_arith);
    while start < x_end as u64
        invariant
            left < x_end <= image.spec_width(),
            y0 < y1 <= image.spec_height(),
            block >= 1,
            start == left + colors@.len() * block,
            start <= x_end + block,
            forall|i: int|
                0 <= i < colors@.len() ==> #[trigger] colors@[i] == block_average(
                    image.grid(),
                    left + i * block,
                    crate::scroll::smaller(left + i * block + block, x_end as int),
                    y0 as int,
                    y1 as int,
                ),
        decreases x_end + block - start,
    {
        let end: u64 = if start + (block as u64) < x_end as u64 {
            start + block as u64
        } else {
            x_end as u64
        };
        let color = block_color(image, start as u32, end as u32, y0, y1);
        proof {
            assert((colors@.len() + 1) * block == colors@.len() * block + block) by (nonlinear_arith);
        }
        colors.push(color);
        start = start + block as u64;
    }
    colors
}

proof fn lemma_block_index(v: int, origin: int, block: int, index: int)
    requires
        block >= 1,
        origin <= v,
        index == (v - origin) / block,
    ensures
        origin + index * block <= v < origin + index * block + block,
        block_start(v, origin, block) == origin + index * block,
{
    assert(index * block <= v - origin < index * block + block) by (nonlinear_arith)
        requires
            block >= 1,
            v - origin >= 0,
            index == (v - origin) / block,
    ;
}

proof fn lemma_index_below(index: int, count: int, block: int, span: int, offset: int)
    requires
        block >= 1,
        index * block <= offset < span,
        count * block >= span,
    ensures
        index < count,
{
    assert(index < count) by (nonlinear_arith)
        requires
            block >= 1,
            index * block <= offset,
            offset < span,
            count * block >= span,
    ;
}

/// Pixelates the area `left..right` x `top..bottom` (as far as it lies in
/// the image): every `block` x `block` square, counted from the area's
/// top-left corner, takes the average color of its pixels.
pub fn mosaic(image: &Raster, left: u32, top: u32, right: u32, bottom: u32, block: u32) -> (r: Raster)
    requires
        block >= 1,
    ensures
        r.spec_width() == image.spec_width(),
        r.spec_height() == image.spec_height(),
        r.grid() == spec_mosaic(
            image.grid(),
            image.spec_width(),
            image.spec_height(),
            (left as int, top as int, right as int, bottom as int),
            block as int,
        ),
{
    let width = image.width();
    let height = image.height();
    let ghost g = image.grid();
    let ghost area = (left as int, top as int, right as int, bottom as int);
    let x_end = if right < width {
        right
    } else {
        width
    };
    let y_end = if bottom < height {
        bottom
    } else {
        height
    };
    let mut rows: Vec<Vec<Rgba>> = Vec::new();
    let mut averages: Vec<Rgba> = Vec::new();
    let mut averaged_row: Option<u64> = None;
    let mut block_top: u64 = top as u64;
    let mut y: u32 = 0;
    while y < height
        invariant
            y <= height,
            width == image.spec_width(),
            height == image.spec_height(),
            g == image.grid(),
            area == (left as int, top as int, right as int, bottom as int),
            block >= 1,
            x_end == crate::scroll::smaller(right as int, width as int),
            y_end == crate::scroll::smaller(bottom as int, height as int),
            rows@.len() == y,
            forall|k: int| 0 <= k < y ==> (#[trigger] rows@[k])@ == Seq::new(
                width as nat,
                |x: int| mosaic_pixel(g, width as int, height as int, area, block as int, x, k),
            ),
            y <= top ==> block_top == top,
            top < y <= y_end ==> block_top == block_start(y - 1, top as int, block as int),
            block_top <= u32::MAX,
            averaged_row matches Some(b) ==> b == block_top && b < y_end && left < x_end && forall|i: int|
                0 <= i < averages@.len() ==> #[trigger] averages@[i] == block_average(
                    g,
                    left + i * block,
                    crate::scroll::smaller(left + i * block + block, x_end as int),
                    b as int,
                    crate::scroll::smaller(b + block, y_end as int),
                ),
            averaged_row matches Some(b) ==> averages@.len() * block >= x_end - left,
        decreases height - y,
    {
        let in_rows = top <= y && y < y_end;
        if in_rows {
            proof {
                if y > top {
                    let previous = (y - 1 - top) / (block as int);
                    lemma_block_index((y - 1) as int, top as int, block as int, previous);
                }
            }
            if (y as u64) >= block_top + block as u64 {
                block_top = block_top + block as u64;
            }
            proof {
                if y == top {
                    vstd::arithmetic::div_mod::lemma_fundamental_div_mod_converse_div(0, block as int, 0, 0);
                } else {
                    let previous = (y - 1 - top) / (block as int);
                    if block_top == top + previous * block {
                        vstd::arithmetic::div_mod::lemma_fundamental_div_mod_converse_div(
                            y - top,
                            block as int,
                            previous,
                            y - top - previous * block,
                        );
                    } else {
                        assert(y - top == (previous + 1) * block) by (nonlinear_arith)
                            requires
                                y == top + previous * block + block,
                        ;
                        vstd::arithmetic::div_mod::lemma_fundamental_div_mod_converse_div(
                            y - top,
                            block as int,
                            previous + 1,
                            0,
                        );
                        assert(top + (previous + 1) * block == top + previous * block + block) by (nonlinear_arith);
                    }
                }
                lemma_block_index(y as int, top as int, block as int, (y - top) / (block as int));
            }
            assert(block_top == block_start(y as int, top as int, block as int));
            let stale = match averaged_row {
                Some(b) => b != block_top,
                None => true,
            };
            if stale {
                if left < x_end {
                    let row_end: u32 = if block_top + (block as u64) < y_end as u64 {
                        (block_top + block as u64) as u32
                    } else {
                        y_end
                    };
                    averages = block_row_colors(image, left, x_end, block_top as u32, row_end, block);
                    averaged_row = Some(block_top);
                } else {
                    averages = Vec::new();
                    averaged_row = None;
                }
            }
        }
        let mut row: Vec<Rgba> = Vec::new();
        let mut x: u32 = 0;
        while x < width
            invariant
                x <= width,
                y < height,
                width == image.spec_width(),
                height == image.spec_height(),
                g == image.grid(),
                area == (left as int, top as int, right as int, bottom as int),
                block >= 1,
                x_end == crate::scroll::smaller(right as int, width as int),
                y_end == crate::scroll::smaller(bottom as int, height as int),
                in_rows == (top <= y && y < y_end),
                in_rows ==> block_top == block_start(y as int, top as int, block as int),
                in_rows && left < x_end ==> averaged_row == Some(block_top),
                averaged_row matches Some(b) ==> b == block_top || !in_rows,
                averaged_row matches Some(b) ==> forall|i: int|
                    0 <= i < averages@.len() ==> #[trigger] averages@[i] == block_average(
                        g,
                        left + i * block,
                        crate::scroll::smaller(left + i * block + block, x_end as int),
                        b as int,
                        crate::scroll::smaller(b + block, y_end as int),
                    ),
                averaged_row matches Some(b) ==> averages@.len() * block >= x_end - left,
                row@ == Seq::new(x as nat, |c: int| mosaic_pixel(g, width as int, height as int, area, block as int, c, y as int)),
            decreases width - x,
        {
            let pixel = if in_rows && left <= x && x < x_end {
                let index = (x - left) / block;
                proof {
                    lemma_block_index(x as int, left as int, block as int, index as int);
                    lemma_index_below(index as int, averages@.len() as int, block as int, (x_end - left) as int, (x - left) as int);
                }
                averages[index as usize]
            } else {
                image.pixel(x, y)
            };
            assert(pixel == mosaic_pixel(g, width as int, height as int, area, block as int, x as int, y as int));
            row.push(pixel);
            x = x + 1;
            assert(row@ =~= Seq::new(x as nat, |c: int| mosaic_pixel(g, width as int, height as int, area, block as int, c, y as int)));
        }
        rows.push(row);
        y = y + 1;
    }
    proof {
        assert forall|k: int| 0 <= k < rows@.len() implies (#[trigger] rows@[k])@.len() == width by {
            assert(rows@[k]@ == Seq::new(
                width as nat,
                |x: int| mosaic_pixel(g, width as int, height as int, area, block as int, x, k),
            ));
        }
        assert forall|k: int| 0 <= k < rows@.len() implies #[trigger] crate::raster::rows_view(rows@)[k] == spec_mosaic(
            g,
            width as nat,
            height as nat,
            area,
            block as int,
        )[k] by {
            assert(crate::raster::rows_view(rows@)[k] == rows@[k]@);
        }
        assert(crate::raster::rows_view(rows@) =~= spec_mosaic(g, width as nat, height as nat, area, block as int));
    }
    Raster::from_rows(width, height, rows)
}

} // verus!
