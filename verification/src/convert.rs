//! From RGBA images to the I420 planes that a video encoder takes.
use vstd::arithmetic::div_mod::{
    lemma_div_is_ordered, lemma_fundamental_div_mod, lemma_fundamental_div_mod_converse,
    lemma_multiply_divide_lt,
};
use vstd::arithmetic::mul::{lemma_mul_inequality, lemma_mul_is_commutative};
use vstd::prelude::*;

verus! {

/// `x` brought into the range of a byte.
pub open spec fn clamp_byte(x: int) -> int {
    if x < 0 {
        0
    } else if x > 255 {
        255
    } else {
        x
    }
}

/// The luma of a colour, in studio range: 16 for black.
pub open spec fn spec_luma(r: int, g: int, b: int) -> int {
    clamp_byte((66 * r + 129 * g + 25 * b + 128) / 256 + 16)
}

/// The blue-difference chroma of a colour: 128 for a grey.
pub open spec fn spec_chroma_u(r: int, g: int, b: int) -> int {
    clamp_byte((-38 * r - 74 * g + 112 * b + 128) / 256 + 128)
}

/// The red-difference chroma of a colour: 128 for a grey.
pub open spec fn spec_chroma_v(r: int, g: int, b: int) -> int {
    clamp_byte((112 * r - 94 * g - 18 * b + 128) / 256 + 128)
}

pub open spec fn fits_i32(x: int) -> bool {
    i32::MIN <= x <= i32::MAX
}

/// `x >> 8` rounds down, for negative values too.
fn shift_by_8(x: i32) -> (r: i32)
    ensures
        r == (x as int) / 256,
{
    assert(x >> 8 == (x as int) / 256) by (bit_vector);
    x >> 8
}

fn to_byte(x: i32) -> (r: u8)
    ensures
        r == clamp_byte(x as int),
{
    if x < 0 {
        0
    } else if x > 255 {
        255
    } else {
        x as u8
    }
}

/// The luma of a colour.
pub fn luma(r: i32, g: i32, b: i32) -> (y: u8)
    requires
        fits_i32(66 * r),
        fits_i32(129 * g),
        fits_i32(25 * b),
        fits_i32(66 * r + 129 * g),
        fits_i32(66 * r + 129 * g + 25 * b),
        fits_i32(66 * r + 129 * g + 25 * b + 128),
    ensures
        y == spec_luma(r as int, g as int, b as int),
{
    to_byte(shift_by_8(66 * r + 129 * g + 25 * b + 128) + 16)
}

/// The blue-difference chroma of a colour.
pub fn chroma_u(r: i32, g: i32, b: i32) -> (u: u8)
    requires
        fits_i32(-38 * r),
        fits_i32(74 * g),
        fits_i32(112 * b),
        fits_i32(-38 * r - 74 * g),
        fits_i32(-38 * r - 74 * g + 112 * b),
        fits_i32(-38 * r - 74 * g + 112 * b + 128),
    ensures
        u == spec_chroma_u(r as int, g as int, b as int),
{
    to_byte(shift_by_8(-38 * r - 74 * g + 112 * b + 128) + 128)
}

/// The red-difference chroma of a colour.
pub fn chroma_v(r: i32, g: i32, b: i32) -> (v: u8)
    requires
        fits_i32(112 * r),
        fits_i32(94 * g),
        fits_i32(18 * b),
        fits_i32(112 * r - 94 * g),
        fits_i32(112 * r - 94 * g - 18 * b),
        fits_i32(112 * r - 94 * g - 18 * b + 128),
    ensures
        v == spec_chroma_v(r as int, g as int, b as int),
{
    to_byte(shift_by_8(112 * r - 94 * g - 18 * b + 128) + 128)
}

/// One colour channel of a pixel of an RGBA image that is `width` pixels wide:
/// 0 for red, 1 for green, 2 for blue.
pub open spec fn channel(rgba: Seq<u8>, width: int, row: int, col: int, c: int) -> int {
    rgba[(row * width + col) * 4 + c] as int
}

/// How many bytes a `width` by `height` image takes as three I420 planes.
pub open spec fn i420_len(width: int, height: int) -> int {
    width * height + 2 * ((width / 2) * (height / 2))
}

/// The luma sample of a pixel. The last column of an odd width and the last row
/// of an odd height belong to no block of four pixels and stay 0.
pub open spec fn y_sample(rgba: Seq<u8>, width: int, height: int, row: int, col: int) -> u8 {
    if row < height / 2 * 2 && col < width / 2 * 2 {
        spec_luma(
            channel(rgba, width, row, col, 0),
            channel(rgba, width, row, col, 1),
            channel(rgba, width, row, col, 2),
        ) as u8
    } else {
        0
    }
}

/// A channel averaged over the block of four pixels at (`row`, `col`), in units
/// of blocks, and rounded to the nearest value.
pub open spec fn block_average(rgba: Seq<u8>, width: int, row: int, col: int, c: int) -> int {
    (channel(rgba, width, 2 * row, 2 * col, c) + channel(rgba, width, 2 * row, 2 * col + 1, c)
        + channel(rgba, width, 2 * row + 1, 2 * col, c) + channel(
        rgba,
        width,
        2 * row + 1,
        2 * col + 1,
        c,
    ) + 2) / 4
}

pub open spec fn u_sample(rgba: Seq<u8>, width: int, row: int, col: int) -> u8 {
    spec_chroma_u(
        block_average(rgba, width, row, col, 0),
        block_average(rgba, width, row, col, 1),
        block_average(rgba, width, row, col, 2),
    ) as u8
}

pub open spec fn v_sample(rgba: Seq<u8>, width: int, row: int, col: int) -> u8 {
    spec_chroma_v(
        block_average(rgba, width, row, col, 0),
        block_average(rgba, width, row, col, 1),
        block_average(rgba, width, row, col, 2),
    ) as u8
}

/// A plane of `width` by `height` samples, row after row.
pub open spec fn plane(width: int, height: int, sample: spec_fn(int, int) -> u8) -> Seq<u8> {
    Seq::new((width * height) as nat, |i: int| sample(i / width, i % width))
}

/// The three planes of an RGBA image: full-size luma, then U and V at half the
/// width and height.
pub open spec fn i420(rgba: Seq<u8>, width: int, height: int) -> Seq<u8> {
    plane(width, height, |row: int, col: int| y_sample(rgba, width, height, row, col)) + plane(
        width / 2,
        height / 2,
        |row: int, col: int| u_sample(rgba, width, row, col),
    ) + plane(width / 2, height / 2, |row: int, col: int| v_sample(rgba, width, row, col))
}

/// Whether `len` bytes hold the colours of every block of four pixels of the image.
pub open spec fn covers(len: int, width: int, height: int) -> bool {
    width / 2 > 0 && height / 2 > 0 ==> len >= ((height / 2 * 2 - 1) * width + width / 2 * 2) * 4
        - 1
}

proof fn lemma_offset(len: int, width: int, rows: int, cols: int, row: int, col: int)
    requires
        0 <= row < rows,
        0 <= col < cols,
        0 <= width,
        len >= ((rows - 1) * width + cols) * 4 - 1,
    ensures
        0 <= row * width,
        0 <= (row * width + col) * 4,
        (row * width + col) * 4 + 2 < len,
{
    lemma_mul_inequality(row, rows - 1, width);
    lemma_mul_inequality(0, row, width);
}

/// The place of (`row`, `col`) in a plane, and back.
proof fn lemma_place(width: int, height: int, row: int, col: int)
    requires
        0 <= row < height,
        0 <= col < width,
    ensures
        0 <= row * width + col < width * height,
        (row * width + col) / width == row,
        (row * width + col) % width == col,
{
    lemma_fundamental_div_mod_converse(row * width + col, width, row, col);
    lemma_mul_inequality(row, height - 1, width);
    lemma_mul_inequality(0, row, width);
    assert((height - 1) * width == height * width - width) by (nonlinear_arith);
    lemma_mul_is_commutative(width, height);
}

fn pixel_luma(rgba: &[u8], width: usize, row: usize, col: usize) -> (y: u8)
    requires
        0 <= row * width,
        (row * width + col) * 4 + 2 < rgba@.len(),
    ensures
        y == spec_luma(
            channel(rgba@, width as int, row as int, col as int, 0),
            channel(rgba@, width as int, row as int, col as int, 1),
            channel(rgba@, width as int, row as int, col as int, 2),
        ) as u8,
{
    assert(rgba.len() == rgba@.len());
    let base: usize = (row * width + col) * 4;
    luma(rgba[base] as i32, rgba[base + 1] as i32, rgba[base + 2] as i32)
}

/// The average of one channel over a block of four pixels.
fn average(rgba: &[u8], width: usize, row: usize, col: usize, c: usize) -> (a: i32)
    requires
        width / 2 > col,
        c < 3,
        rgba@.len() >= ((2 * row + 1) * width + width / 2 * 2) * 4 - 1,
    ensures
        a == block_average(rgba@, width as int, row as int, col as int, c as int),
        0 <= a <= 255,
{
    proof {
        let len = rgba.len() as int;
        let w = width as int;
        lemma_offset(len, w, 2 * row + 2, w / 2 * 2, 2 * row as int, 2 * col as int);
        lemma_offset(len, w, 2 * row + 2, w / 2 * 2, 2 * row as int, 2 * col + 1);
        lemma_offset(len, w, 2 * row + 2, w / 2 * 2, 2 * row + 1, 2 * col as int);
        lemma_offset(len, w, 2 * row + 2, w / 2 * 2, 2 * row + 1, 2 * col + 1);
        lemma_mul_inequality(1, w, 2 * row as int);
        lemma_mul_is_commutative(w, 2 * row as int);
        assert((2 * row + 1) * w == 2 * row * w + w) by (nonlinear_arith);
    }
    let s0: usize = (2 * row * width + 2 * col) * 4 + c;
    let s1: usize = ((2 * row + 1) * width + 2 * col) * 4 + c;
    let sum: i32 = rgba[s0] as i32 + rgba[s0 + 4] as i32 + rgba[s1] as i32 + rgba[s1 + 4] as i32
        + 2;
    sum / 4
}

/// Converts an RGBA image to I420 planes, at the same size.
pub fn rgba_to_i420(rgba: &[u8], width: usize, height: usize, planes: &mut Vec<u8>)
    requires
        i420_len(width as int, height as int) <= usize::MAX,
        covers(rgba@.len() as int, width as int, height as int),
    ensures
        final(planes)@ == i420(rgba@, width as int, height as int),
        final(planes)@.len() == i420_len(width as int, height as int),
{
    let ghost w = width as int;
    let ghost h = height as int;
    let ghost len = rgba@.len() as int;
    let ghost ys = plane(w, h, |row: int, col: int| y_sample(rgba@, w, h, row, col));
    let ghost us = plane(w / 2, h / 2, |row: int, col: int| u_sample(rgba@, w, row, col));
    let ghost vs = plane(w / 2, h / 2, |row: int, col: int| v_sample(rgba@, w, row, col));
    let half: usize = width / 2;
    proof {
        assert(0 <= w * h && 0 <= (w / 2) * (h / 2)) by (nonlinear_arith)
            requires
                0 <= w,
                0 <= h,
        ;
    }
    planes.clear();
    let mut row: usize = 0;
    while row < height
        invariant
            w == width,
            h == height,
            len == rgba@.len(),
            row <= height,
            covers(len, w, h),
            0 <= w * h,
            ys == plane(w, h, |row: int, col: int| y_sample(rgba@, w, h, row, col)),
            planes@.len() == row * w,
            planes@ == ys.take(row * w),
        decreases height - row,
    {
        proof {
            lemma_mul_inequality(row as int, h, w);
            lemma_mul_is_commutative(w, h);
        }
        let mut col: usize = 0;
        while col < width
            invariant
                w == width,
                h == height,
                len == rgba@.len(),
                row < height,
                col <= width,
                covers(len, w, h),
                0 <= w * h,
                ys == plane(w, h, |row: int, col: int| y_sample(rgba@, w, h, row, col)),
                planes@.len() == row * w + col,
                row * w + col <= w * h,
                planes@ == ys.take(row * w + col),
            decreases width - col,
        {
            proof {
                lemma_place(w, h, row as int, col as int);
            }
            let value: u8 = if row < height / 2 * 2 && col < width / 2 * 2 {
                proof {
                    lemma_offset(len, w, h / 2 * 2, w / 2 * 2, row as int, col as int);
                }
                pixel_luma(rgba, width, row, col)
            } else {
                0
            };
            assert(value == ys[row * w + col]);
            planes.push(value);
            col += 1;
        }
        row += 1;
        assert(row * w == (row - 1) * w + w) by (nonlinear_arith);
    }
    assert(h * w == w * h) by (nonlinear_arith);
    assert(planes@ == ys);
    let mut v: Vec<u8> = Vec::new();
    let mut block_row: usize = 0;
    while block_row < height / 2
        invariant
            w == width,
            h == height,
            half == width / 2,
            len == rgba@.len(),
            block_row <= h / 2,
            covers(len, w, h),
            us == plane(w / 2, h / 2, |row: int, col: int| u_sample(rgba@, w, row, col)),
            vs == plane(w / 2, h / 2, |row: int, col: int| v_sample(rgba@, w, row, col)),
            planes@ == ys + us.take(block_row * (w / 2)),
            v@ == vs.take(block_row * (w / 2)),
        decreases height / 2 - block_row,
    {
        let mut block_col: usize = 0;
        while block_col < half
            invariant
                w == width,
                h == height,
                half == width / 2,
                len == rgba@.len(),
                block_row < h / 2,
                block_col <= w / 2,
                covers(len, w, h),
                us == plane(w / 2, h / 2, |row: int, col: int| u_sample(rgba@, w, row, col)),
                vs == plane(w / 2, h / 2, |row: int, col: int| v_sample(rgba@, w, row, col)),
                planes@ == ys + us.take(block_row * (w / 2) + block_col),
                v@ == vs.take(block_row * (w / 2) + block_col),
            decreases half - block_col,
        {
            proof {
                lemma_place(w / 2, h / 2, block_row as int, block_col as int);
                lemma_mul_inequality(2 * block_row + 1, h / 2 * 2 - 1, w);
            }
            let r: i32 = average(rgba, width, block_row, block_col, 0);
            let g: i32 = average(rgba, width, block_row, block_col, 1);
            let b: i32 = average(rgba, width, block_row, block_col, 2);
            let ghost at = block_row * (w / 2) + block_col;
            let u_value: u8 = chroma_u(r, g, b);
            let v_value: u8 = chroma_v(r, g, b);
            assert(u_value == us[at]);
            assert(v_value == vs[at]);
            planes.push(u_value);
            v.push(v_value);
            assert(us.take(at + 1) == us.take(at).push(us[at]));
            assert(vs.take(at + 1) == vs.take(at).push(vs[at]));
            block_col += 1;
        }
        block_row += 1;
        assert(block_row * (w / 2) == (block_row - 1) * (w / 2) + w / 2) by (nonlinear_arith);
    }
    assert((h / 2) * (w / 2) == (w / 2) * (h / 2)) by (nonlinear_arith);
    assert(us.take((w / 2) * (h / 2)) == us);
    assert(vs.take((w / 2) * (h / 2)) == vs);
    planes.append(&mut v);
}

/// The first source line (row or column) that line `d` of the scaled image shows.
pub open spec fn line_from(d: int, src: int, dst: int) -> int {
    d * src / dst
}

/// One past the last source line that line `d` of the scaled image shows: where
/// the next one starts, but at least one line, and none past the source.
pub open spec fn line_to(d: int, src: int, dst: int) -> int {
    let next = (d + 1) * src / dst;
    let at_least = if next > line_from(d, src, dst) {
        next
    } else {
        line_from(d, src, dst) + 1
    };
    if at_least < src {
        at_least
    } else {
        src
    }
}

/// The most source lines that one line of the scaled image can show.
pub open spec fn max_lines(src: int, dst: int) -> int {
    if src <= dst {
        1
    } else {
        (src + dst - 1) / dst
    }
}

/// The sum of a channel over the columns `from..to` of a row.
pub open spec fn row_sum(rgba: Seq<u8>, width: int, row: int, from: int, to: int, c: int) -> int
    decreases to - from,
{
    if to <= from {
        0
    } else {
        row_sum(rgba, width, row, from, to - 1, c) + channel(rgba, width, row, to - 1, c)
    }
}

/// The sum of a channel over the rows `top..bottom` and the columns `from..to`.
pub open spec fn area_sum(
    rgba: Seq<u8>,
    width: int,
    top: int,
    bottom: int,
    from: int,
    to: int,
    c: int,
) -> int
    decreases bottom - top,
{
    if bottom <= top {
        0
    } else {
        area_sum(rgba, width, top, bottom - 1, from, to, c) + row_sum(
            rgba,
            width,
            bottom - 1,
            from,
            to,
            c,
        )
    }
}

/// A source image and the size that it is scaled to.
pub struct Scaling {
    pub src_width: int,
    pub src_height: int,
    pub dst_width: int,
    pub dst_height: int,
}

impl Scaling {
    /// How many source pixels one pixel of the scaled image shows.
    pub open spec fn pixel_count(self, row: int, col: int) -> int {
        (line_to(row, self.src_height, self.dst_height) - line_from(
            row,
            self.src_height,
            self.dst_height,
        )) * (line_to(col, self.src_width, self.dst_width) - line_from(
            col,
            self.src_width,
            self.dst_width,
        ))
    }

    /// The sum of a channel over these source pixels.
    pub open spec fn pixel_sum(self, rgba: Seq<u8>, row: int, col: int, c: int) -> int {
        area_sum(
            rgba,
            self.src_width,
            line_from(row, self.src_height, self.dst_height),
            line_to(row, self.src_height, self.dst_height),
            line_from(col, self.src_width, self.dst_width),
            line_to(col, self.src_width, self.dst_width),
            c,
        )
    }

    /// A channel averaged over the source pixels that one pixel of the scaled
    /// image shows; 0 where there is none.
    #[verifier::opaque]
    pub open spec fn average(self, rgba: Seq<u8>, row: int, col: int, c: int) -> int {
        let count = self.pixel_count(row, col);
        self.pixel_sum(rgba, row, col, c) / (if count < 1 {
            1
        } else {
            count
        })
    }

    pub open spec fn y_sample(self, rgba: Seq<u8>, row: int, col: int) -> u8 {
        if row < self.dst_height / 2 * 2 && col < self.dst_width / 2 * 2 {
            spec_luma(
                self.average(rgba, row, col, 0),
                self.average(rgba, row, col, 1),
                self.average(rgba, row, col, 2),
            ) as u8
        } else {
            0
        }
    }

    /// A channel averaged over a block of four pixels of the scaled image,
    /// rounded down.
    pub open spec fn block_average(self, rgba: Seq<u8>, row: int, col: int, c: int) -> int {
        (self.average(rgba, 2 * row, 2 * col, c) + self.average(rgba, 2 * row, 2 * col + 1, c)
            + self.average(rgba, 2 * row + 1, 2 * col, c) + self.average(
            rgba,
            2 * row + 1,
            2 * col + 1,
            c,
        )) / 4
    }

    pub open spec fn u_sample(self, rgba: Seq<u8>, row: int, col: int) -> u8 {
        spec_chroma_u(
            self.block_average(rgba, row, col, 0),
            self.block_average(rgba, row, col, 1),
            self.block_average(rgba, row, col, 2),
        ) as u8
    }

    pub open spec fn v_sample(self, rgba: Seq<u8>, row: int, col: int) -> u8 {
        spec_chroma_v(
            self.block_average(rgba, row, col, 0),
            self.block_average(rgba, row, col, 1),
            self.block_average(rgba, row, col, 2),
        ) as u8
    }

    /// The three planes of the scaled image.
    pub open spec fn i420(self, rgba: Seq<u8>) -> Seq<u8> {
        plane(
            self.dst_width,
            self.dst_height,
            |row: int, col: int| self.y_sample(rgba, row, col),
        ) + plane(
            self.dst_width / 2,
            self.dst_height / 2,
            |row: int, col: int| self.u_sample(rgba, row, col),
        ) + plane(
            self.dst_width / 2,
            self.dst_height / 2,
            |row: int, col: int| self.v_sample(rgba, row, col),
        )
    }

    /// Whether the scaled image holds a block of four pixels at all.
    pub open spec fn has_blocks(self) -> bool {
        self.dst_width / 2 > 0 && self.dst_height / 2 > 0
    }

    /// Whether `len` bytes hold every source pixel that the scaled image shows.
    pub open spec fn covered_by(self, len: int) -> bool {
        let rows = line_to(self.dst_height / 2 * 2 - 1, self.src_height, self.dst_height);
        let cols = line_to(self.dst_width / 2 * 2 - 1, self.src_width, self.dst_width);
        self.has_blocks() && rows > 0 && cols > 0 ==> len >= ((rows - 1) * self.src_width + cols)
            * 4 - 1
    }

    /// Whether the positions stay within the machine's integers.
    pub open spec fn positions_fit(self) -> bool {
        &&& i420_len(self.dst_width, self.dst_height) <= usize::MAX
        &&& self.has_blocks() ==> {
            &&& self.dst_height / 2 * 2 * self.src_height <= usize::MAX
            &&& self.dst_width / 2 * 2 * self.src_width <= usize::MAX
        }
    }

    /// Whether the count and the sums of one pixel stay within the machine's integers.
    pub open spec fn pixel_fits(self, rgba: Seq<u8>, row: int, col: int) -> bool {
        &&& self.pixel_count(row, col) <= i32::MAX
        &&& self.pixel_sum(rgba, row, col, 0) <= i32::MAX
        &&& self.pixel_sum(rgba, row, col, 1) <= i32::MAX
        &&& self.pixel_sum(rgba, row, col, 2) <= i32::MAX
    }

    /// Whether the positions and the sums of an image stay within the machine's
    /// integers.
    pub open spec fn fits_for(self, rgba: Seq<u8>) -> bool {
        &&& self.positions_fit()
        &&& forall|row: int, col: int|
            0 <= row < self.dst_height / 2 * 2 && 0 <= col < self.dst_width / 2 * 2
                ==> #[trigger] self.pixel_fits(rgba, row, col)
    }

    /// Whether the positions and the sums of every image of this size stay within the
    /// machine's integers.
    pub open spec fn fits(self) -> bool {
        &&& self.positions_fit()
        &&& self.has_blocks() ==> max_lines(self.src_height, self.dst_height) * max_lines(
            self.src_width,
            self.dst_width,
        ) * 255 <= i32::MAX
    }
}

/// The scaling between two sizes that the machine can hold.
pub open spec fn scaling_of(
    src_width: usize,
    src_height: usize,
    dst_width: usize,
    dst_height: usize,
) -> Scaling {
    Scaling {
        src_width: src_width as int,
        src_height: src_height as int,
        dst_width: dst_width as int,
        dst_height: dst_height as int,
    }
}

/// The source lines of one scaled line lie inside the source, and they are few.
proof fn lemma_lines(d: int, src: int, dst: int)
    requires
        0 <= d < dst,
        0 <= src,
    ensures
        0 <= line_from(d, src, dst) <= line_to(d, src, dst) <= src,
        src > 0 ==> line_from(d, src, dst) < line_to(d, src, dst),
        line_to(d, src, dst) - line_from(d, src, dst) <= max_lines(src, dst),
        0 <= d * src,
        0 <= (d + 1) * src,
{
    let from = line_from(d, src, dst);
    lemma_mul_inequality(0, d, src);
    assert((d + 1) * src == d * src + src) by (nonlinear_arith);
    assert(d * src / dst >= 0) by (nonlinear_arith)
        requires
            0 <= d * src,
            0 < dst,
    ;
    if src > 0 {
        assert(d * src < dst * src) by (nonlinear_arith)
            requires
                d < dst,
                0 < src,
        ;
        lemma_mul_is_commutative(dst, src);
        lemma_multiply_divide_lt(d * src, dst, src);
    } else {
        assert(d * src == 0 && 0int / dst == 0) by (nonlinear_arith)
            requires
                src == 0,
                dst > 0,
        ;
    }
    let most = max_lines(src, dst);
    assert(src <= most * dst) by {
        if src > dst {
            lemma_fundamental_div_mod(src + dst - 1, dst);
            lemma_mul_is_commutative(most, dst);
        }
    }
    let next = (d + 1) * src / dst;
    lemma_div_is_ordered((d + 1) * src, d * src + most * dst, dst);
    lemma_fundamental_div_mod(d * src, dst);
    let q = d * src / dst;
    let m = d * src % dst;
    assert(d * src + most * dst == (q + most) * dst + m) by (nonlinear_arith)
        requires
            d * src == dst * q + m,
    ;
    assert(0 <= m < dst) by (nonlinear_arith)
        requires
            m == d * src % dst,
            0 < dst,
    ;
    lemma_fundamental_div_mod_converse(d * src + most * dst, dst, q + most, m);
    lemma_max_lines(src, dst);
}

/// Later lines of the scaled image end no earlier in the source.
proof fn lemma_lines_ordered(d: int, e: int, src: int, dst: int)
    requires
        0 <= d <= e < dst,
        0 <= src,
    ensures
        line_to(d, src, dst) <= line_to(e, src, dst),
        (d + 1) * src <= (e + 1) * src,
{
    lemma_mul_inequality(d, e, src);
    lemma_mul_inequality(d + 1, e + 1, src);
    lemma_div_is_ordered(d * src, e * src, dst);
    lemma_div_is_ordered((d + 1) * src, (e + 1) * src, dst);
}

/// An average of bytes is a byte.
proof fn lemma_average_is_byte(sum: int, count: int)
    requires
        0 <= sum <= 255 * count,
        0 <= count,
    ensures
        0 <= sum / (if count < 1 {
            1
        } else {
            count
        }) <= 255,
{
    let n = if count < 1 {
        1
    } else {
        count
    };
    assert(0 <= sum / n <= 255) by (nonlinear_arith)
        requires
            0 <= sum <= 255 * n,
            n >= 1,
    ;
}

/// The source lines that one line of the scaled image shows.
fn source_lines(d: usize, src: usize, dst: usize) -> (lines: (usize, usize))
    requires
        d < dst,
        (d + 1) * src <= usize::MAX,
    ensures
        lines.0 == line_from(d as int, src as int, dst as int),
        lines.1 == line_to(d as int, src as int, dst as int),
{
    proof {
        lemma_lines(d as int, src as int, dst as int);
        assert((d + 1) * src == d * src + src) by (nonlinear_arith);
    }
    let from: usize = d * src / dst;
    let next: usize = (d + 1) * src / dst;
    let at_least: usize = if next > from {
        next
    } else {
        from + 1
    };
    let to: usize = if at_least < src {
        at_least
    } else {
        src
    };
    (from, to)
}

/// More columns have no smaller sum, and a sum of bytes is no more than 255 for each.
proof fn lemma_row_sum(
    rgba: Seq<u8>,
    width: int,
    row: int,
    from: int,
    mid: int,
    to: int,
    c: int,
)
    requires
        from <= mid <= to,
    ensures
        0 <= row_sum(rgba, width, row, from, mid, c) <= row_sum(rgba, width, row, from, to, c),
        row_sum(rgba, width, row, from, to, c) <= 255 * (to - from),
    decreases to - from,
{
    if mid < to {
        lemma_row_sum(rgba, width, row, from, mid, to - 1, c);
    } else if from < to {
        lemma_row_sum(rgba, width, row, from, to - 1, to - 1, c);
    }
}

/// More rows have no smaller sum, and a sum of bytes is no more than 255 for each.
proof fn lemma_area_sum(
    rgba: Seq<u8>,
    width: int,
    top: int,
    mid: int,
    bottom: int,
    from: int,
    to: int,
    c: int,
)
    requires
        top <= mid <= bottom,
        from <= to,
    ensures
        0 <= area_sum(rgba, width, top, mid, from, to, c) <= area_sum(
            rgba,
            width,
            top,
            bottom,
            from,
            to,
            c,
        ),
        area_sum(rgba, width, top, bottom, from, to, c) <= 255 * ((bottom - top) * (to - from)),
    decreases bottom - top,
{
    if top < bottom {
        let above = if mid < bottom {
            mid
        } else {
            bottom - 1
        };
        lemma_area_sum(rgba, width, top, above, bottom - 1, from, to, c);
        lemma_row_sum(rgba, width, bottom - 1, from, to, to, c);
        assert((bottom - top) * (to - from) == (bottom - 1 - top) * (to - from) + (to - from))
            by (nonlinear_arith);
    } else {
        assert((bottom - top) * (to - from) == 0) by (nonlinear_arith)
            requires
                bottom == top,
        ;
    }
}

/// What fits for every image fits for each.
proof fn lemma_fits(scaling: Scaling, rgba: Seq<u8>)
    requires
        scaling.fits(),
        0 <= scaling.src_width,
        0 <= scaling.src_height,
    ensures
        scaling.fits_for(rgba),
{
    let (sw, sh) = (scaling.src_width, scaling.src_height);
    let (dw, dh) = (scaling.dst_width, scaling.dst_height);
    assert forall|row: int, col: int|
        0 <= row < dh / 2 * 2 && 0 <= col < dw / 2 * 2 implies #[trigger] scaling.pixel_fits(
        rgba,
        row,
        col,
    ) by {
        lemma_lines(row, sh, dh);
        lemma_lines(col, sw, dw);
        let (top, bottom) = (line_from(row, sh, dh), line_to(row, sh, dh));
        let (from, to) = (line_from(col, sw, dw), line_to(col, sw, dw));
        let (tall, wide) = (bottom - top, to - from);
        let (rows, cols) = (max_lines(sh, dh), max_lines(sw, dw));
        assert(0 <= tall * wide <= rows * cols) by (nonlinear_arith)
            requires
                0 <= tall <= rows,
                0 <= wide <= cols,
        ;
        lemma_area_sum(rgba, sw, top, bottom, bottom, from, to, 0);
        lemma_area_sum(rgba, sw, top, bottom, bottom, from, to, 1);
        lemma_area_sum(rgba, sw, top, bottom, bottom, from, to, 2);
    }
}

/// The sums of the three channels over an area, if none is more than an `i32` holds.
fn area_sums(
    rgba: &[u8],
    width: usize,
    top: usize,
    bottom: usize,
    from: usize,
    to: usize,
) -> (sums: Option<(u32, u32, u32)>)
    requires
        top <= bottom,
        from <= to,
        (bottom - top) * (to - from) <= i32::MAX,
        top < bottom && from < to ==> rgba@.len() >= ((bottom - 1) * width + to) * 4 - 1,
    ensures
        ({
            let r = area_sum(
                rgba@,
                width as int,
                top as int,
                bottom as int,
                from as int,
                to as int,
                0,
            );
            let g = area_sum(
                rgba@,
                width as int,
                top as int,
                bottom as int,
                from as int,
                to as int,
                1,
            );
            let b = area_sum(
                rgba@,
                width as int,
                top as int,
                bottom as int,
                from as int,
                to as int,
                2,
            );
            match sums {
                Some(found) => {
                    &&& found.0 == r && found.1 == g && found.2 == b
                    &&& r <= i32::MAX && g <= i32::MAX && b <= i32::MAX
                },
                None => r > i32::MAX || g > i32::MAX || b > i32::MAX,
            }
        }),
{
    let ghost sw = width as int;
    let ghost len = rgba.len() as int;
    let most: u64 = i32::MAX as u64;
    let mut r_sum: u64 = 0;
    let mut g_sum: u64 = 0;
    let mut b_sum: u64 = 0;
    let mut sy: usize = top;
    while sy < bottom
        invariant
            top <= sy <= bottom,
            from <= to,
            sw == width,
            len == rgba@.len(),
            len == rgba.len(),
            most == i32::MAX,
            (bottom - top) * (to - from) <= i32::MAX,
            top < bottom && from < to ==> len >= ((bottom - 1) * sw + to) * 4 - 1,
            r_sum == area_sum(rgba@, sw, top as int, sy as int, from as int, to as int, 0),
            g_sum == area_sum(rgba@, sw, top as int, sy as int, from as int, to as int, 1),
            b_sum == area_sum(rgba@, sw, top as int, sy as int, from as int, to as int, 2),
            r_sum <= i32::MAX,
            g_sum <= i32::MAX,
            b_sum <= i32::MAX,
        decreases bottom - sy,
    {
        let ghost r_above = r_sum as int;
        let ghost g_above = g_sum as int;
        let ghost b_above = b_sum as int;
        assert(to - from <= i32::MAX) by (nonlinear_arith)
            requires
                (bottom - top) * (to - from) <= i32::MAX,
                bottom - top >= 1,
                to - from >= 0,
        ;
        let mut sx: usize = from;
        while sx < to
            invariant
                top <= sy < bottom,
                from <= sx <= to,
                to - from <= i32::MAX,
                sw == width,
                len == rgba@.len(),
                len == rgba.len(),
                top < bottom && from < to ==> len >= ((bottom - 1) * sw + to) * 4 - 1,
                r_above <= i32::MAX,
                g_above <= i32::MAX,
                b_above <= i32::MAX,
                r_sum == r_above + row_sum(rgba@, sw, sy as int, from as int, sx as int, 0),
                g_sum == g_above + row_sum(rgba@, sw, sy as int, from as int, sx as int, 1),
                b_sum == b_above + row_sum(rgba@, sw, sy as int, from as int, sx as int, 2),
                r_sum <= r_above + 255 * (sx - from),
                g_sum <= g_above + 255 * (sx - from),
                b_sum <= b_above + 255 * (sx - from),
            decreases to - sx,
        {
            proof {
                lemma_offset(len, sw, bottom as int, to as int, sy as int, sx as int);
            }
            let base: usize = (sy * width + sx) * 4;
            r_sum += rgba[base] as u64;
            g_sum += rgba[base + 1] as u64;
            b_sum += rgba[base + 2] as u64;
            sx += 1;
        }
        sy += 1;
        proof {
            let (t, m, b) = (top as int, sy as int, bottom as int);
            lemma_area_sum(rgba@, sw, t, m, b, from as int, to as int, 0);
            lemma_area_sum(rgba@, sw, t, m, b, from as int, to as int, 1);
            lemma_area_sum(rgba@, sw, t, m, b, from as int, to as int, 2);
        }
        if r_sum > most || g_sum > most || b_sum > most {
            return None;
        }
    }
    Some((r_sum as u32, g_sum as u32, b_sum as u32))
}

/// The source pixels of one pixel of the scaled image lie in the image.
proof fn lemma_pixel_covered(scaling: Scaling, len: int, row: int, col: int)
    requires
        scaling.positions_fit(),
        scaling.covered_by(len),
        0 <= scaling.src_width,
        0 <= scaling.src_height,
        0 <= row < scaling.dst_height / 2 * 2,
        0 <= col < scaling.dst_width / 2 * 2,
    ensures
        (row + 1) * scaling.src_height <= usize::MAX,
        (col + 1) * scaling.src_width <= usize::MAX,
        ({
            let top = line_from(row, scaling.src_height, scaling.dst_height);
            let bottom = line_to(row, scaling.src_height, scaling.dst_height);
            let from = line_from(col, scaling.src_width, scaling.dst_width);
            let to = line_to(col, scaling.src_width, scaling.dst_width);
            &&& 0 <= top <= bottom
            &&& 0 <= from <= to
            &&& 0 <= (bottom - top) * (to - from)
            &&& top < bottom && from < to ==> len >= ((bottom - 1) * scaling.src_width + to) * 4 - 1
        }),
{
    let (sw, sh) = (scaling.src_width, scaling.src_height);
    let (dw, dh) = (scaling.dst_width, scaling.dst_height);
    lemma_lines(row, sh, dh);
    lemma_lines(col, sw, dw);
    lemma_lines_ordered(row, dh / 2 * 2 - 1, sh, dh);
    lemma_lines_ordered(col, dw / 2 * 2 - 1, sw, dw);
    let (top, bottom) = (line_from(row, sh, dh), line_to(row, sh, dh));
    let (from, to) = (line_from(col, sw, dw), line_to(col, sw, dw));
    let rows = line_to(dh / 2 * 2 - 1, sh, dh);
    lemma_mul_inequality(bottom - 1, rows - 1, sw);
    assert(0 <= (bottom - top) * (to - from)) by (nonlinear_arith)
        requires
            top <= bottom,
            from <= to,
    ;
}

/// The average colour of the source pixels that one pixel of the scaled image shows.
fn scaled_pixel(
    rgba: &[u8],
    src_width: usize,
    src_height: usize,
    dst_width: usize,
    dst_height: usize,
    row: usize,
    col: usize,
    Ghost(scaling): Ghost<Scaling>,
) -> (rgb: (i32, i32, i32))
    requires
        scaling == scaling_of(src_width, src_height, dst_width, dst_height),
        scaling.fits_for(rgba@),
        scaling.covered_by(rgba@.len() as int),
        row < dst_height / 2 * 2,
        col < dst_width / 2 * 2,
    ensures
        rgb.0 == scaling.average(rgba@, row as int, col as int, 0),
        rgb.1 == scaling.average(rgba@, row as int, col as int, 1),
        rgb.2 == scaling.average(rgba@, row as int, col as int, 2),
        0 <= rgb.0 <= 255,
        0 <= rgb.1 <= 255,
        0 <= rgb.2 <= 255,
{
    proof {
        lemma_pixel_covered(scaling, rgba@.len() as int, row as int, col as int);
        assert(scaling.pixel_fits(rgba@, row as int, col as int));
    }
    let (top, bottom) = source_lines(row, src_height, dst_height);
    let (from, to) = source_lines(col, src_width, dst_width);
    let count: usize = (bottom - top) * (to - from);
    let (r_sum, g_sum, b_sum) = match area_sums(rgba, src_width, top, bottom, from, to) {
        Some(sums) => sums,
        None => (0, 0, 0),
    };
    proof {
        let (sw, t, b) = (src_width as int, top as int, bottom as int);
        lemma_area_sum(rgba@, sw, t, b, b, from as int, to as int, 0);
        lemma_area_sum(rgba@, sw, t, b, b, from as int, to as int, 1);
        lemma_area_sum(rgba@, sw, t, b, b, from as int, to as int, 2);
        lemma_average_is_byte(r_sum as int, count as int);
        lemma_average_is_byte(g_sum as int, count as int);
        lemma_average_is_byte(b_sum as int, count as int);
    }
    let n: u32 = if count < 1 {
        1
    } else {
        count as u32
    };
    reveal(Scaling::average);
    ((r_sum / n) as i32, (g_sum / n) as i32, (b_sum / n) as i32)
}

/// The chroma of a block of four pixels of the scaled image.
fn scaled_chroma(
    rgba: &[u8],
    src_width: usize,
    src_height: usize,
    dst_width: usize,
    dst_height: usize,
    block_row: usize,
    block_col: usize,
    Ghost(scaling): Ghost<Scaling>,
) -> (uv: (u8, u8))
    requires
        scaling == scaling_of(src_width, src_height, dst_width, dst_height),
        scaling.fits_for(rgba@),
        scaling.covered_by(rgba@.len() as int),
        block_row < dst_height / 2,
        block_col < dst_width / 2,
    ensures
        uv.0 == scaling.u_sample(rgba@, block_row as int, block_col as int),
        uv.1 == scaling.v_sample(rgba@, block_row as int, block_col as int),
{
    let (y, x): (usize, usize) = (2 * block_row, 2 * block_col);
    let a = scaled_pixel(
        rgba,
        src_width,
        src_height,
        dst_width,
        dst_height,
        y,
        x,
        Ghost(scaling),
    );
    let b = scaled_pixel(
        rgba,
        src_width,
        src_height,
        dst_width,
        dst_height,
        y,
        x + 1,
        Ghost(scaling),
    );
    let c = scaled_pixel(
        rgba,
        src_width,
        src_height,
        dst_width,
        dst_height,
        y + 1,
        x,
        Ghost(scaling),
    );
    let d = scaled_pixel(
        rgba,
        src_width,
        src_height,
        dst_width,
        dst_height,
        y + 1,
        x + 1,
        Ghost(scaling),
    );
    let red: i32 = (a.0 + b.0 + c.0 + d.0) / 4;
    let green: i32 = (a.1 + b.1 + c.1 + d.1) / 4;
    let blue: i32 = (a.2 + b.2 + c.2 + d.2) / 4;
    (chroma_u(red, green, blue), chroma_v(red, green, blue))
}

/// Scales an RGBA image to another size, each pixel the average of the source
/// pixels that it shows, and converts it to I420 planes.
pub fn rgba_to_i420_scaled(
    rgba: &[u8],
    src_width: usize,
    src_height: usize,
    dst_width: usize,
    dst_height: usize,
    planes: &mut Vec<u8>,
)
    requires
        scaling_of(src_width, src_height, dst_width, dst_height).fits_for(rgba@),
        scaling_of(src_width, src_height, dst_width, dst_height).covered_by(rgba@.len() as int),
    ensures
        final(planes)@ == scaling_of(src_width, src_height, dst_width, dst_height).i420(rgba@),
        final(planes)@.len() == i420_len(dst_width as int, dst_height as int),
{
    let ghost s = scaling_of(src_width, src_height, dst_width, dst_height);
    let ghost w = dst_width as int;
    let ghost h = dst_height as int;
    let ghost len = rgba@.len() as int;
    let ghost ys = plane(w, h, |row: int, col: int| s.y_sample(rgba@, row, col));
    let ghost us = plane(w / 2, h / 2, |row: int, col: int| s.u_sample(rgba@, row, col));
    let ghost vs = plane(w / 2, h / 2, |row: int, col: int| s.v_sample(rgba@, row, col));
    let half: usize = dst_width / 2;
    proof {
        assert(0 <= w * h && 0 <= (w / 2) * (h / 2)) by (nonlinear_arith)
            requires
                0 <= w,
                0 <= h,
        ;
    }
    planes.clear();
    let mut row: usize = 0;
    while row < dst_height
        invariant
            w == dst_width,
            h == dst_height,
            s == scaling_of(src_width, src_height, dst_width, dst_height),
            s.fits_for(rgba@),
            s.covered_by(rgba@.len() as int),
            row <= dst_height,
            0 <= w * h,
            ys == plane(w, h, |row: int, col: int| s.y_sample(rgba@, row, col)),
            planes@.len() == row * w,
            planes@ == ys.take(row * w),
        decreases dst_height - row,
    {
        proof {
            lemma_mul_inequality(row as int, h, w);
            lemma_mul_is_commutative(w, h);
        }
        let mut col: usize = 0;
        while col < dst_width
            invariant
                w == dst_width,
                h == dst_height,
                s == scaling_of(src_width, src_height, dst_width, dst_height),
                s.fits_for(rgba@),
                s.covered_by(rgba@.len() as int),
                row < dst_height,
                col <= dst_width,
                0 <= w * h,
                ys == plane(w, h, |row: int, col: int| s.y_sample(rgba@, row, col)),
                planes@.len() == row * w + col,
                row * w + col <= w * h,
                planes@ == ys.take(row * w + col),
            decreases dst_width - col,
        {
            proof {
                lemma_place(w, h, row as int, col as int);
            }
            let value: u8 = if row < dst_height / 2 * 2 && col < dst_width / 2 * 2 {
                let (r, g, b) = scaled_pixel(
                    rgba,
                    src_width,
                    src_height,
                    dst_width,
                    dst_height,
                    row,
                    col,
                    Ghost(s),
                );
                luma(r, g, b)
            } else {
                0
            };
            assert(value == ys[row * w + col]);
            planes.push(value);
            col += 1;
        }
        row += 1;
        assert(row * w == (row - 1) * w + w) by (nonlinear_arith);
    }
    assert(h * w == w * h) by (nonlinear_arith);
    assert(planes@ == ys);
    let mut v: Vec<u8> = Vec::new();
    let mut block_row: usize = 0;
    while block_row < dst_height / 2
        invariant
            w == dst_width,
            h == dst_height,
            half == dst_width / 2,
            s == scaling_of(src_width, src_height, dst_width, dst_height),
            s.fits_for(rgba@),
            s.covered_by(rgba@.len() as int),
            block_row <= h / 2,
            us == plane(w / 2, h / 2, |row: int, col: int| s.u_sample(rgba@, row, col)),
            vs == plane(w / 2, h / 2, |row: int, col: int| s.v_sample(rgba@, row, col)),
            planes@ == ys + us.take(block_row * (w / 2)),
            v@ == vs.take(block_row * (w / 2)),
        decreases dst_height / 2 - block_row,
    {
        let mut block_col: usize = 0;
        while block_col < half
            invariant
                w == dst_width,
                h == dst_height,
                half == dst_width / 2,
                s == scaling_of(src_width, src_height, dst_width, dst_height),
                s.fits_for(rgba@),
                s.covered_by(rgba@.len() as int),
                block_row < h / 2,
                block_col <= w / 2,
                us == plane(w / 2, h / 2, |row: int, col: int| s.u_sample(rgba@, row, col)),
                vs == plane(w / 2, h / 2, |row: int, col: int| s.v_sample(rgba@, row, col)),
                planes@ == ys + us.take(block_row * (w / 2) + block_col),
                v@ == vs.take(block_row * (w / 2) + block_col),
            decreases half - block_col,
        {
            proof {
                lemma_place(w / 2, h / 2, block_row as int, block_col as int);
            }
            let (u_value, v_value) = scaled_chroma(
                rgba,
                src_width,
                src_height,
                dst_width,
                dst_height,
                block_row,
                block_col,
                Ghost(s),
            );
            let ghost at = block_row * (w / 2) + block_col;
            assert(u_value == us[at]);
            assert(v_value == vs[at]);
            planes.push(u_value);
            v.push(v_value);
            assert(us.take(at + 1) == us.take(at).push(us[at]));
            assert(vs.take(at + 1) == vs.take(at).push(vs[at]));
            block_col += 1;
        }
        block_row += 1;
        assert(block_row * (w / 2) == (block_row - 1) * (w / 2) + w / 2) by (nonlinear_arith);
    }
    assert((h / 2) * (w / 2) == (w / 2) * (h / 2)) by (nonlinear_arith);
    assert(us.take((w / 2) * (h / 2)) == us);
    assert(vs.take((w / 2) * (h / 2)) == vs);
    planes.append(&mut v);
}

/// A buffer of `width * height` pixels holds every pixel that a conversion reads,
/// at its own size or scaled, and the planes of its own size are no larger.
pub proof fn lemma_full_frame(len: int, width: int, height: int)
    requires
        0 <= width,
        0 <= height,
        len == width * height * 4,
    ensures
        covers(len, width, height),
        0 <= i420_len(width, height) <= len,
        forall|s: Scaling|
            s.src_width == width && s.src_height == height ==> #[trigger] s.covered_by(len),
{
    let rows = height / 2 * 2;
    let cols = width / 2 * 2;
    if rows > 0 && cols > 0 {
        assert((rows - 1) * width + cols <= width * height) by (nonlinear_arith)
            requires
                0 < rows <= height,
                0 < cols <= width,
        ;
    }
    assert(0 <= (width / 2) * (height / 2) && 4 * ((width / 2) * (height / 2)) <= width * height)
        by (nonlinear_arith)
        requires
            0 <= width,
            0 <= height,
    {
        let a = width / 2;
        let b = height / 2;
        assert(0 <= 2 * a <= width);
        assert(0 <= 2 * b <= height);
        assert((2 * a) * (2 * b) <= width * height);
        assert((2 * a) * (2 * b) == 4 * (a * b));
        assert(0 <= a * b);
    }
    assert forall|s: Scaling|
        s.src_width == width && s.src_height == height implies #[trigger] s.covered_by(len) by {
        if s.has_blocks() {
            lemma_lines(s.dst_height / 2 * 2 - 1, height, s.dst_height);
            lemma_lines(s.dst_width / 2 * 2 - 1, width, s.dst_width);
            let rows = line_to(s.dst_height / 2 * 2 - 1, height, s.dst_height);
            let cols = line_to(s.dst_width / 2 * 2 - 1, width, s.dst_width);
            assert(rows > 0 && cols > 0 ==> (rows - 1) * width + cols <= width * height)
                by (nonlinear_arith)
                requires
                    rows <= height,
                    cols <= width,
            ;
        }
    }
}

/// Whether the positions of a scaling stay within the machine's integers.
fn positions_fit(
    src_width: usize,
    src_height: usize,
    dst_width: usize,
    dst_height: usize,
) -> (fits: bool)
    ensures
        fits == scaling_of(src_width, src_height, dst_width, dst_height).positions_fit(),
{
    let limit: u128 = usize::MAX as u128;
    let (sw, sh): (u128, u128) = (src_width as u128, src_height as u128);
    let (dw, dh): (u128, u128) = (dst_width as u128, dst_height as u128);
    proof {
        lemma_u64_product(dst_width as int, dst_height as int);
        lemma_u64_product(dst_width as int / 2, dst_height as int / 2);
        lemma_u64_product(dst_height as int / 2 * 2, src_height as int);
        lemma_u64_product(dst_width as int / 2 * 2, src_width as int);
    }
    let samples: u128 = dw * dh;
    let blocks: u128 = (dw / 2) * (dh / 2);
    if samples > limit || blocks > limit || samples + 2 * blocks > limit {
        return false;
    }
    dw / 2 == 0 || dh / 2 == 0 || (dh / 2 * 2 * sh <= limit && dw / 2 * 2 * sw <= limit)
}

/// Whether the positions and the sums of a scaling stay within the machine's integers,
/// whatever the image shows.
pub fn scaling_fits(
    src_width: usize,
    src_height: usize,
    dst_width: usize,
    dst_height: usize,
) -> (fits: bool)
    ensures
        fits == scaling_of(src_width, src_height, dst_width, dst_height).fits(),
{
    if !positions_fit(src_width, src_height, dst_width, dst_height) {
        return false;
    }
    let (sw, sh): (u128, u128) = (src_width as u128, src_height as u128);
    let (dw, dh): (u128, u128) = (dst_width as u128, dst_height as u128);
    if dw / 2 == 0 || dh / 2 == 0 {
        return true;
    }
    let rows: u128 = if sh <= dh {
        1
    } else {
        (sh + dh - 1) / dh
    };
    let cols: u128 = if sw <= dw {
        1
    } else {
        (sw + dw - 1) / dw
    };
    let most: u128 = i32::MAX as u128;
    proof {
        lemma_max_lines(sh as int, dh as int);
        lemma_max_lines(sw as int, dw as int);
        assert(rows > most ==> rows * cols * 255 > most) by (nonlinear_arith)
            requires
                cols >= 1,
        ;
        assert(cols > most ==> rows * cols * 255 > most) by (nonlinear_arith)
            requires
                rows >= 1,
        ;
        assert(rows <= most && cols <= most ==> rows * cols <= most * most) by (nonlinear_arith);
    }
    rows <= most && cols <= most && rows * cols * 255 <= most
}

/// Whether the positions and the sums of an image stay within the machine's integers when
/// it is scaled. Where every image of its size can be scaled, the image is not looked at.
pub fn image_fits(
    rgba: &[u8],
    src_width: usize,
    src_height: usize,
    dst_width: usize,
    dst_height: usize,
) -> (fits: bool)
    requires
        scaling_of(src_width, src_height, dst_width, dst_height).covered_by(rgba@.len() as int),
    ensures
        fits == scaling_of(src_width, src_height, dst_width, dst_height).fits_for(rgba@),
{
    let ghost s = scaling_of(src_width, src_height, dst_width, dst_height);
    if scaling_fits(src_width, src_height, dst_width, dst_height) {
        proof {
            lemma_fits(s, rgba@);
        }
        return true;
    }
    if !positions_fit(src_width, src_height, dst_width, dst_height) {
        return false;
    }
    let mut row: usize = 0;
    while row < dst_height / 2 * 2
        invariant
            s == scaling_of(src_width, src_height, dst_width, dst_height),
            s.positions_fit(),
            s.covered_by(rgba@.len() as int),
            row <= dst_height / 2 * 2,
            forall|y: int, x: int|
                0 <= y < row && 0 <= x < dst_width / 2 * 2 ==> #[trigger] s.pixel_fits(rgba@, y, x),
        decreases dst_height / 2 * 2 - row,
    {
        let mut col: usize = 0;
        while col < dst_width / 2 * 2
            invariant
                s == scaling_of(src_width, src_height, dst_width, dst_height),
                s.positions_fit(),
                s.covered_by(rgba@.len() as int),
                row < dst_height / 2 * 2,
                col <= dst_width / 2 * 2,
                forall|y: int, x: int|
                    0 <= y < row && 0 <= x < dst_width / 2 * 2 ==> #[trigger] s.pixel_fits(
                        rgba@,
                        y,
                        x,
                    ),
                forall|x: int|
                    0 <= x < col ==> #[trigger] s.pixel_fits(rgba@, row as int, x),
            decreases dst_width / 2 * 2 - col,
        {
            proof {
                lemma_pixel_covered(s, rgba@.len() as int, row as int, col as int);
            }
            let (top, bottom) = source_lines(row, src_height, dst_height);
            let (from, to) = source_lines(col, src_width, dst_width);
            proof {
                lemma_u64_product(bottom - top, to - from);
            }
            let count: u128 = (bottom - top) as u128 * (to - from) as u128;
            if count > i32::MAX as u128 {
                assert(!s.pixel_fits(rgba@, row as int, col as int));
                return false;
            }
            if area_sums(rgba, src_width, top, bottom, from, to).is_none() {
                assert(!s.pixel_fits(rgba@, row as int, col as int));
                return false;
            }
            assert(s.pixel_fits(rgba@, row as int, col as int));
            col += 1;
        }
        row += 1;
    }
    true
}

proof fn lemma_max_lines(src: int, dst: int)
    requires
        dst > 0,
    ensures
        max_lines(src, dst) >= 1,
{
    if src > dst {
        assert((src + dst - 1) / dst >= 1) by (nonlinear_arith)
            requires
                src > dst,
                dst > 0,
        ;
    }
}

proof fn lemma_u64_product(a: int, b: int)
    requires
        0 <= a <= u64::MAX,
        0 <= b <= u64::MAX,
    ensures
        0 <= a * b <= u64::MAX * u64::MAX,
{
    assert(0 <= a * b <= u64::MAX * u64::MAX) by (nonlinear_arith)
        requires
            0 <= a <= u64::MAX,
            0 <= b <= u64::MAX,
    ;
}

/// The luma of a colour is in the studio range and within half a step of
/// 16 + (66 r + 129 g + 25 b) / 256.
pub proof fn law_luma_is_close(r: int, g: int, b: int)
    requires
        0 <= r <= 255,
        0 <= g <= 255,
        0 <= b <= 255,
    ensures
        16 <= spec_luma(r, g, b) <= 235,
        -128 <= 256 * (spec_luma(r, g, b) - 16) - (66 * r + 129 * g + 25 * b) <= 128,
{
}

/// The chroma of a colour is in the studio range and within half a step of
/// 128 + (-38 r - 74 g + 112 b) / 256 and 128 + (112 r - 94 g - 18 b) / 256.
pub proof fn law_chroma_is_close(r: int, g: int, b: int)
    requires
        0 <= r <= 255,
        0 <= g <= 255,
        0 <= b <= 255,
    ensures
        16 <= spec_chroma_u(r, g, b) <= 240,
        -128 <= 256 * (spec_chroma_u(r, g, b) - 128) - (-38 * r - 74 * g + 112 * b) <= 128,
        16 <= spec_chroma_v(r, g, b) <= 240,
        -128 <= 256 * (spec_chroma_v(r, g, b) - 128) - (112 * r - 94 * g - 18 * b) <= 128,
{
}

/// A grey has no colour, and more light has no less luma.
pub proof fn law_grey_is_neutral(level: int, brighter: int)
    requires
        0 <= level <= brighter <= 255,
    ensures
        spec_chroma_u(level, level, level) == 128,
        spec_chroma_v(level, level, level) == 128,
        spec_luma(level, level, level) <= spec_luma(brighter, brighter, brighter),
{
}

/// Where the two sizes are the same, each pixel of the scaled image shows the one
/// source pixel at its place.
pub proof fn law_same_size_keeps_pixels(
    rgba: Seq<u8>,
    width: int,
    height: int,
    row: int,
    col: int,
    c: int,
)
    requires
        0 <= row < height,
        0 <= col < width,
    ensures
        (Scaling {
            src_width: width,
            src_height: height,
            dst_width: width,
            dst_height: height,
        }).average(rgba, row, col, c) == channel(rgba, width, row, col, c),
{
    reveal(Scaling::average);
    assert(row * height / height == row && (row + 1) * height / height == row + 1)
        by (nonlinear_arith)
        requires
            height > 0,
    ;
    assert(col * width / width == col && (col + 1) * width / width == col + 1) by (nonlinear_arith)
        requires
            width > 0,
    ;
    assert(line_from(row, height, height) == row && line_to(row, height, height) == row + 1);
    assert(line_from(col, width, width) == col && line_to(col, width, width) == col + 1);
    reveal_with_fuel(area_sum, 2);
    reveal_with_fuel(row_sum, 2);
    assert(area_sum(rgba, width, row, row + 1, col, col + 1, c) == channel(
        rgba,
        width,
        row,
        col,
        c,
    ));
    let rows = line_to(row, height, height) - line_from(row, height, height);
    let cols = line_to(col, width, width) - line_from(col, width, width);
    assert(rows * cols == 1) by (nonlinear_arith)
        requires
            rows == 1,
            cols == 1,
    ;
    let sum = area_sum(rgba, width, row, row + 1, col, col + 1, c);
    assert(sum / (rows * cols) == sum) by (nonlinear_arith)
        requires
            rows * cols == 1,
    ;
}

/// Where an image is scaled to half its size, each pixel is the average of the block
/// of four source pixels at its place, rounded down.
pub proof fn law_halving_averages_blocks(
    rgba: Seq<u8>,
    width: int,
    height: int,
    row: int,
    col: int,
    c: int,
)
    requires
        0 <= row < height,
        0 <= col < width,
    ensures
        (Scaling {
            src_width: 2 * width,
            src_height: 2 * height,
            dst_width: width,
            dst_height: height,
        }).average(rgba, row, col, c) == (channel(rgba, 2 * width, 2 * row, 2 * col, c) + channel(
            rgba,
            2 * width,
            2 * row,
            2 * col + 1,
            c,
        ) + channel(rgba, 2 * width, 2 * row + 1, 2 * col, c) + channel(
            rgba,
            2 * width,
            2 * row + 1,
            2 * col + 1,
            c,
        )) / 4,
{
    reveal(Scaling::average);
    assert(row * (2 * height) / height == 2 * row && (row + 1) * (2 * height) / height == 2 * row
        + 2) by (nonlinear_arith)
        requires
            height > 0,
    ;
    assert(col * (2 * width) / width == 2 * col && (col + 1) * (2 * width) / width == 2 * col + 2)
        by (nonlinear_arith)
        requires
            width > 0,
    ;
    let s = 2 * width;
    let (top, from) = (2 * row, 2 * col);
    assert(line_from(row, 2 * height, height) == top && line_to(row, 2 * height, height) == top
        + 2);
    assert(line_from(col, s, width) == from && line_to(col, s, width) == from + 2);
    reveal_with_fuel(area_sum, 3);
    reveal_with_fuel(row_sum, 3);
    let rows = line_to(row, 2 * height, height) - line_from(row, 2 * height, height);
    let cols = line_to(col, s, width) - line_from(col, s, width);
    assert(rows * cols == 4) by (nonlinear_arith)
        requires
            rows == 2,
            cols == 2,
    ;
    let sum = area_sum(rgba, s, top, top + 2, from, from + 2, c);
    assert(sum == row_sum(rgba, s, top, from, from + 2, c) + row_sum(
        rgba,
        s,
        top + 1,
        from,
        from + 2,
        c,
    ));
    assert(sum / (rows * cols) == sum / 4) by (nonlinear_arith)
        requires
            rows * cols == 4,
    ;
}

/// Each sample of the first plane is the luma of the pixel at its place, to the nearest
/// step of 16 + (66 r + 129 g + 25 b) / 256. Without a block of four pixels it is 0.
pub proof fn law_first_plane_is_luma(rgba: Seq<u8>, width: int, height: int, row: int, col: int)
    requires
        0 <= row < height,
        0 <= col < width,
    ensures
        ({
            let y = i420(rgba, width, height)[row * width + col] as int;
            let at = (row * width + col) * 4;
            let light = 66 * rgba[at] + 129 * rgba[at + 1] + 25 * rgba[at + 2];
            if row < height - height % 2 && col < width - width % 2 {
                -128 < 256 * (y - 16) - light <= 128
            } else {
                y == 0
            }
        }),
{
    lemma_place(width, height, row, col);
    let at = (row * width + col) * 4;
    assert(channel(rgba, width, row, col, 0) == rgba[at]);
    assert(i420(rgba, width, height)[row * width + col] == y_sample(
        rgba,
        width,
        height,
        row,
        col,
    ));
}

/// Each sample of the second and of the third plane is the chroma of the block of four
/// pixels at its place, to the nearest step of 128 + (-38 r - 74 g + 112 b) / 256 and of
/// 128 + (112 r - 94 g - 18 b) / 256. Here `r`, `g` and `b` are the colours of the four
/// pixels on average, to the nearest step.
pub proof fn law_other_planes_are_chroma(
    rgba: Seq<u8>,
    width: int,
    height: int,
    row: int,
    col: int,
    r: int,
    g: int,
    b: int,
)
    requires
        0 <= row < height / 2,
        0 <= col < width / 2,
        ({
            let above = (2 * row * width + 2 * col) * 4;
            let below = ((2 * row + 1) * width + 2 * col) * 4;
            &&& -2 < 4 * r - (rgba[above] + rgba[above + 4] + rgba[below] + rgba[below + 4]) <= 2
            &&& -2 < 4 * g - (rgba[above + 1] + rgba[above + 5] + rgba[below + 1] + rgba[below + 5])
                <= 2
            &&& -2 < 4 * b - (rgba[above + 2] + rgba[above + 6] + rgba[below + 2] + rgba[below + 6])
                <= 2
        }),
    ensures
        ({
            let planes = i420(rgba, width, height);
            let u = planes[width * height + row * (width / 2) + col] as int;
            let v = planes[width * height + (width / 2) * (height / 2) + row * (width / 2)
                + col] as int;
            &&& -128 < 256 * (u - 128) - (-38 * r - 74 * g + 112 * b) <= 128
            &&& -128 < 256 * (v - 128) - (112 * r - 94 * g - 18 * b) <= 128
        }),
{
    let (w, h) = (width / 2, height / 2);
    lemma_place(w, h, row, col);
    assert(0 <= width * height) by (nonlinear_arith)
        requires
            0 <= width,
            0 <= height,
    ;
    assert(0 <= w * h) by (nonlinear_arith)
        requires
            0 <= w,
            0 <= h,
    ;
    let planes = i420(rgba, width, height);
    assert(block_average(rgba, width, row, col, 0) == r);
    assert(block_average(rgba, width, row, col, 1) == g);
    assert(block_average(rgba, width, row, col, 2) == b);
    assert(planes[width * height + row * w + col] == u_sample(rgba, width, row, col));
    assert(planes[width * height + w * h + row * w + col] == v_sample(rgba, width, row, col));
}

impl Scaling {
    /// Whether the two sizes are sizes.
    pub open spec fn sized(self) -> bool {
        0 <= self.src_width && 0 <= self.src_height && 0 <= self.dst_width && 0 <= self.dst_height
    }
}

proof fn lemma_pixel_mean(s: Scaling, rgba: Seq<u8>, row: int, col: int, c: int)
    requires
        s.sized(),
        0 <= row < s.dst_height,
        0 <= col < s.dst_width,
    ensures
        0 <= s.average(rgba, row, col, c) <= 255,
        0 <= s.pixel_count(row, col),
        s.src_width > 0 && s.src_height > 0 ==> {
            let n = s.pixel_count(row, col);
            &&& 0 < n
            &&& n * s.average(rgba, row, col, c) <= s.pixel_sum(rgba, row, col, c) < n * (s.average(
                rgba,
                row,
                col,
                c,
            ) + 1)
        },
{
    reveal(Scaling::average);
    lemma_lines(row, s.src_height, s.dst_height);
    lemma_lines(col, s.src_width, s.dst_width);
    let top = line_from(row, s.src_height, s.dst_height);
    let bottom = line_to(row, s.src_height, s.dst_height);
    let from = line_from(col, s.src_width, s.dst_width);
    let to = line_to(col, s.src_width, s.dst_width);
    lemma_area_sum(rgba, s.src_width, top, bottom, bottom, from, to, c);
    let n = s.pixel_count(row, col);
    assert(0 <= n) by (nonlinear_arith)
        requires
            n == (bottom - top) * (to - from),
            top <= bottom,
            from <= to,
    ;
    lemma_average_is_byte(s.pixel_sum(rgba, row, col, c), n);
    if s.src_width > 0 && s.src_height > 0 {
        assert(0 < n) by (nonlinear_arith)
            requires
                n == (bottom - top) * (to - from),
                top < bottom,
                from < to,
        ;
        let sum = s.pixel_sum(rgba, row, col, c);
        lemma_fundamental_div_mod(sum, n);
        assert(n * (sum / n) <= sum < n * (sum / n + 1)) by (nonlinear_arith)
            requires
                sum == n * (sum / n) + sum % n,
                0 < n,
        ;
    }
}

/// Each sample of the first plane of a scaled image is the luma of its pixel, to the
/// nearest step. Without a block of four pixels it is 0.
pub proof fn law_scaled_first_plane_is_luma(s: Scaling, rgba: Seq<u8>, row: int, col: int)
    requires
        s.sized(),
        0 <= row < s.dst_height,
        0 <= col < s.dst_width,
    ensures
        ({
            let y = s.i420(rgba)[row * s.dst_width + col] as int;
            let light = 66 * s.average(rgba, row, col, 0) + 129 * s.average(rgba, row, col, 1) + 25
                * s.average(rgba, row, col, 2);
            if row < s.dst_height - s.dst_height % 2 && col < s.dst_width - s.dst_width % 2 {
                -128 < 256 * (y - 16) - light <= 128
            } else {
                y == 0
            }
        }),
{
    lemma_place(s.dst_width, s.dst_height, row, col);
    lemma_pixel_mean(s, rgba, row, col, 0);
    lemma_pixel_mean(s, rgba, row, col, 1);
    lemma_pixel_mean(s, rgba, row, col, 2);
    assert(s.i420(rgba)[row * s.dst_width + col] == s.y_sample(rgba, row, col));
}

/// Each sample of the second and of the third plane of a scaled image is the chroma of
/// the block of four pixels at its place, to the nearest step of
/// 128 + (-38 r - 74 g + 112 b) / 256 and of 128 + (112 r - 94 g - 18 b) / 256. Here `r`,
/// `g` and `b` are the colours of the four pixels on average, rounded down.
pub proof fn law_scaled_other_planes_are_chroma(
    s: Scaling,
    rgba: Seq<u8>,
    row: int,
    col: int,
    r: int,
    g: int,
    b: int,
)
    requires
        s.sized(),
        0 <= row < s.dst_height / 2,
        0 <= col < s.dst_width / 2,
        ({
            let (y, x) = (2 * row, 2 * col);
            &&& 0 <= s.average(rgba, y, x, 0) + s.average(rgba, y, x + 1, 0) + s.average(
                rgba,
                y + 1,
                x,
                0,
            ) + s.average(rgba, y + 1, x + 1, 0) - 4 * r < 4
            &&& 0 <= s.average(rgba, y, x, 1) + s.average(rgba, y, x + 1, 1) + s.average(
                rgba,
                y + 1,
                x,
                1,
            ) + s.average(rgba, y + 1, x + 1, 1) - 4 * g < 4
            &&& 0 <= s.average(rgba, y, x, 2) + s.average(rgba, y, x + 1, 2) + s.average(
                rgba,
                y + 1,
                x,
                2,
            ) + s.average(rgba, y + 1, x + 1, 2) - 4 * b < 4
        }),
    ensures
        ({
            let (w, h) = (s.dst_width, s.dst_height);
            let u = s.i420(rgba)[w * h + row * (w / 2) + col] as int;
            let v = s.i420(rgba)[w * h + (w / 2) * (h / 2) + row * (w / 2) + col] as int;
            &&& -128 < 256 * (u - 128) - (-38 * r - 74 * g + 112 * b) <= 128
            &&& -128 < 256 * (v - 128) - (112 * r - 94 * g - 18 * b) <= 128
        }),
{
    let (width, height) = (s.dst_width, s.dst_height);
    let (w, h) = (width / 2, height / 2);
    lemma_place(w, h, row, col);
    assert(0 <= width * height) by (nonlinear_arith)
        requires
            0 <= width,
            0 <= height,
    ;
    assert(0 <= w * h) by (nonlinear_arith)
        requires
            0 <= w,
            0 <= h,
    ;
    assert forall|c: int| 0 <= #[trigger] s.block_average(rgba, row, col, c) <= 255 by {
        lemma_pixel_mean(s, rgba, 2 * row, 2 * col, c);
        lemma_pixel_mean(s, rgba, 2 * row, 2 * col + 1, c);
        lemma_pixel_mean(s, rgba, 2 * row + 1, 2 * col, c);
        lemma_pixel_mean(s, rgba, 2 * row + 1, 2 * col + 1, c);
    }
    let planes = s.i420(rgba);
    assert(s.block_average(rgba, row, col, 0) == r);
    assert(s.block_average(rgba, row, col, 1) == g);
    assert(s.block_average(rgba, row, col, 2) == b);
    assert(planes[width * height + row * w + col] == s.u_sample(rgba, row, col));
    assert(planes[width * height + w * h + row * w + col] == s.v_sample(rgba, row, col));
}

/// Line `d` of `dst` begins in the source where the share `d / dst` of its `src` lines
/// ends. Where an image is not enlarged, it goes up to where the next line begins; where
/// it is, it shows one line.
pub proof fn law_lines_are_shared_out(d: int, src: int, dst: int)
    requires
        0 <= d < dst,
        0 < src,
    ensures
        line_from(d, src, dst) * dst <= d * src < (line_from(d, src, dst) + 1) * dst,
        0 <= line_from(d, src, dst) < line_to(d, src, dst) <= src,
        src >= dst ==> line_to(d, src, dst) == (if d + 1 == dst {
            src
        } else {
            line_from(d + 1, src, dst)
        }),
        src <= dst ==> line_to(d, src, dst) == line_from(d, src, dst) + 1,
{
    lemma_lines(d, src, dst);
    let from = line_from(d, src, dst);
    lemma_fundamental_div_mod(d * src, dst);
    assert(from * dst <= d * src < (from + 1) * dst) by (nonlinear_arith)
        requires
            d * src == dst * from + d * src % dst,
            0 < dst,
    ;
    if src >= dst {
        assert((d + 1) * src == d * src + src) by (nonlinear_arith);
        let next = (d + 1) * src / dst;
        lemma_div_is_ordered(d * src + dst, (d + 1) * src, dst);
        assert((d * src + dst) / dst == from + 1) by {
            let m = d * src % dst;
            assert(d * src + dst == (from + 1) * dst + m) by (nonlinear_arith)
                requires
                    d * src == dst * from + m,
            ;
            assert(0 <= m < dst) by (nonlinear_arith)
                requires
                    m == d * src % dst,
                    0 < dst,
            ;
            lemma_fundamental_div_mod_converse(d * src + dst, dst, from + 1, m);
        }
        if d + 1 == dst {
            lemma_mul_is_commutative(dst, src);
            lemma_fundamental_div_mod_converse(dst * src, dst, src, 0);
        } else {
            lemma_lines(d + 1, src, dst);
        }
    }
}

/// A pixel of a scaled image shows nothing but the source pixels of its lines: where all
/// of them lie between two levels, so does the pixel.
pub proof fn law_pixel_lies_between_its_sources(
    s: Scaling,
    rgba: Seq<u8>,
    row: int,
    col: int,
    c: int,
    low: int,
    high: int,
)
    requires
        s.sized(),
        0 < s.src_width,
        0 < s.src_height,
        0 <= row < s.dst_height,
        0 <= col < s.dst_width,
        forall|y: int, x: int|
            line_from(row, s.src_height, s.dst_height) <= y < line_to(
                row,
                s.src_height,
                s.dst_height,
            ) && line_from(col, s.src_width, s.dst_width) <= x < line_to(
                col,
                s.src_width,
                s.dst_width,
            ) ==> low <= #[trigger] rgba[(y * s.src_width + x) * 4 + c] <= high,
    ensures
        low <= s.average(rgba, row, col, c) <= high,
{
    let top = line_from(row, s.src_height, s.dst_height);
    let bottom = line_to(row, s.src_height, s.dst_height);
    let from = line_from(col, s.src_width, s.dst_width);
    let to = line_to(col, s.src_width, s.dst_width);
    lemma_lines(row, s.src_height, s.dst_height);
    lemma_lines(col, s.src_width, s.dst_width);
    lemma_area_between(rgba, s.src_width, top, bottom, from, to, c, low, high);
    lemma_pixel_mean(s, rgba, row, col, c);
    let n = s.pixel_count(row, col);
    let a = s.average(rgba, row, col, c);
    let sum = s.pixel_sum(rgba, row, col, c);
    assert(low <= a <= high) by (nonlinear_arith)
        requires
            0 < n,
            low * n <= sum <= high * n,
            n * a <= sum < n * (a + 1),
    ;
}

proof fn lemma_row_between(
    rgba: Seq<u8>,
    width: int,
    row: int,
    from: int,
    to: int,
    c: int,
    low: int,
    high: int,
)
    requires
        from <= to,
        forall|x: int|
            from <= x < to ==> low <= #[trigger] rgba[(row * width + x) * 4 + c] <= high,
    ensures
        low * (to - from) <= row_sum(rgba, width, row, from, to, c) <= high * (to - from),
    decreases to - from,
{
    if from < to {
        lemma_row_between(rgba, width, row, from, to - 1, c, low, high);
        assert(low <= rgba[(row * width + (to - 1)) * 4 + c] <= high);
        assert(low * (to - from) == low * (to - 1 - from) + low) by (nonlinear_arith);
        assert(high * (to - from) == high * (to - 1 - from) + high) by (nonlinear_arith);
    } else {
        assert(low * (to - from) == 0 && high * (to - from) == 0) by (nonlinear_arith)
            requires
                to == from,
        ;
    }
}

proof fn lemma_area_between(
    rgba: Seq<u8>,
    width: int,
    top: int,
    bottom: int,
    from: int,
    to: int,
    c: int,
    low: int,
    high: int,
)
    requires
        top <= bottom,
        from <= to,
        forall|y: int, x: int|
            top <= y < bottom && from <= x < to ==> low <= #[trigger] rgba[(y * width + x) * 4 + c]
                <= high,
    ensures
        low * ((bottom - top) * (to - from)) <= area_sum(rgba, width, top, bottom, from, to, c)
            <= high * ((bottom - top) * (to - from)),
    decreases bottom - top,
{
    if top < bottom {
        lemma_area_between(rgba, width, top, bottom - 1, from, to, c, low, high);
        lemma_row_between(rgba, width, bottom - 1, from, to, c, low, high);
        let (tall, wide) = (bottom - top, to - from);
        assert(low * (tall * wide) == low * ((tall - 1) * wide) + low * wide) by (nonlinear_arith);
        assert(high * (tall * wide) == high * ((tall - 1) * wide) + high * wide)
            by (nonlinear_arith);
    } else {
        let (tall, wide) = (bottom - top, to - from);
        assert(low * (tall * wide) == 0 && high * (tall * wide) == 0) by (nonlinear_arith)
            requires
                tall == 0,
        ;
    }
}

/// A pixel of a scaled image is the mean of the source pixels that it shows, rounded down.
pub proof fn law_pixel_is_the_mean(s: Scaling, rgba: Seq<u8>, row: int, col: int, c: int)
    requires
        s.sized(),
        0 < s.src_width,
        0 < s.src_height,
        0 <= row < s.dst_height,
        0 <= col < s.dst_width,
    ensures
        0 <= s.pixel_sum(rgba, row, col, c) - s.pixel_count(row, col) * s.average(rgba, row, col, c)
            < s.pixel_count(row, col),
{
    lemma_pixel_mean(s, rgba, row, col, c);
    let n = s.pixel_count(row, col);
    let a = s.average(rgba, row, col, c);
    assert(n * (a + 1) == n * a + n) by (nonlinear_arith);
}

/// A channel of the first `n` pixels of an image, summed up.
pub open spec fn channel_total(rgba: Seq<u8>, n: int, c: int) -> int
    decreases n,
{
    if n <= 0 {
        0
    } else {
        channel_total(rgba, n - 1, c) + rgba[4 * (n - 1) + c]
    }
}

impl Scaling {
    /// What the first `n` pixels of a row of the scaled image show, summed up.
    pub open spec fn row_total(self, rgba: Seq<u8>, row: int, n: int, c: int) -> int
        decreases n,
    {
        if n <= 0 {
            0
        } else {
            self.row_total(rgba, row, n - 1, c) + self.pixel_sum(rgba, row, n - 1, c)
        }
    }

    /// What the first `n` rows of the scaled image show, summed up.
    pub open spec fn total(self, rgba: Seq<u8>, n: int, c: int) -> int
        decreases n,
    {
        if n <= 0 {
            0
        } else {
            self.total(rgba, n - 1, c) + self.row_total(rgba, n - 1, self.dst_width, c)
        }
    }

    /// How many source pixels the first `n` pixels of a row show.
    pub open spec fn row_pixels(self, row: int, n: int) -> int
        decreases n,
    {
        if n <= 0 {
            0
        } else {
            self.row_pixels(row, n - 1) + self.pixel_count(row, n - 1)
        }
    }

    /// How many source pixels the first `n` rows show.
    pub open spec fn pixels(self, n: int) -> int
        decreases n,
    {
        if n <= 0 {
            0
        } else {
            self.pixels(n - 1) + self.row_pixels(n - 1, self.dst_width)
        }
    }
}

proof fn lemma_row_split(
    rgba: Seq<u8>,
    width: int,
    row: int,
    from: int,
    mid: int,
    to: int,
    c: int,
)
    requires
        from <= mid <= to,
    ensures
        row_sum(rgba, width, row, from, to, c) == row_sum(rgba, width, row, from, mid, c) + row_sum(
            rgba,
            width,
            row,
            mid,
            to,
            c,
        ),
    decreases to - mid,
{
    if mid < to {
        lemma_row_split(rgba, width, row, from, mid, to - 1, c);
    }
}

proof fn lemma_columns_split(
    rgba: Seq<u8>,
    width: int,
    top: int,
    bottom: int,
    from: int,
    mid: int,
    to: int,
    c: int,
)
    requires
        top <= bottom,
        from <= mid <= to,
    ensures
        area_sum(rgba, width, top, bottom, from, to, c) == area_sum(
            rgba,
            width,
            top,
            bottom,
            from,
            mid,
            c,
        ) + area_sum(rgba, width, top, bottom, mid, to, c),
    decreases bottom - top,
{
    if top < bottom {
        lemma_columns_split(rgba, width, top, bottom - 1, from, mid, to, c);
        lemma_row_split(rgba, width, bottom - 1, from, mid, to, c);
    }
}

proof fn lemma_rows_split(
    rgba: Seq<u8>,
    width: int,
    top: int,
    mid: int,
    bottom: int,
    from: int,
    to: int,
    c: int,
)
    requires
        top <= mid <= bottom,
    ensures
        area_sum(rgba, width, top, bottom, from, to, c) == area_sum(
            rgba,
            width,
            top,
            mid,
            from,
            to,
            c,
        ) + area_sum(rgba, width, mid, bottom, from, to, c),
    decreases bottom - mid,
{
    if mid < bottom {
        lemma_rows_split(rgba, width, top, mid, bottom - 1, from, to, c);
    }
}

proof fn lemma_no_columns(rgba: Seq<u8>, width: int, top: int, bottom: int, at: int, c: int)
    ensures
        area_sum(rgba, width, top, bottom, at, at, c) == 0,
    decreases bottom - top,
{
    if top < bottom {
        lemma_no_columns(rgba, width, top, bottom - 1, at, c);
    }
}

/// Where `n` lines end in the source.
spec fn lines_end(n: int, src: int, dst: int) -> int {
    if n == 0 {
        0
    } else {
        line_to(n - 1, src, dst)
    }
}

proof fn lemma_lines_end(d: int, src: int, dst: int)
    requires
        0 <= d < dst <= src,
    ensures
        line_from(d, src, dst) == lines_end(d, src, dst),
        lines_end(dst, src, dst) == src,
        0 <= lines_end(d, src, dst) <= lines_end(d + 1, src, dst) <= src,
{
    law_lines_are_shared_out(d, src, dst);
    law_lines_are_shared_out(dst - 1, src, dst);
    if d > 0 {
        law_lines_are_shared_out(d - 1, src, dst);
    } else {
        assert(0 * src == 0 && 0int / dst == 0) by (nonlinear_arith)
            requires
                0 < dst,
        ;
    }
}

proof fn lemma_row_total(s: Scaling, rgba: Seq<u8>, row: int, n: int, c: int)
    requires
        0 < s.dst_width <= s.src_width,
        0 < s.dst_height <= s.src_height,
        0 <= row < s.dst_height,
        0 <= n <= s.dst_width,
    ensures
        ({
            let top = lines_end(row, s.src_height, s.dst_height);
            let bottom = lines_end(row + 1, s.src_height, s.dst_height);
            let to = lines_end(n, s.src_width, s.dst_width);
            &&& s.row_total(rgba, row, n, c) == area_sum(
                rgba,
                s.src_width,
                top,
                bottom,
                0,
                to,
                c,
            )
            &&& s.row_pixels(row, n) == (bottom - top) * to
        }),
    decreases n,
{
    let top = lines_end(row, s.src_height, s.dst_height);
    let bottom = lines_end(row + 1, s.src_height, s.dst_height);
    lemma_lines_end(row, s.src_height, s.dst_height);
    if n == 0 {
        lemma_no_columns(rgba, s.src_width, top, bottom, 0, c);
        assert((bottom - top) * 0 == 0) by (nonlinear_arith);
    } else {
        lemma_row_total(s, rgba, row, n - 1, c);
        lemma_lines_end(n - 1, s.src_width, s.dst_width);
        let mid = lines_end(n - 1, s.src_width, s.dst_width);
        let to = lines_end(n, s.src_width, s.dst_width);
        lemma_columns_split(rgba, s.src_width, top, bottom, 0, mid, to, c);
        assert((bottom - top) * to == (bottom - top) * mid + (bottom - top) * (to - mid))
            by (nonlinear_arith);
    }
}

proof fn lemma_total(s: Scaling, rgba: Seq<u8>, n: int, c: int)
    requires
        0 < s.dst_width <= s.src_width,
        0 < s.dst_height <= s.src_height,
        0 <= n <= s.dst_height,
    ensures
        ({
            let bottom = lines_end(n, s.src_height, s.dst_height);
            &&& s.total(rgba, n, c) == area_sum(
                rgba,
                s.src_width,
                0,
                bottom,
                0,
                s.src_width,
                c,
            )
            &&& s.pixels(n) == bottom * s.src_width
        }),
    decreases n,
{
    if n == 0 {
        assert(0 * s.src_width == 0) by (nonlinear_arith);
    } else {
        lemma_total(s, rgba, n - 1, c);
        lemma_row_total(s, rgba, n - 1, s.dst_width, c);
        lemma_lines_end(n - 1, s.src_height, s.dst_height);
        lemma_lines_end(s.dst_width - 1, s.src_width, s.dst_width);
        let mid = lines_end(n - 1, s.src_height, s.dst_height);
        let bottom = lines_end(n, s.src_height, s.dst_height);
        lemma_rows_split(rgba, s.src_width, 0, mid, bottom, 0, s.src_width, c);
        assert(bottom * s.src_width == mid * s.src_width + (bottom - mid) * s.src_width)
            by (nonlinear_arith);
    }
}

proof fn lemma_row_in_total(rgba: Seq<u8>, width: int, row: int, to: int, c: int)
    requires
        0 <= row,
        0 <= to,
        0 <= width,
    ensures
        channel_total(rgba, row * width + to, c) == channel_total(rgba, row * width, c) + row_sum(
            rgba,
            width,
            row,
            0,
            to,
            c,
        ),
    decreases to,
{
    lemma_mul_inequality(0, row, width);
    if to > 0 {
        lemma_row_in_total(rgba, width, row, to - 1, c);
    }
}

proof fn lemma_image_in_total(rgba: Seq<u8>, width: int, rows: int, c: int)
    requires
        0 <= rows,
        0 <= width,
    ensures
        channel_total(rgba, rows * width, c) == area_sum(rgba, width, 0, rows, 0, width, c),
    decreases rows,
{
    if rows > 0 {
        lemma_image_in_total(rgba, width, rows - 1, c);
        lemma_row_in_total(rgba, width, rows - 1, width, c);
        assert((rows - 1) * width + width == rows * width) by (nonlinear_arith);
    } else {
        assert(0 * width == 0) by (nonlinear_arith);
    }
}

/// Where an image is not enlarged, every source pixel is shown by exactly one pixel of
/// the scaled image: what all of these show adds up to the whole source.
pub proof fn law_every_source_pixel_is_shown_once(s: Scaling, rgba: Seq<u8>, c: int)
    requires
        0 < s.dst_width <= s.src_width,
        0 < s.dst_height <= s.src_height,
    ensures
        s.total(rgba, s.dst_height, c) == channel_total(rgba, s.src_height * s.src_width, c),
        s.pixels(s.dst_height) == s.src_height * s.src_width,
{
    lemma_total(s, rgba, s.dst_height, c);
    lemma_lines_end(s.dst_height - 1, s.src_height, s.dst_height);
    lemma_image_in_total(rgba, s.src_width, s.src_height, c);
}

/// Whether an image of `count` pixels is all of one colour.
pub open spec fn one_colour(rgba: Seq<u8>, count: int, r: u8, g: u8, b: u8) -> bool {
    forall|i: int|
        0 <= i < count ==> #[trigger] rgba[i * 4] == r && rgba[i * 4 + 1] == g && rgba[i * 4 + 2]
            == b
}

proof fn lemma_one_colour(
    rgba: Seq<u8>,
    width: int,
    height: int,
    row: int,
    col: int,
    r: u8,
    g: u8,
    b: u8,
)
    requires
        one_colour(rgba, width * height, r, g, b),
        0 <= row < height,
        0 <= col < width,
    ensures
        channel(rgba, width, row, col, 0) == r,
        channel(rgba, width, row, col, 1) == g,
        channel(rgba, width, row, col, 2) == b,
{
    lemma_place(width, height, row, col);
    assert(rgba[(row * width + col) * 4] == r);
}

proof fn lemma_scaled_colour(s: Scaling, rgba: Seq<u8>, row: int, col: int, r: u8, g: u8, b: u8)
    requires
        s.sized(),
        0 < s.src_width,
        0 < s.src_height,
        0 <= row < s.dst_height,
        0 <= col < s.dst_width,
        one_colour(rgba, s.src_width * s.src_height, r, g, b),
    ensures
        s.average(rgba, row, col, 0) == r,
        s.average(rgba, row, col, 1) == g,
        s.average(rgba, row, col, 2) == b,
{
    lemma_lines(row, s.src_height, s.dst_height);
    lemma_lines(col, s.src_width, s.dst_width);
    let colours = seq![r as int, g as int, b as int];
    assert forall|c: int| 0 <= c < 3 implies s.average(rgba, row, col, c) == #[trigger] colours[c] by {
        let k = colours[c];
        assert forall|y: int, x: int|
            line_from(row, s.src_height, s.dst_height) <= y < line_to(
                row,
                s.src_height,
                s.dst_height,
            ) && line_from(col, s.src_width, s.dst_width) <= x < line_to(
                col,
                s.src_width,
                s.dst_width,
            ) implies k <= #[trigger] rgba[(y * s.src_width + x) * 4 + c] <= k by {
            lemma_one_colour(rgba, s.src_width, s.src_height, y, x, r, g, b);
        }
        law_pixel_lies_between_its_sources(s, rgba, row, col, c, k, k);
    }
    assert(colours[0] == r && colours[1] == g && colours[2] == b);
}

proof fn lemma_same_luma(
    s: Scaling,
    rgba: Seq<u8>,
    same: Seq<u8>,
    r: u8,
    g: u8,
    b: u8,
    row: int,
    col: int,
)
    requires
        s.sized(),
        0 < s.src_width,
        0 < s.src_height,
        0 <= row < s.dst_height,
        0 <= col < s.dst_width,
        one_colour(rgba, s.src_width * s.src_height, r, g, b),
        one_colour(same, s.dst_width * s.dst_height, r, g, b),
    ensures
        s.y_sample(rgba, row, col) == y_sample(same, s.dst_width, s.dst_height, row, col),
{
    lemma_scaled_colour(s, rgba, row, col, r, g, b);
    lemma_one_colour(same, s.dst_width, s.dst_height, row, col, r, g, b);
}

proof fn lemma_same_chroma(
    s: Scaling,
    rgba: Seq<u8>,
    same: Seq<u8>,
    r: u8,
    g: u8,
    b: u8,
    row: int,
    col: int,
)
    requires
        s.sized(),
        0 < s.src_width,
        0 < s.src_height,
        0 <= row < s.dst_height / 2,
        0 <= col < s.dst_width / 2,
        one_colour(rgba, s.src_width * s.src_height, r, g, b),
        one_colour(same, s.dst_width * s.dst_height, r, g, b),
    ensures
        s.u_sample(rgba, row, col) == u_sample(same, s.dst_width, row, col),
        s.v_sample(rgba, row, col) == v_sample(same, s.dst_width, row, col),
{
    let (w, h) = (s.dst_width, s.dst_height);
    let (y, x) = (2 * row, 2 * col);
    lemma_scaled_colour(s, rgba, y, x, r, g, b);
    lemma_scaled_colour(s, rgba, y, x + 1, r, g, b);
    lemma_scaled_colour(s, rgba, y + 1, x, r, g, b);
    lemma_scaled_colour(s, rgba, y + 1, x + 1, r, g, b);
    lemma_one_colour(same, w, h, y, x, r, g, b);
    lemma_one_colour(same, w, h, y, x + 1, r, g, b);
    lemma_one_colour(same, w, h, y + 1, x, r, g, b);
    lemma_one_colour(same, w, h, y + 1, x + 1, r, g, b);
}

/// An image of one colour has, scaled to a size, the planes that an image of this size
/// and colour has.
pub proof fn law_scaling_keeps_a_colour(
    s: Scaling,
    rgba: Seq<u8>,
    same: Seq<u8>,
    r: u8,
    g: u8,
    b: u8,
)
    requires
        s.sized(),
        0 < s.src_width,
        0 < s.src_height,
        one_colour(rgba, s.src_width * s.src_height, r, g, b),
        one_colour(same, s.dst_width * s.dst_height, r, g, b),
    ensures
        s.i420(rgba) == i420(same, s.dst_width, s.dst_height),
{
    let (w, h) = (s.dst_width, s.dst_height);
    let ys = |row: int, col: int| s.y_sample(rgba, row, col);
    let yt = |row: int, col: int| y_sample(same, w, h, row, col);
    let us = |row: int, col: int| s.u_sample(rgba, row, col);
    let ut = |row: int, col: int| u_sample(same, w, row, col);
    let vs = |row: int, col: int| s.v_sample(rgba, row, col);
    let vt = |row: int, col: int| v_sample(same, w, row, col);
    assert forall|row: int, col: int| 0 <= row < h && 0 <= col < w implies #[trigger] ys(row, col)
        == yt(row, col) by {
        lemma_same_luma(s, rgba, same, r, g, b, row, col);
    }
    assert forall|row: int, col: int|
        0 <= row < h / 2 && 0 <= col < w / 2 implies #[trigger] us(row, col) == ut(row, col) by {
        lemma_same_chroma(s, rgba, same, r, g, b, row, col);
    }
    assert forall|row: int, col: int|
        0 <= row < h / 2 && 0 <= col < w / 2 implies #[trigger] vs(row, col) == vt(row, col) by {
        lemma_same_chroma(s, rgba, same, r, g, b, row, col);
    }
    lemma_same_plane(w, h, ys, yt);
    lemma_same_plane(w / 2, h / 2, us, ut);
    lemma_same_plane(w / 2, h / 2, vs, vt);
    assert(s.i420(rgba) == plane(w, h, ys) + plane(w / 2, h / 2, us) + plane(w / 2, h / 2, vs));
    assert(i420(same, w, h) == plane(w, h, yt) + plane(w / 2, h / 2, ut) + plane(
        w / 2,
        h / 2,
        vt,
    ));
}

/// Two images of one size and colour have the same planes, whatever else they hold.
pub proof fn law_one_colour_one_picture(
    a: Seq<u8>,
    b: Seq<u8>,
    width: int,
    height: int,
    red: u8,
    green: u8,
    blue: u8,
)
    requires
        0 < width,
        0 < height,
        one_colour(a, width * height, red, green, blue),
        one_colour(b, width * height, red, green, blue),
    ensures
        i420(a, width, height) == i420(b, width, height),
{
    let s = Scaling {
        src_width: width,
        src_height: height,
        dst_width: width,
        dst_height: height,
    };
    law_scaling_keeps_a_colour(s, a, a, red, green, blue);
    law_scaling_keeps_a_colour(s, a, b, red, green, blue);
}

proof fn lemma_same_plane(
    width: int,
    height: int,
    a: spec_fn(int, int) -> u8,
    b: spec_fn(int, int) -> u8,
)
    requires
        0 <= width,
        0 <= height,
        forall|row: int, col: int|
            0 <= row < height && 0 <= col < width ==> #[trigger] a(row, col) == b(row, col),
    ensures
        plane(width, height, a) == plane(width, height, b),
{
    let (x, y) = (plane(width, height, a), plane(width, height, b));
    assert forall|i: int| 0 <= i < x.len() implies x[i] == y[i] by {
        lemma_back(width, height, i);
        assert(a(i / width, i % width) == b(i / width, i % width));
    }
    assert(x =~= y);
}

/// The row and the column of a place in a plane.
proof fn lemma_back(width: int, height: int, i: int)
    requires
        0 <= width,
        0 <= height,
        0 <= i < (width * height) as nat,
    ensures
        0 <= i / width < height,
        0 <= i % width < width,
{
    assert(0 < width && 0 <= i < width * height) by (nonlinear_arith)
        requires
            0 <= width,
            0 <= height,
            0 <= i < (width * height) as nat,
    ;
    lemma_multiply_divide_lt(i, width, height);
    assert(0 <= i / width && 0 <= i % width < width) by (nonlinear_arith)
        requires
            0 < width,
            0 <= i,
    ;
}

/// What fits for every image of a size fits for each of them.
pub proof fn law_a_size_that_fits_fits_its_images(s: Scaling, rgba: Seq<u8>)
    requires
        s.sized(),
        s.fits(),
    ensures
        s.fits_for(rgba),
{
    lemma_fits(s, rgba);
}

/// A screen of up to 8,421,504 pixels can be scaled down to any size, whatever it shows.
pub proof fn law_screens_fit(s: Scaling, rgba: Seq<u8>)
    requires
        0 < s.dst_width <= s.src_width <= 0xffff,
        0 < s.dst_height <= s.src_height <= 0xffff,
        s.src_width * s.src_height <= 8_421_504,
    ensures
        s.fits(),
        s.fits_for(rgba),
        s.covered_by(s.src_width * s.src_height * 4),
{
    let (sw, sh, dw, dh) = (s.src_width, s.src_height, s.dst_width, s.dst_height);
    lemma_full_frame(sw * sh * 4, sw, sh);
    assert(0 <= dw * dh <= sw * sh) by (nonlinear_arith)
        requires
            0 < dw <= sw,
            0 < dh <= sh,
    ;
    assert(0 <= (dw / 2) * (dh / 2) <= dw * dh) by (nonlinear_arith)
        requires
            0 < dw,
            0 < dh,
    ;
    assert(dh / 2 * 2 * sh <= 0xffff * 0xffff && dw / 2 * 2 * sw <= 0xffff * 0xffff)
        by (nonlinear_arith)
        requires
            0 < dw <= sw <= 0xffff,
            0 < dh <= sh <= 0xffff,
    ;
    lemma_max_lines(sh, dh);
    lemma_max_lines(sw, dw);
    lemma_few_lines(sh, dh);
    lemma_few_lines(sw, dw);
    let (rows, cols) = (max_lines(sh, dh), max_lines(sw, dw));
    assert(rows * cols <= sh * sw) by (nonlinear_arith)
        requires
            0 < rows <= sh,
            0 < cols <= sw,
    ;
    lemma_mul_is_commutative(sh, sw);
    assert(rows * cols * 255 <= 8_421_504 * 255) by (nonlinear_arith)
        requires
            rows * cols <= 8_421_504,
    ;
    lemma_fits(s, rgba);
}

proof fn lemma_few_lines(src: int, dst: int)
    requires
        0 < dst <= src,
    ensures
        max_lines(src, dst) <= src,
{
    if src > dst {
        assert((src + dst - 1) / dst <= src) by (nonlinear_arith)
            requires
                0 < dst < src,
        ;
    }
}

/// A buffer with four bytes for each pixel holds all that is read of the image.
pub proof fn law_full_buffers_cover_the_image(s: Scaling)
    requires
        s.sized(),
    ensures
        s.covered_by(s.src_width * s.src_height * 4),
        covers(s.src_width * s.src_height * 4, s.src_width, s.src_height),
{
    lemma_full_frame(s.src_width * s.src_height * 4, s.src_width, s.src_height);
}

/// The planes have a byte for each pixel, and two for each block of four.
pub proof fn law_planes_have_their_length(rgba: Seq<u8>, s: Scaling)
    requires
        s.sized(),
    ensures
        s.i420(rgba).len() == s.dst_width * s.dst_height + 2 * ((s.dst_width / 2) * (s.dst_height
            / 2)),
        i420(rgba, s.dst_width, s.dst_height).len() == s.i420(rgba).len(),
{
    let (w, h) = (s.dst_width, s.dst_height);
    assert(0 <= w * h && 0 <= (w / 2) * (h / 2)) by (nonlinear_arith)
        requires
            0 <= w,
            0 <= h,
    ;
}

} // verus!
