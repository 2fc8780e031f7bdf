use vstd::arithmetic::div_mod::*;
use vstd::prelude::*;

verus! {

/// The largest frame buffer the library handles, in bytes.
pub const MAX_FRAME_BYTES: u64 = 0xffff_ffff;

/// Bytes in an RGBA frame of the given size: four per pixel.
pub open spec fn frame_bytes(width: int, height: int) -> int {
    4 * width * height
}

/// A frame of this size fits the library's limit.
pub open spec fn frame_size_ok(width: u32, height: u32) -> bool {
    frame_bytes(width as int, height as int) <= MAX_FRAME_BYTES
}

/// Byte `j` of an empty frame: every pixel is opaque red.
pub open spec fn empty_frame_byte(j: int) -> u8 {
    if j % 4 == 0 || j % 4 == 3 {
        255
    } else {
        0
    }
}

/// The empty frame of the given size.
pub open spec fn empty_frame(width: int, height: int) -> Seq<u8> {
    Seq::new(frame_bytes(width, height) as nat, |j: int| empty_frame_byte(j))
}

/// Channel `c` of pixel `(x, y)` of the dummy frame: a gradient with red
/// growing along x, green along y, blue at 128 and full alpha.
pub open spec fn dummy_channel(width: int, height: int, x: int, y: int, c: int) -> u8 {
    if c == 0 {
        (x * 255 / width) as u8
    } else if c == 1 {
        (y * 255 / height) as u8
    } else if c == 2 {
        128
    } else {
        255
    }
}

/// Byte `j` of the dummy frame, rows laid out one after another.
pub open spec fn dummy_frame_byte(width: int, height: int, j: int) -> u8 {
    dummy_channel(width, height, (j / 4) % width, (j / 4) / width, j % 4)
}

/// The dummy frame of the given size.
pub open spec fn dummy_frame(width: int, height: int) -> Seq<u8> {
    Seq::new(frame_bytes(width, height) as nat, |j: int| dummy_frame_byte(width, height, j))
}

proof fn lemma_frame_bytes(w: int, h: int)
    requires
        w >= 0,
        h >= 0,
    ensures
        w * h * 4 == frame_bytes(w, h),
        4 * (h * w) == frame_bytes(w, h),
        w * h <= frame_bytes(w, h),
        w * h >= 0,
{
    assert(w * h * 4 == 4 * w * h && 4 * (h * w) == 4 * w * h && w * h <= 4 * w * h && w * h >= 0)
        by (nonlinear_arith)
        requires
            w >= 0,
            h >= 0,
    ;
}

/// Channel values of the gradient stay below 256.
proof fn lemma_gradient_bound(x: int, w: int)
    requires
        0 <= x < w,
    ensures
        0 <= x * 255 / w <= 255,
{
    assert(0 <= x * 255 <= w * 255) by (nonlinear_arith)
        requires
            0 <= x < w,
    ;
    lemma_div_is_ordered(x * 255, w * 255, w);
    lemma_div_by_multiple(255, w);
    lemma_div_pos_is_pos(x * 255, w);
}

/// Byte size of a frame, as the cache meters it.
pub fn frame_byte_size(width: u32, height: u32) -> (r: u64)
    requires
        frame_size_ok(width, height),
    ensures
        r == frame_bytes(width as int, height as int),
{
    proof {
        lemma_frame_bytes(width as int, height as int);
    }
    (width as u64) * (height as u64) * 4
}

/// A frame whose every pixel is `(255, 0, 0, 255)`.
pub fn generate_empty_frame(width: u32, height: u32) -> (buf: Vec<u8>)
    requires
        frame_size_ok(width, height),
    ensures
        buf@ == empty_frame(width as int, height as int),
{
    proof {
        lemma_frame_bytes(width as int, height as int);
    }
    let n: u64 = (width as u64) * (height as u64);
    let mut buf: Vec<u8> = Vec::new();
    let mut p: u64 = 0;
    while p < n
        invariant
            n == width as int * height as int,
            4 * n <= MAX_FRAME_BYTES,
            p <= n,
            buf@.len() == 4 * p,
            forall|j: int| 0 <= j < buf@.len() ==> buf@[j] == empty_frame_byte(j),
        decreases n - p,
    {
        let ghost base = buf@.len();
        buf.push(255u8);
        buf.push(0u8);
        buf.push(0u8);
        buf.push(255u8);
        assert forall|j: int| base <= j < buf@.len() implies buf@[j] == empty_frame_byte(j) by {
            assert(base % 4 == 0);
            assert(j == base + (j - base));
        }
        p = p + 1;
    }
    assert(buf@ =~= empty_frame(width as int, height as int));
    buf
}

proof fn lemma_pixel_position(width: int, x: int, y: int, c: int)
    requires
        width > 0,
        0 <= x < width,
        0 <= y,
        0 <= c < 4,
    ensures
        ({
            let j = 4 * (y * width + x) + c;
            &&& j / 4 == y * width + x
            &&& j % 4 == c
            &&& (j / 4) % width == x
            &&& (j / 4) / width == y
        }),
{
    let p = y * width + x;
    assert(p >= 0) by (nonlinear_arith)
        requires
            y >= 0,
            width > 0,
            x >= 0,
            p == y * width + x,
    ;
    lemma_fundamental_div_mod_converse(4 * p + c, 4, p, c);
    lemma_fundamental_div_mod_converse(p, width, y, x);
}

/// The gradient frame handed out when decoding fails: pixel `(x, y)` is
/// `(x * 255 / width, y * 255 / height, 128, 255)`.
pub fn generate_dummy_frame(width: u32, height: u32) -> (buf: Vec<u8>)
    requires
        frame_size_ok(width, height),
    ensures
        buf@ == dummy_frame(width as int, height as int),
{
    let ghost w = width as int;
    let ghost h = height as int;
    proof {
        lemma_frame_bytes(w, h);
    }
    let mut buf: Vec<u8> = Vec::new();
    let mut y: u32 = 0;
    while y < height
        invariant
            4 * w * h <= MAX_FRAME_BYTES,
            w == width,
            h == height,
            y <= height,
            buf@.len() == 4 * (y * w),
            forall|j: int| 0 <= j < buf@.len() ==> buf@[j] == dummy_frame_byte(w, h, j),
        decreases height - y,
    {
        let mut x: u32 = 0;
        while x < width
            invariant
                4 * w * h <= MAX_FRAME_BYTES,
                w == width,
                h == height,
                y < height,
                x <= width,
                buf@.len() == 4 * (y * w + x),
                forall|j: int| 0 <= j < buf@.len() ==> buf@[j] == dummy_frame_byte(w, h, j),
            decreases width - x,
        {
            let ghost base = buf@.len();
            proof {
                lemma_gradient_bound(x as int, w);
                lemma_gradient_bound(y as int, h);
            }
            let r: u8 = ((x as u64) * 255 / (width as u64)) as u8;
            let g: u8 = ((y as u64) * 255 / (height as u64)) as u8;
            buf.push(r);
            buf.push(g);
            buf.push(128u8);
            buf.push(255u8);
            assert forall|j: int| base <= j < buf@.len() implies buf@[j] == dummy_frame_byte(w, h, j) by {
                let c = j - base;
                lemma_pixel_position(w, x as int, y as int, c);
                assert(j == 4 * (y * w + x) + c);
            }
            x = x + 1;
        }
        assert(y * w + w == (y + 1) * w) by (nonlinear_arith);
        y = y + 1;
    }
    assert(buf@ =~= dummy_frame(w, h));
    buf
}

/// A strided image of `height` rows, each `stride` bytes apart, packed into
/// rows of `row` bytes with no padding.
pub open spec fn packed_rows(data: Seq<u8>, stride: int, row: int, height: int) -> Seq<u8> {
    Seq::new((row * height) as nat, |j: int| data[(j / row) * stride + j % row])
}

/// The strided source holds every byte that packing reads.
pub open spec fn rows_fit(len: int, stride: int, row: int, height: int) -> bool {
    row <= stride && (height == 0 || (height - 1) * stride + row <= len)
}

/// Copies an RGBA picture whose rows are `stride` bytes apart into a buffer
/// of `4 * width * height` bytes, row-major, with no padding.
pub fn pack_rgba_rows(data: &[u8], stride: usize, width: u32, height: u32) -> (buf: Vec<u8>)
    requires
        frame_size_ok(width, height),
        rows_fit(data@.len() as int, stride as int, 4 * width, height as int),
    ensures
        buf@ == packed_rows(data@, stride as int, 4 * width, height as int),
{
    let ghost row = 4 * width as int;
    let ghost h = height as int;
    let ghost st = stride as int;
    proof {
        lemma_frame_bytes(width as int, h);
    }
    let data_len: usize = data.len();
    let row_len: usize = 4 * (width as usize);
    let mut buf: Vec<u8> = Vec::new();
    let mut y: usize = 0;
    let mut src: usize = 0;
    while y < height as usize
        invariant
            row == row_len,
            row * h <= MAX_FRAME_BYTES,
            rows_fit(data@.len() as int, st, row, h),
            data_len == data@.len(),
            h == height,
            st == stride,
            y <= h,
            y < h ==> src == y * st,
            buf@.len() == y * row,
            forall|j: int| 0 <= j < buf@.len() ==> buf@[j] == data@[(j / row) * st + j % row],
        decreases h - y,
    {
        assert(y * st + row <= data@.len()) by (nonlinear_arith)
            requires
                y < h,
                (h - 1) * st + row <= data@.len(),
                st >= 0,
                y >= 0,
        ;
        let mut k: usize = 0;
        while k < row_len
            invariant
                row == row_len,
                row * h <= MAX_FRAME_BYTES,
                src == y * st,
                y < h,
                y * st + row <= data@.len(),
                data_len == data@.len(),
                k <= row,
                buf@.len() == y * row + k,
                forall|j: int| 0 <= j < buf@.len() ==> buf@[j] == data@[(j / row) * st + j % row],
            decreases row - k,
        {
            let ghost at = buf@.len();
            buf.push(data[src + k]);
            proof {
                lemma_fundamental_div_mod_converse(at as int, row, y as int, k as int);
            }
            k = k + 1;
        }
        assert(y * row + row == (y + 1) * row) by (nonlinear_arith);
        if y + 1 < height as usize {
            assert(y * st + st == (y + 1) * st) by (nonlinear_arith);
            assert((y + 1) * st <= (h - 1) * st) by (nonlinear_arith)
                requires
                    y + 1 <= h - 1,
                    st >= 0,
            ;
            src = src + stride;
        }
        y = y + 1;
    }
    assert(buf@.len() == row * h) by (nonlinear_arith)
        requires
            buf@.len() == y * row,
            y == h,
    ;
    assert(buf@ =~= packed_rows(data@, st, row, h));
    buf
}

/// The frame picked out of a decoded window: the first frame it holds, or the
/// empty frame when the window holds none. A failed decode stays failed.
pub open spec fn first_frame_or_empty(
    window: Result<Seq<Seq<u8>>, Seq<char>>,
    width: int,
    height: int,
) -> Result<Seq<u8>, Seq<char>> {
    match window {
        Ok(frames) => if frames.len() > 0 {
            Ok(frames[0])
        } else {
            Ok(empty_frame(width, height))
        },
        Err(e) => Err(e),
    }
}

/// The frames of a decoded window, without their indexes.
pub open spec fn window_frames(frames: Seq<(usize, Vec<u8>)>) -> Seq<Seq<u8>> {
    frames.map_values(|f: (usize, Vec<u8>)| f.1@)
}

/// The view of a decode result.
pub open spec fn window_view(window: Result<Vec<(usize, Vec<u8>)>, String>) -> Result<
    Seq<Seq<u8>>,
    Seq<char>,
> {
    match window {
        Ok(frames) => Ok(window_frames(frames@)),
        Err(e) => Err(e@),
    }
}

/// Turns the result of decoding the window that starts at the target frame
/// into that single frame.
pub fn extract_frame_hw_rgba(
    window: Result<Vec<(usize, Vec<u8>)>, String>,
    dst_width: u32,
    dst_height: u32,
) -> (r: Result<Vec<u8>, String>)
    requires
        frame_size_ok(dst_width, dst_height),
    ensures
        match r {
            Ok(b) => first_frame_or_empty(window_view(window), dst_width as int, dst_height as int)
                == Ok::<Seq<u8>, Seq<char>>(b@),
            Err(e) => first_frame_or_empty(window_view(window), dst_width as int, dst_height as int)
                == Err::<Seq<u8>, Seq<char>>(e@),
        },
{
    match window {
        Ok(mut frames) => {
            if frames.len() > 0 {
                let (_, data) = frames.remove(0);
                Ok(data)
            } else {
                Ok(generate_empty_frame(dst_width, dst_height))
            }
        },
        Err(e) => Err(e),
    }
}

} // verus!
